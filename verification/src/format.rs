//! The formatter's state, and the cleanup of its output: blank lines are
//! dropped except between a closing brace and the next definition.
use vstd::prelude::*;
use crate::text::{dec_digits, push_nat, owned, trim_end_all, trim_suffix_all, ends_with, starts_with, trim_text, trim_str, is_blank, str_is_blank, str_ends_with, str_starts_with};

verus! {

/// The state of the formatter over one input.
pub struct Formatter<'a> {
    deep: usize,
    input: &'a str,
    output: String,
    err_output: String,
    forbid_newline: bool,
    forbid_semicolon_newline: bool,
    is_first_function: bool,
}

/// What a `Formatter` stands for.
pub struct FormatterView {
    pub deep: usize,
    pub input: Seq<char>,
    pub output: Seq<char>,
    pub err_output: Seq<char>,
    pub forbid_newline: bool,
    pub forbid_semicolon_newline: bool,
    pub is_first_function: bool,
}

impl<'a> View for Formatter<'a> {
    type V = FormatterView;

    closed spec fn view(&self) -> FormatterView {
        FormatterView {
            deep: self.deep,
            input: self.input@,
            output: self.output@,
            err_output: self.err_output@,
            forbid_newline: self.forbid_newline,
            forbid_semicolon_newline: self.forbid_semicolon_newline,
            is_first_function: self.is_first_function,
        }
    }
}

/// The index of the first `\n` in `s`, or -1.
pub open spec fn first_newline(s: Seq<char>) -> int
    decreases s.len(),
{
    if s.len() == 0 {
        -1
    } else if s[0] == '\n' {
        0
    } else {
        let k = first_newline(s.drop_first());
        if k < 0 { -1 } else { k + 1 }
    }
}

/// The lines of a text, as `str::lines` gives them: split at each `\n`,
/// a `\r` before it dropped, and no empty line after a final `\n`.
pub open spec fn text_lines(s: Seq<char>) -> Seq<Seq<char>>
    decreases s.len(),
{
    if s.len() == 0 {
        Seq::empty()
    } else {
        let k = first_newline(s);
        if k < 0 {
            seq![s]
        } else {
            proof { lemma_first_newline(s); }
            let line = if k > 0 && s[k - 1] == '\r' { s.take(k - 1) } else { s.take(k) };
            seq![line] + text_lines(s.skip(k + 1))
        }
    }
}

/// The index of the last non-blank line before `i`, or -1.
pub open spec fn prev_non_blank(lines: Seq<Seq<char>>, i: int) -> int
    decreases i,
{
    if i <= 0 { -1 } else if !is_blank(lines[i - 1]) { i - 1 } else { prev_non_blank(lines, i - 1) }
}

/// The index of the first non-blank line after `i`, or -1.
pub open spec fn next_non_blank(lines: Seq<Seq<char>>, i: int) -> int
    decreases lines.len() - i,
{
    if i + 1 >= lines.len() {
        -1
    } else if !is_blank(lines[i + 1]) {
        i + 1
    } else {
        next_non_blank(lines, i + 1)
    }
}

/// True when a trimmed line starts a definition: `int `, `void ` or `const `.
pub open spec fn starts_definition(t: Seq<char>) -> bool {
    starts_with(t, "int "@) || starts_with(t, "void "@) || starts_with(t, "const "@)
}

/// True when the blank line `i` separates two definitions: the nearest
/// non-blank line before it ends with `}` and the nearest one after it
/// starts a definition.
pub open spec fn keeps_blank(lines: Seq<Seq<char>>, i: int) -> bool {
    let p = prev_non_blank(lines, i);
    let q = next_non_blank(lines, i);
    p >= 0 && q >= 0 && ends_with(trim_text(lines[p]), "}"@) && starts_definition(trim_text(lines[q]))
}

/// The lines that stay: every non-blank line, and the blank lines that
/// separate definitions.
pub open spec fn kept_lines(lines: Seq<Seq<char>>, n: int) -> Seq<Seq<char>>
    decreases n,
{
    if n <= 0 {
        Seq::empty()
    } else {
        kept_lines(lines, n - 1) + if !is_blank(lines[n - 1]) || keeps_blank(lines, n - 1) {
            seq![lines[n - 1]]
        } else {
            Seq::empty()
        }
    }
}

/// The lines without the blank lines at the end.
pub open spec fn drop_trailing_blank(lines: Seq<Seq<char>>) -> Seq<Seq<char>>
    decreases lines.len(),
{
    if lines.len() > 0 && is_blank(lines.last()) { drop_trailing_blank(lines.drop_last()) } else { lines }
}

/// The lines joined with `\n` between them.
pub open spec fn join_lines(lines: Seq<Seq<char>>) -> Seq<char>
    decreases lines.len(),
{
    if lines.len() == 0 {
        Seq::empty()
    } else if lines.len() == 1 {
        lines[0]
    } else {
        join_lines(lines.drop_last()) + seq!['\n'] + lines.last()
    }
}

/// The text once cleaned.
pub open spec fn cleaned_text(input: Seq<char>) -> Seq<char> {
    let lines = text_lines(input);
    join_lines(drop_trailing_blank(kept_lines(lines, lines.len() as int)))
}

pub proof fn lemma_first_newline(s: Seq<char>)
    ensures
        -1 <= first_newline(s) < s.len(),
        first_newline(s) >= 0 ==> s[first_newline(s)] == '\n',
        forall|j: int| 0 <= j < s.len() && (first_newline(s) < 0 || j < first_newline(s)) ==> s[j] != '\n',
    decreases s.len(),
{
    if s.len() > 0 && s[0] != '\n' {
        lemma_first_newline(s.drop_first());
        assert forall|j: int| 0 <= j < s.len() && (first_newline(s) < 0 || j < first_newline(s)) implies s[j] != '\n' by {
            if j > 0 {
                assert(s[j] == s.drop_first()[j - 1]);
            }
        }
    }
}

/// The first newline is found by scanning from the start.
proof fn lemma_first_newline_at(s: Seq<char>, k: int)
    requires
        0 <= k < s.len(),
        s[k] == '\n',
        forall|j: int| 0 <= j < k ==> s[j] != '\n',
    ensures
        first_newline(s) == k,
{
    lemma_first_newline(s);
    if first_newline(s) < 0 {
        assert(s[k] != '\n');
    } else if first_newline(s) < k {
        assert(s[first_newline(s)] != '\n');
    } else if first_newline(s) > k {
        assert(s[k] != '\n');
    }
}

proof fn lemma_no_newline(s: Seq<char>)
    requires
        forall|j: int| 0 <= j < s.len() ==> s[j] != '\n',
    ensures
        first_newline(s) == -1,
{
    lemma_first_newline(s);
    if first_newline(s) >= 0 {
        assert(s[first_newline(s)] != '\n');
    }
}

/// Splits a text into lines as `str::lines` does.
fn split_lines<'a>(input: &'a str) -> (r: Vec<&'a str>)
    ensures
        r@.map_values(|l: &str| l@) == text_lines(input@),
{
    let n = input.unicode_len();
    let ghost s = input@;
    let mut lines: Vec<&'a str> = Vec::new();
    let mut start: usize = 0;
    let mut i: usize = 0;
    assert(s.skip(0) =~= s);
    while i < n
        invariant
            start <= i <= n,
            n == s.len(),
            s == input@,
            lines@.map_values(|l: &str| l@) + text_lines(s.skip(start as int)) == text_lines(s),
            forall|j: int| start <= j < i ==> s[j] != '\n',
        decreases n - i,
    {
        let c = input.get_char(i);
        if c == '\n' {
            let ghost rest = s.skip(start as int);
            proof {
                assert forall|j: int| 0 <= j < i - start implies rest[j] != '\n' by {
                    assert(rest[j] == s[start + j]);
                }
                assert(rest[i - start] == '\n');
                lemma_first_newline_at(rest, i - start);
                assert(rest.skip(i - start + 1) =~= s.skip(i + 1));
            }
            let end = if i > start && input.get_char(i - 1) == '\r' { i - 1 } else { i };
            let line = input.substring_char(start, end);
            proof {
                if i > start && s[i - 1] == '\r' {
                    assert(rest[i - start - 1] == s[i - 1]);
                    assert(line@ =~= rest.take(i - start - 1));
                } else {
                    assert(line@ =~= rest.take(i - start));
                }
                assert(text_lines(rest) == seq![line@] + text_lines(s.skip(i + 1)));
            }
            let ghost before = lines@.map_values(|l: &str| l@);
            lines.push(line);
            assert(lines@.map_values(|l: &str| l@) =~= before.push(line@));
            assert(before.push(line@) + text_lines(s.skip(i + 1)) =~= before + (seq![line@] + text_lines(s.skip(i + 1))));
            start = i + 1;
        }
        i = i + 1;
    }
    if start < n {
        let ghost rest = s.skip(start as int);
        proof {
            assert forall|j: int| 0 <= j < rest.len() implies rest[j] != '\n' by {
                assert(rest[j] == s[start + j]);
            }
            lemma_no_newline(rest);
        }
        let line = input.substring_char(start, n);
        assert(line@ =~= rest);
        let ghost before = lines@.map_values(|l: &str| l@);
        lines.push(line);
        assert(lines@.map_values(|l: &str| l@) =~= before.push(line@));
        assert(before.push(line@) =~= before + text_lines(rest));
    } else {
        assert(s.skip(start as int) =~= Seq::<char>::empty());
        assert(lines@.map_values(|l: &str| l@) + Seq::<Seq<char>>::empty() =~= lines@.map_values(|l: &str| l@));
    }
    lines
}

/// The views of a slice of lines.
pub open spec fn line_views(lines: &[&str]) -> Seq<Seq<char>> {
    lines@.map_values(|l: &str| l@)
}

impl<'a> Formatter<'a> {
    /// A formatter over `input` at indentation depth `deep`, with nothing written yet.
    pub fn new(deep: usize, input: &'a str) -> (r: Self)
        ensures
            r@ == (FormatterView {
                deep,
                input: input@,
                output: Seq::empty(),
                err_output: Seq::empty(),
                forbid_newline: false,
                forbid_semicolon_newline: false,
                is_first_function: true,
            }),
    {
        Self {
            deep,
            input,
            output: String::new(),
            err_output: String::new(),
            forbid_newline: false,
            forbid_semicolon_newline: false,
            is_first_function: true,
        }
    }

    /// Whether the blank line at `blank_line_index` separates two
    /// definitions (see `keeps_blank`).
    pub fn should_keep_blank_line(&self, lines: &[&str], blank_line_index: usize) -> (r: bool)
        requires
            blank_line_index <= lines@.len(),
        ensures
            r == keeps_blank(line_views(lines), blank_line_index as int),
    {
        let ghost ls = line_views(lines);
        let n = lines.len();
        let mut prev: usize = blank_line_index;
        let mut found_prev = false;
        while prev > 0 && !found_prev
            invariant
                prev <= blank_line_index <= n,
                n == lines@.len(),
                ls == line_views(lines),
                prev_non_blank(ls, prev as int) == prev_non_blank(ls, blank_line_index as int),
                found_prev ==> prev > 0 && !is_blank(ls[prev - 1]),
            decreases 2 * prev + if found_prev { 0int } else { 1int },
        {
            assert(ls[prev - 1] == lines@[prev - 1]@);
            if !str_is_blank(lines[prev - 1]) {
                found_prev = true;
            } else {
                prev = prev - 1;
            }
        }
        let mut next: usize = blank_line_index;
        let mut found_next = false;
        while next < n && next + 1 < n && !found_next
            invariant
                blank_line_index <= next,
                blank_line_index <= n,
                n == lines@.len(),
                ls == line_views(lines),
                next_non_blank(ls, next as int) == next_non_blank(ls, blank_line_index as int),
                found_next ==> next + 1 < n && !is_blank(ls[next + 1]),
            decreases 2 * (n - next) + if found_next { 0int } else { 1int },
        {
            assert(ls[next + 1] == lines@[next + 1]@);
            if !str_is_blank(lines[next + 1]) {
                found_next = true;
            } else {
                next = next + 1;
            }
        }
        assert(found_prev == (prev_non_blank(ls, blank_line_index as int) >= 0));
        assert(found_prev ==> prev_non_blank(ls, blank_line_index as int) == prev - 1);
        assert(found_next == (next_non_blank(ls, blank_line_index as int) >= 0));
        assert(found_next ==> next_non_blank(ls, blank_line_index as int) == next + 1);
        if found_prev && found_next {
            assert(ls[prev - 1] == lines@[prev - 1]@ && ls[next + 1] == lines@[next + 1]@);
            let prev_line = trim_str(lines[prev - 1]);
            let next_line = trim_str(lines[next + 1]);
            if str_ends_with(prev_line, "}")
                && (str_starts_with(next_line, "int ") || str_starts_with(next_line, "void ")
                    || str_starts_with(next_line, "const ")) {
                return true;
            }
        }
        false
    }

    /// The text with blank lines dropped, except those that separate
    /// definitions, and without blank lines at the end.
    pub fn clean_extra_blank_lines(&self, input: &str) -> (r: String)
        ensures
            r@ == cleaned_text(input@),
    {
        let lines = split_lines(input);
        let ghost ls = text_lines(input@);
        let mut result: Vec<&str> = Vec::new();
        let mut i: usize = 0;
        while i < lines.len()
            invariant
                i <= lines@.len(),
                ls == lines@.map_values(|l: &str| l@),
                result@.map_values(|l: &str| l@) == kept_lines(ls, i as int),
            decreases lines.len() - i,
        {
            let line = lines[i];
            assert(ls[i as int] == line@);
            let ghost before = result@.map_values(|l: &str| l@);
            if str_is_blank(line) {
                if self.should_keep_blank_line(lines.as_slice(), i) {
                    result.push(line);
                    assert(result@.map_values(|l: &str| l@) =~= before.push(line@));
                }
            } else {
                result.push(line);
                assert(result@.map_values(|l: &str| l@) =~= before.push(line@));
            }
            assert(kept_lines(ls, i + 1) =~= result@.map_values(|l: &str| l@));
            i = i + 1;
        }
        let ghost kept = kept_lines(ls, ls.len() as int);
        while result.len() > 0 && str_is_blank(result[result.len() - 1])
            invariant
                drop_trailing_blank(result@.map_values(|l: &str| l@)) == drop_trailing_blank(kept),
            decreases result.len(),
        {
            let ghost before = result@.map_values(|l: &str| l@);
            assert(before.last() == result@[result.len() - 1]@);
            result.pop();
            assert(result@.map_values(|l: &str| l@) =~= before.drop_last());
        }
        let ghost kept_view = result@.map_values(|l: &str| l@);
        assert(drop_trailing_blank(kept_view) == kept_view) by {
            if kept_view.len() > 0 {
                assert(kept_view.last() == result@[result.len() - 1]@);
            }
        }
        let mut out = String::new();
        let mut k: usize = 0;
        assert(kept_view.take(0) =~= Seq::<Seq<char>>::empty());
        while k < result.len()
            invariant
                k <= result@.len(),
                kept_view == result@.map_values(|l: &str| l@),
                out@ == join_lines(kept_view.take(k as int)),
            decreases result.len() - k,
        {
            let ghost prev = kept_view.take(k as int);
            assert(kept_view.take(k + 1).drop_last() =~= prev);
            assert(kept_view.take(k + 1).last() == result@[k as int]@);
            if k > 0 {
                out.append("\n");
                proof { reveal_strlit("\n"); }
            } else {
                assert(prev =~= Seq::<Seq<char>>::empty());
                assert(kept_view.take(1) =~= seq![result@[0]@]);
            }
            out.append(result[k]);
            k = k + 1;
        }
        assert(kept_view.take(result.len() as int) =~= kept_view);
        out
    }

    /// The text written so far.
    pub fn get_output(&self) -> (r: &String)
        ensures
            r@ == self@.output,
    {
        &self.output
    }
}


/// The kinds of node in the formatter's parse tree.
#[derive(Clone, Copy, PartialEq, Eq, Structural, Debug)]
pub enum Rule {
    FuncDef,
    VarDecl,
    VarDef,
    ConstDecl,
    ConstDef,
    ArrayDims,
    ConstInitVal,
    FuncFParams,
    FuncFParam,
    InitVal,
    BlockItem,
    LVal,
    PrimaryExp,
    CallExp,
    FuncRParams,
    UnaryExp,
    MulExp,
    AddExp,
    RelExp,
    EqExp,
    LAndExp,
    LOrExp,
    Number,
    Block,
    Stmt,
    Decl,
    Exp,
    Cond,
    ConstExp,
    Semicolon,
    CloseParen,
    Plus,
    Minus,
    Mul,
    Div,
    Mod,
    Assign,
    Equal,
    NotEqual,
    Less,
    LessEqual,
    Greater,
    GreaterEqual,
    And,
    Or,
    Not,
    UnaryOp,
    Ident,
    OpenParen,
    OpenBracket,
    CloseBracket,
    DecConst,
    HexConst,
    OctConst,
    OpenBrace,
    CloseBrace,
    ErrorStmt,
    If,
    Else,
    While,
    Break,
    Continue,
    Return,
    Int,
    Void,
    Const,
    Comma,
}

/// A node of the parse tree: its rule, the source text it spans, the line
/// it starts on, and its children in source order.
pub struct ParseNode {
    pub rule: Rule,
    pub text: String,
    pub line: usize,
    pub children: Vec<ParseNode>,
}

/// A node whose children are formatted one after the other, with nothing
/// written for the node itself.
pub open spec fn is_container(r: Rule) -> bool {
    matches!(r, Rule::VarDecl | Rule::VarDef | Rule::ConstDecl | Rule::ConstDef | Rule::ArrayDims
        | Rule::ConstInitVal | Rule::FuncFParams | Rule::FuncFParam | Rule::InitVal | Rule::BlockItem
        | Rule::LVal | Rule::PrimaryExp | Rule::CallExp | Rule::FuncRParams | Rule::UnaryExp
        | Rule::MulExp | Rule::AddExp | Rule::RelExp | Rule::EqExp | Rule::LAndExp | Rule::LOrExp
        | Rule::Number | Rule::Block)
}

/// A binary or logical operator, written with a space on each side.
pub open spec fn is_spaced_operator(r: Rule) -> bool {
    matches!(r, Rule::Plus | Rule::Minus | Rule::Mul | Rule::Div | Rule::Mod | Rule::Assign
        | Rule::Equal | Rule::NotEqual | Rule::Less | Rule::LessEqual | Rule::Greater
        | Rule::GreaterEqual | Rule::And | Rule::Or | Rule::Not)
}

/// A token written as it stands, with no space after it.
pub open spec fn is_tight_token(r: Rule) -> bool {
    matches!(r, Rule::UnaryOp | Rule::Ident | Rule::OpenParen | Rule::OpenBracket
        | Rule::CloseBracket | Rule::DecConst | Rule::HexConst | Rule::OctConst)
}

/// A line break followed by four spaces per level of depth.
pub open spec fn line_break(deep: int) -> Seq<char> {
    seq!['\n'] + Seq::new((4 * deep) as nat, |_i: int| ' ')
}

/// The text without its last four characters (all of it when shorter).
pub open spec fn drop_four(s: Seq<char>) -> Seq<char> {
    if s.len() >= 4 { s.take(s.len() - 4) } else { Seq::empty() }
}

/// The report of a statement that did not parse.
pub open spec fn error_stmt_text(line: nat, text: Seq<char>) -> Seq<char> {
    "Error type A at Line "@ + dec_digits(line) + ": "@ + text + ".\n"@
}

/// The state at the start of a function definition: a blank line before
/// every one but the first.
pub open spec fn function_started(s: FormatterView) -> FormatterView {
    FormatterView {
        output: if s.is_first_function { s.output } else { s.output + "\n"@ },
        is_first_function: false,
        ..s
    }
}

/// The state after formatting one node, or `None` where the formatter
/// cannot go on: a statement or an expression without children, a
/// closing brace or an indented statement at depth zero, or a depth past
/// the largest `usize`.
pub open spec fn fmt_node(s: FormatterView, n: ParseNode) -> Option<FormatterView>
    decreases n, 0int,
{
    let kids = n.children@;
    let text = n.text@;
    let out = s.output;
    if n.rule == Rule::FuncDef {
        fmt_list(function_started(s), kids)
    } else if is_container(n.rule) {
        fmt_list(s, kids)
    } else if n.rule == Rule::Stmt {
        if kids.len() == 0 {
            None
        } else if kids[0].rule == Rule::Block {
            fmt_list(s, kids)
        } else if ends_with(out, ") "@) {
            if s.deep >= usize::MAX {
                None
            } else {
                let d = (s.deep + 1) as usize;
                let s1 = FormatterView {
                    deep: d,
                    forbid_semicolon_newline: true,
                    output: out + line_break(d as int),
                    ..s
                };
                match fmt_list(s1, kids) {
                    None => None,
                    Some(s2) => if s2.deep == 0 {
                        None
                    } else {
                        Some(FormatterView {
                            deep: (s2.deep - 1) as usize,
                            output: s2.output + line_break(s2.deep - 1),
                            forbid_semicolon_newline: false,
                            ..s2
                        })
                    },
                }
            }
        } else if ends_with(out, "else "@) && kids[0].rule != Rule::If {
            if s.deep >= usize::MAX {
                None
            } else {
                fmt_list(FormatterView { output: out + line_break(s.deep + 1), ..s }, kids)
            }
        } else {
            fmt_list(s, kids)
        }
    } else if n.rule == Rule::Decl {
        match fmt_list(FormatterView { forbid_newline: true, ..s }, kids) {
            None => None,
            Some(s2) => Some(FormatterView { forbid_newline: false, ..s2 }),
        }
    } else if n.rule == Rule::Exp || n.rule == Rule::Cond || n.rule == Rule::ConstExp {
        if kids.len() == 0 { None } else { fmt_node(s, kids[0]) }
    } else if n.rule == Rule::Semicolon {
        Some(FormatterView {
            output: trim_suffix_all(out, " "@) + text
                + if s.forbid_semicolon_newline { Seq::empty() } else { line_break(s.deep as int) },
            ..s
        })
    } else if n.rule == Rule::CloseParen {
        Some(FormatterView { output: trim_suffix_all(out, " "@) + text + " "@, ..s })
    } else if is_spaced_operator(n.rule) {
        Some(FormatterView { output: out + " "@ + text + " "@, ..s })
    } else if is_tight_token(n.rule) {
        Some(FormatterView { output: out + text, ..s })
    } else if n.rule == Rule::OpenBrace {
        if s.forbid_newline {
            Some(FormatterView { output: out + text, ..s })
        } else if s.deep >= usize::MAX {
            None
        } else {
            Some(FormatterView {
                deep: (s.deep + 1) as usize,
                output: out + text + line_break(s.deep + 1),
                ..s
            })
        }
    } else if n.rule == Rule::CloseBrace {
        if s.forbid_newline {
            Some(FormatterView { output: out + text, ..s })
        } else if s.deep == 0 {
            None
        } else {
            Some(FormatterView {
                deep: (s.deep - 1) as usize,
                output: drop_four(out) + text + line_break(s.deep - 1),
                ..s
            })
        }
    } else if n.rule == Rule::ErrorStmt {
        Some(FormatterView { err_output: s.err_output + error_stmt_text(n.line as nat, text), ..s })
    } else {
        Some(FormatterView { output: out + text + " "@, ..s })
    }
}

/// The state after formatting the nodes in order, or `None` where one of
/// them cannot be formatted.
pub open spec fn fmt_list(s: FormatterView, nodes: Seq<ParseNode>) -> Option<FormatterView>
    decreases nodes, 1int,
{
    if nodes.len() == 0 {
        Some(s)
    } else {
        match fmt_list(s, nodes.drop_last()) {
            None => None,
            Some(s1) => fmt_node(s1, nodes.last()),
        }
    }
}


/// Every prefix of a list that formats without failing formats without failing.
proof fn lemma_fmt_list_prefix(s: FormatterView, nodes: Seq<ParseNode>)
    requires
        fmt_list(s, nodes) is Some,
    ensures
        forall|k: int| 0 <= k <= nodes.len() ==> fmt_list(s, #[trigger] nodes.take(k)) is Some,
    decreases nodes.len(),
{
    if nodes.len() > 0 {
        lemma_fmt_list_prefix(s, nodes.drop_last());
        assert forall|k: int| 0 <= k <= nodes.len() implies fmt_list(s, #[trigger] nodes.take(k)) is Some by {
            if k == nodes.len() {
                assert(nodes.take(k) =~= nodes);
            } else {
                assert(nodes.take(k) =~= nodes.drop_last().take(k));
            }
        }
    } else {
        assert forall|k: int| 0 <= k <= nodes.len() implies fmt_list(s, #[trigger] nodes.take(k)) is Some by {
            assert(nodes.take(k) =~= nodes);
        }
    }
}

/// Appends a line break and the indentation of depth `deep`.
fn push_line_break(s: &mut String, deep: usize)
    ensures
        final(s)@ == old(s)@ + line_break(deep as int),
{
    s.append("\n");
    proof { reveal_strlit("\n"); }
    let mut i: usize = 0;
    while i < deep
        invariant
            i <= deep,
            s@ == old(s)@ + seq!['\n'] + Seq::new((4 * i) as nat, |_j: int| ' '),
        decreases deep - i,
    {
        s.append("    ");
        proof { reveal_strlit("    "); }
        assert(s@ =~= old(s)@ + seq!['\n'] + Seq::new((4 * (i + 1)) as nat, |_j: int| ' '));
        i = i + 1;
    }
    assert(s@ =~= old(s)@ + line_break(deep as int));
}

impl<'a> Formatter<'a> {
    /// Formats the nodes one after the other.
    fn fmt_children(&mut self, nodes: &Vec<ParseNode>)
        requires
            fmt_list(old(self)@, nodes@) is Some,
        ensures
            final(self)@ == fmt_list(old(self)@, nodes@)->0,
        decreases nodes, 1int,
    {
        let ghost s0 = self@;
        proof { lemma_fmt_list_prefix(s0, nodes@); }
        let mut i: usize = 0;
        assert(nodes@.take(0) =~= Seq::<ParseNode>::empty());
        while i < nodes.len()
            invariant
                i <= nodes@.len(),
                forall|k: int| 0 <= k <= nodes@.len() ==> fmt_list(s0, #[trigger] nodes@.take(k)) is Some,
                fmt_list(s0, nodes@.take(i as int)) == Some(self@),
            decreases nodes.len() - i,
        {
            assert(nodes@.take(i + 1).drop_last() =~= nodes@.take(i as int));
            assert(nodes@.take(i + 1).last() == nodes@[i as int]);
            assert(fmt_list(s0, nodes@.take(i + 1)) is Some);
            self.fmt(&nodes[i]);
            i = i + 1;
        }
        assert(nodes@.take(nodes@.len() as int) =~= nodes@);
    }

    /// Marks the start of a function definition: a blank line before every
    /// one but the first.
    fn start_function(&mut self)
        ensures
            final(self)@ == function_started(old(self)@),
    {
        if !self.is_first_function {
            self.output.append("\n");
        }
        self.is_first_function = false;
    }

    /// Formats one node of the parse tree: writes its text with the
    /// spacing, line breaks and indentation of its kind, and records a
    /// statement that did not parse in the error report.
    pub fn fmt(&mut self, pair: &ParseNode)
        requires
            fmt_node(old(self)@, *pair) is Some,
        ensures
            final(self)@ == fmt_node(old(self)@, *pair)->0,
        decreases pair, 0int,
    {
        match pair.rule {
            Rule::FuncDef => {
                self.start_function();
                self.fmt_children(&pair.children);
            },
            Rule::VarDecl | Rule::VarDef | Rule::ConstDecl | Rule::ConstDef | Rule::ArrayDims
            | Rule::ConstInitVal | Rule::FuncFParams | Rule::FuncFParam | Rule::InitVal
            | Rule::BlockItem | Rule::LVal | Rule::PrimaryExp | Rule::CallExp | Rule::FuncRParams
            | Rule::UnaryExp | Rule::MulExp | Rule::AddExp | Rule::RelExp | Rule::EqExp
            | Rule::LAndExp | Rule::LOrExp | Rule::Number | Rule::Block => {
                self.fmt_children(&pair.children);
            },
            Rule::Stmt => {
                let first = pair.children[0].rule;
                if first == Rule::Block {
                    self.fmt_children(&pair.children);
                } else if str_ends_with(self.output.as_str(), ") ") {
                    self.deep = self.deep + 1;
                    self.forbid_semicolon_newline = true;
                    push_line_break(&mut self.output, self.deep);
                    self.fmt_children(&pair.children);
                    self.deep = self.deep - 1;
                    push_line_break(&mut self.output, self.deep);
                    self.forbid_semicolon_newline = false;
                } else if str_ends_with(self.output.as_str(), "else ") && first != Rule::If {
                    push_line_break(&mut self.output, self.deep + 1);
                    self.fmt_children(&pair.children);
                } else {
                    self.fmt_children(&pair.children);
                }
            },
            Rule::Decl => {
                self.forbid_newline = true;
                self.fmt_children(&pair.children);
                self.forbid_newline = false;
            },
            Rule::Exp | Rule::Cond | Rule::ConstExp => {
                self.fmt(&pair.children[0]);
            },
            Rule::Semicolon => {
                let trimmed = owned(trim_end_all(self.output.as_str(), " "));
                self.output = trimmed;
                self.output.append(pair.text.as_str());
                if !self.forbid_semicolon_newline {
                    push_line_break(&mut self.output, self.deep);
                }
            },
            Rule::CloseParen => {
                let trimmed = owned(trim_end_all(self.output.as_str(), " "));
                self.output = trimmed;
                self.output.append(pair.text.as_str());
                self.output.append(" ");
            },
            Rule::Plus | Rule::Minus | Rule::Mul | Rule::Div | Rule::Mod | Rule::Assign
            | Rule::Equal | Rule::NotEqual | Rule::Less | Rule::LessEqual | Rule::Greater
            | Rule::GreaterEqual | Rule::And | Rule::Or | Rule::Not => {
                self.output.append(" ");
                self.output.append(pair.text.as_str());
                self.output.append(" ");
            },
            Rule::UnaryOp | Rule::Ident | Rule::OpenParen | Rule::OpenBracket | Rule::CloseBracket
            | Rule::DecConst | Rule::HexConst | Rule::OctConst => {
                self.output.append(pair.text.as_str());
            },
            Rule::OpenBrace => {
                self.output.append(pair.text.as_str());
                if !self.forbid_newline {
                    self.deep = self.deep + 1;
                    push_line_break(&mut self.output, self.deep);
                }
            },
            Rule::CloseBrace => {
                if !self.forbid_newline {
                    let n = self.output.as_str().unicode_len();
                    let keep = if n >= 4 { n - 4 } else { 0 };
                    let kept = owned(self.output.as_str().substring_char(0, keep));
                    self.output = kept;
                }
                self.output.append(pair.text.as_str());
                if !self.forbid_newline {
                    self.deep = self.deep - 1;
                    push_line_break(&mut self.output, self.deep);
                }
            },
            Rule::ErrorStmt => {
                self.err_output.append("Error type A at Line ");
                push_nat(&mut self.err_output, pair.line as u64);
                self.err_output.append(": ");
                self.err_output.append(pair.text.as_str());
                self.err_output.append(".\n");
                assert(self@.err_output =~= old(self)@.err_output + error_stmt_text(pair.line as nat, pair.text@));
            },
            _ => {
                self.output.append(pair.text.as_str());
                self.output.append(" ");
            },
        }
    }
}


impl<'a> Formatter<'a> {
    /// Formats the nodes one after the other while that can be done; tells
    /// whether all of them could be formatted.
    fn try_fmt_children(&mut self, nodes: &Vec<ParseNode>) -> (ok: bool)
        ensures
            ok == fmt_list(old(self)@, nodes@) is Some,
            ok ==> final(self)@ == fmt_list(old(self)@, nodes@)->0,
        decreases nodes, 1int,
    {
        let ghost s0 = self@;
        let mut i: usize = 0;
        assert(nodes@.take(0) =~= Seq::<ParseNode>::empty());
        while i < nodes.len()
            invariant
                i <= nodes@.len(),
                s0 == old(self)@,
                fmt_list(s0, nodes@.take(i as int)) == Some(self@),
            decreases nodes.len() - i,
        {
            assert(nodes@.take(i + 1).drop_last() =~= nodes@.take(i as int));
            assert(nodes@.take(i + 1).last() == nodes@[i as int]);
            let ghost before = self@;
            if !self.try_fmt(&nodes[i]) {
                proof {
                    assert(fmt_node(before, nodes@[i as int]) is None);
                    assert(fmt_list(s0, nodes@.take(i + 1)) is None);
                    if fmt_list(s0, nodes@) is Some {
                        lemma_fmt_list_prefix(s0, nodes@);
                        assert(fmt_list(s0, nodes@.take(i + 1)) is Some);
                    }
                }
                return false;
            }
            i = i + 1;
        }
        assert(nodes@.take(nodes@.len() as int) =~= nodes@);
        true
    }

    /// Formats one node as `fmt` does where that can be done, and tells
    /// whether it could: false exactly where `fmt_node` has no result (a
    /// statement or expression without children, a closing brace or an
    /// indented statement at depth zero, a depth past the largest `usize`).
    pub fn try_fmt(&mut self, pair: &ParseNode) -> (ok: bool)
        ensures
            ok == fmt_node(old(self)@, *pair) is Some,
            ok ==> final(self)@ == fmt_node(old(self)@, *pair)->0,
        decreases pair, 0int,
    {
        match pair.rule {
            Rule::FuncDef => {
                self.start_function();
                self.try_fmt_children(&pair.children)
            },
            Rule::VarDecl | Rule::VarDef | Rule::ConstDecl | Rule::ConstDef | Rule::ArrayDims
            | Rule::ConstInitVal | Rule::FuncFParams | Rule::FuncFParam | Rule::InitVal
            | Rule::BlockItem | Rule::LVal | Rule::PrimaryExp | Rule::CallExp | Rule::FuncRParams
            | Rule::UnaryExp | Rule::MulExp | Rule::AddExp | Rule::RelExp | Rule::EqExp
            | Rule::LAndExp | Rule::LOrExp | Rule::Number | Rule::Block => {
                self.try_fmt_children(&pair.children)
            },
            Rule::Stmt => {
                if pair.children.len() == 0 {
                    return false;
                }
                let first = pair.children[0].rule;
                if first == Rule::Block {
                    self.try_fmt_children(&pair.children)
                } else if str_ends_with(self.output.as_str(), ") ") {
                    if self.deep == usize::MAX {
                        return false;
                    }
                    self.deep = self.deep + 1;
                    self.forbid_semicolon_newline = true;
                    push_line_break(&mut self.output, self.deep);
                    if !self.try_fmt_children(&pair.children) {
                        return false;
                    }
                    if self.deep == 0 {
                        return false;
                    }
                    self.deep = self.deep - 1;
                    push_line_break(&mut self.output, self.deep);
                    self.forbid_semicolon_newline = false;
                    true
                } else if str_ends_with(self.output.as_str(), "else ") && first != Rule::If {
                    if self.deep == usize::MAX {
                        return false;
                    }
                    push_line_break(&mut self.output, self.deep + 1);
                    self.try_fmt_children(&pair.children)
                } else {
                    self.try_fmt_children(&pair.children)
                }
            },
            Rule::Decl => {
                self.forbid_newline = true;
                let ok = self.try_fmt_children(&pair.children);
                self.forbid_newline = false;
                ok
            },
            Rule::Exp | Rule::Cond | Rule::ConstExp => {
                if pair.children.len() == 0 {
                    false
                } else {
                    self.try_fmt(&pair.children[0])
                }
            },
            Rule::OpenBrace => {
                if !self.forbid_newline && self.deep == usize::MAX {
                    return false;
                }
                self.fmt(pair);
                true
            },
            Rule::CloseBrace => {
                if !self.forbid_newline && self.deep == 0 {
                    return false;
                }
                self.fmt(pair);
                true
            },
            _ => {
                self.fmt(pair);
                true
            },
        }
    }

    /// Formats the units as `format_code` does where that can be done: the
    /// text to write, or `None` exactly where `fmt_list` has no result.
    pub fn try_format_code(&mut self, units: &Vec<ParseNode>) -> (r: Option<String>)
        ensures
            r is Some <==> fmt_list(old(self)@, units@) is Some,
            r is Some ==> final(self)@ == fmt_list(old(self)@, units@)->0
                && r->0@ == written_text(final(self)@),
    {
        if !self.try_fmt_children(units) {
            return None;
        }
        let mut r: String;
        if self.err_output.as_str().unicode_len() != 0 {
            r = owned(self.err_output.as_str());
        } else {
            r = self.clean_extra_blank_lines(self.output.as_str());
        }
        r.append("\n");
        Some(r)
    }
}

/// What the formatter writes once the units are formatted: the error
/// report when a statement did not parse, else the cleaned output; then a
/// line break.
pub open spec fn written_text(s: FormatterView) -> Seq<char> {
    if s.err_output.len() != 0 {
        s.err_output + "\n"@
    } else {
        cleaned_text(s.output) + "\n"@
    }
}

impl<'a> Formatter<'a> {
    /// Formats the units of a compilation unit in order and gives back the
    /// text to write: the error report when a statement did not parse,
    /// else the output with its extra blank lines removed.
    pub fn format_code(&mut self, units: &Vec<ParseNode>) -> (r: String)
        requires
            fmt_list(old(self)@, units@) is Some,
        ensures
            final(self)@ == fmt_list(old(self)@, units@)->0,
            r@ == written_text(final(self)@),
    {
        self.fmt_children(units);
        let mut r: String;
        if self.err_output.as_str().unicode_len() != 0 {
            r = owned(self.err_output.as_str());
        } else {
            r = self.clean_extra_blank_lines(self.output.as_str());
        }
        r.append("\n");
        r
    }
}


/// Removing trailing spaces leaves a prefix that does not end with a space.
proof fn lemma_trim_spaces(s: Seq<char>)
    ensures
        trim_suffix_all(s, " "@).len() <= s.len(),
        trim_suffix_all(s, " "@) == s.take(trim_suffix_all(s, " "@).len() as int),
        trim_suffix_all(s, " "@).len() == 0 || trim_suffix_all(s, " "@).last() != ' ',
    decreases s.len(),
{
    reveal_strlit(" ");
    if ends_with(s, " "@) {
        let t = s.subrange(0, s.len() - 1);
        lemma_trim_spaces(t);
        assert(trim_suffix_all(t, " "@) =~= s.take(trim_suffix_all(t, " "@).len() as int));
    } else {
        assert(s.take(s.len() as int) =~= s);
        if s.len() > 0 && s.last() == ' ' {
            assert(s.subrange(s.len() - 1, s.len() as int) =~= " "@);
        }
    }
}

/// A semicolon is never written after a space: the spaces before it are
/// removed, so the character in front of it is not a space.
pub proof fn lemma_no_space_before_semicolon(s: FormatterView, n: ParseNode)
    requires
        n.rule == Rule::Semicolon,
    ensures
        fmt_node(s, n) is Some,
        ({
            let out = fmt_node(s, n)->0.output;
            let k = trim_suffix_all(s.output, " "@).len() as int;
            &&& out.subrange(k, k + n.text@.len()) == n.text@
            &&& (k == 0 || out[k - 1] != ' ')
        }),
{
    lemma_trim_spaces(s.output);
    let t = trim_suffix_all(s.output, " "@);
    let out = fmt_node(s, n)->0.output;
    assert(out.subrange(t.len() as int, (t.len() + n.text@.len()) as int) =~= n.text@);
    if t.len() > 0 {
        assert(out[t.len() - 1] == t.last());
    }
}

/// The error lines of the statements that did not parse among the nodes the
/// formatter visits, in order.
pub open spec fn node_errors(n: ParseNode) -> Seq<char>
    decreases n, 0int,
{
    let kids = n.children@;
    if n.rule == Rule::FuncDef || is_container(n.rule) || n.rule == Rule::Stmt || n.rule == Rule::Decl {
        list_errors(kids)
    } else if n.rule == Rule::Exp || n.rule == Rule::Cond || n.rule == Rule::ConstExp {
        if kids.len() > 0 { node_errors(kids[0]) } else { Seq::empty() }
    } else if n.rule == Rule::ErrorStmt {
        error_stmt_text(n.line as nat, n.text@)
    } else {
        Seq::empty()
    }
}

/// The error lines of a list of nodes, in order.
pub open spec fn list_errors(nodes: Seq<ParseNode>) -> Seq<char>
    decreases nodes, 1int,
{
    if nodes.len() == 0 { Seq::empty() } else { list_errors(nodes.drop_last()) + node_errors(nodes.last()) }
}

/// Formatting a node keeps every error already reported and adds exactly
/// the lines of the statements in it that did not parse, in order: the error
/// report grows by error lines only.
pub proof fn lemma_node_keeps_errors(s: FormatterView, n: ParseNode)
    requires
        fmt_node(s, n) is Some,
    ensures
        s.err_output.is_prefix_of(fmt_node(s, n)->0.err_output),
        fmt_node(s, n)->0.err_output == s.err_output + node_errors(n),
    decreases n, 0int,
{
    let kids = n.children@;
    if n.rule == Rule::FuncDef {
        lemma_list_keeps_errors(function_started(s), kids);
    } else if is_container(n.rule) {
        lemma_list_keeps_errors(s, kids);
    } else if n.rule == Rule::Stmt {
        if kids[0].rule == Rule::Block {
            lemma_list_keeps_errors(s, kids);
        } else if ends_with(s.output, ") "@) {
            let d = (s.deep + 1) as usize;
            let s1 = FormatterView {
                deep: d,
                forbid_semicolon_newline: true,
                output: s.output + line_break(d as int),
                ..s
            };
            lemma_list_keeps_errors(s1, kids);
        } else if ends_with(s.output, "else "@) && kids[0].rule != Rule::If {
            lemma_list_keeps_errors(FormatterView { output: s.output + line_break(s.deep + 1), ..s }, kids);
        } else {
            lemma_list_keeps_errors(s, kids);
        }
    } else if n.rule == Rule::Decl {
        lemma_list_keeps_errors(FormatterView { forbid_newline: true, ..s }, kids);
    } else if n.rule == Rule::Exp || n.rule == Rule::Cond || n.rule == Rule::ConstExp {
        lemma_node_keeps_errors(s, kids[0]);
    } else if n.rule == Rule::ErrorStmt {
        assert(s.err_output.is_prefix_of(s.err_output + error_stmt_text(n.line as nat, n.text@)));
    } else {
        assert(s.err_output + node_errors(n) =~= s.err_output);
    }
}

/// Formatting a list of nodes keeps every error already reported and adds
/// exactly the error lines of the nodes, in order.
pub proof fn lemma_list_keeps_errors(s: FormatterView, nodes: Seq<ParseNode>)
    requires
        fmt_list(s, nodes) is Some,
    ensures
        s.err_output.is_prefix_of(fmt_list(s, nodes)->0.err_output),
        fmt_list(s, nodes)->0.err_output == s.err_output + list_errors(nodes),
    decreases nodes, 1int,
{
    if nodes.len() > 0 {
        lemma_list_keeps_errors(s, nodes.drop_last());
        let s1 = fmt_list(s, nodes.drop_last())->0;
        lemma_node_keeps_errors(s1, nodes.last());
        assert(s.err_output + list_errors(nodes) =~= (s.err_output + list_errors(nodes.drop_last())) + node_errors(nodes.last()));
    } else {
        assert(s.err_output + list_errors(nodes) =~= s.err_output);
    }
}

/// True when no space is directly followed by a semicolon.
pub open spec fn no_space_semicolon(s: Seq<char>) -> bool {
    forall|i: int| 0 <= i < s.len() - 1 ==> !(#[trigger] s[i] == ' ' && s[i + 1] == ';')
}

/// True when the text of a node holds no semicolon, but for a semicolon
/// node, whose text is the semicolon alone, and for a statement that did not
/// parse, whose text goes to the error report only.
pub open spec fn text_fits(n: ParseNode) -> bool {
    if n.rule == Rule::ErrorStmt {
        true
    } else if n.rule == Rule::Semicolon {
        n.text@ == ";"@
    } else {
        forall|i: int| 0 <= i < n.text@.len() ==> #[trigger] n.text@[i] != ';'
    }
}

/// True when every node of the tree has a text that fits.
pub open spec fn tree_fits(n: ParseNode) -> bool
    decreases n, 0int,
{
    text_fits(n) && list_fits(n.children@)
}

/// True when every tree of the list fits.
pub open spec fn list_fits(nodes: Seq<ParseNode>) -> bool
    decreases nodes, 1int,
{
    nodes.len() == 0 || (list_fits(nodes.drop_last()) && tree_fits(nodes.last()))
}

proof fn lemma_list_fits_at(nodes: Seq<ParseNode>, i: int)
    requires
        list_fits(nodes),
        0 <= i < nodes.len(),
    ensures
        tree_fits(nodes[i]),
    decreases nodes.len(),
{
    if i < nodes.len() - 1 {
        lemma_list_fits_at(nodes.drop_last(), i);
        assert(nodes.drop_last()[i] == nodes[i]);
    }
}

/// Appending a text without semicolons keeps a text free of " ;".
proof fn lemma_append_plain(s: Seq<char>, w: Seq<char>)
    requires
        no_space_semicolon(s),
        forall|i: int| 0 <= i < w.len() ==> #[trigger] w[i] != ';',
    ensures
        no_space_semicolon(s + w),
{
    let r = s + w;
    assert forall|i: int| 0 <= i < r.len() - 1 implies !(#[trigger] r[i] == ' ' && r[i + 1] == ';') by {
        if i + 1 < s.len() {
            assert(r[i] == s[i] && r[i + 1] == s[i + 1]);
        } else {
            assert(r[i + 1] == w[i + 1 - s.len()]);
        }
    }
}

proof fn lemma_line_break_plain(d: int)
    ensures
        forall|i: int| 0 <= i < line_break(d).len() ==> #[trigger] line_break(d)[i] != ';',
{
    assert forall|i: int| 0 <= i < line_break(d).len() implies #[trigger] line_break(d)[i] != ';' by {
        if i > 0 {
            assert(line_break(d)[i] == ' ');
        }
    }
}

proof fn lemma_prefix_plain(s: Seq<char>, k: int)
    requires
        no_space_semicolon(s),
        0 <= k <= s.len(),
    ensures
        no_space_semicolon(s.take(k)),
{
    assert forall|i: int| 0 <= i < s.take(k).len() - 1 implies !(#[trigger] s.take(k)[i] == ' ' && s.take(k)[i + 1] == ';') by {
        assert(s.take(k)[i] == s[i] && s.take(k)[i + 1] == s[i + 1]);
    }
}

/// The spaces before a semicolon are removed, so it never follows one.
proof fn lemma_semicolon_plain(s: Seq<char>)
    requires
        no_space_semicolon(s),
    ensures
        no_space_semicolon(trim_suffix_all(s, " "@) + ";"@),
{
    reveal_strlit(";");
    lemma_trim_spaces(s);
    let t = trim_suffix_all(s, " "@);
    lemma_prefix_plain(s, t.len() as int);
    let r = t + ";"@;
    assert forall|i: int| 0 <= i < r.len() - 1 implies !(#[trigger] r[i] == ' ' && r[i + 1] == ';') by {
        if i + 1 < t.len() {
            assert(r[i] == t[i] && r[i + 1] == t[i + 1]);
        } else {
            assert(r[i] == t.last());
        }
    }
}

/// The formatter never writes a space right before a semicolon: formatting a
/// tree whose texts fit keeps an output free of " ;" free of it.
pub proof fn lemma_node_no_space_semicolon(s: FormatterView, n: ParseNode)
    requires
        fmt_node(s, n) is Some,
        no_space_semicolon(s.output),
        tree_fits(n),
    ensures
        no_space_semicolon(fmt_node(s, n)->0.output),
    decreases n, 0int,
{
    reveal_strlit(" ");
    reveal_strlit("\n");
    let kids = n.children@;
    let out = s.output;
    let text = n.text@;
    assert(list_fits(kids));
    if n.rule == Rule::FuncDef {
        lemma_append_plain(out, "\n"@);
        lemma_list_no_space_semicolon(function_started(s), kids);
    } else if is_container(n.rule) {
        lemma_list_no_space_semicolon(s, kids);
    } else if n.rule == Rule::Stmt {
        if kids[0].rule == Rule::Block {
            lemma_list_no_space_semicolon(s, kids);
        } else if ends_with(out, ") "@) {
            let d = (s.deep + 1) as usize;
            lemma_line_break_plain(d as int);
            lemma_append_plain(out, line_break(d as int));
            let s1 = FormatterView { deep: d, forbid_semicolon_newline: true, output: out + line_break(d as int), ..s };
            lemma_list_no_space_semicolon(s1, kids);
            let s2 = fmt_list(s1, kids)->0;
            lemma_line_break_plain(s2.deep - 1);
            lemma_append_plain(s2.output, line_break(s2.deep - 1));
        } else if ends_with(out, "else "@) && kids[0].rule != Rule::If {
            lemma_line_break_plain(s.deep + 1);
            lemma_append_plain(out, line_break(s.deep + 1));
            lemma_list_no_space_semicolon(FormatterView { output: out + line_break(s.deep + 1), ..s }, kids);
        } else {
            lemma_list_no_space_semicolon(s, kids);
        }
    } else if n.rule == Rule::Decl {
        lemma_list_no_space_semicolon(FormatterView { forbid_newline: true, ..s }, kids);
    } else if n.rule == Rule::Exp || n.rule == Rule::Cond || n.rule == Rule::ConstExp {
        lemma_list_fits_at(kids, 0);
        lemma_node_no_space_semicolon(s, kids[0]);
    } else if n.rule == Rule::Semicolon {
        lemma_semicolon_plain(out);
        let t = trim_suffix_all(out, " "@) + text;
        lemma_line_break_plain(s.deep as int);
        lemma_append_plain(t, line_break(s.deep as int));
        assert(t + Seq::<char>::empty() =~= t);
    } else if n.rule == Rule::CloseParen {
        lemma_trim_spaces(out);
        lemma_prefix_plain(out, trim_suffix_all(out, " "@).len() as int);
        lemma_append_plain(trim_suffix_all(out, " "@), text);
        lemma_append_plain(trim_suffix_all(out, " "@) + text, " "@);
    } else if is_spaced_operator(n.rule) {
        lemma_append_plain(out, " "@);
        lemma_append_plain(out + " "@, text);
        lemma_append_plain(out + " "@ + text, " "@);
    } else if is_tight_token(n.rule) {
        lemma_append_plain(out, text);
    } else if n.rule == Rule::OpenBrace {
        lemma_append_plain(out, text);
        lemma_line_break_plain(s.deep + 1);
        lemma_append_plain(out + text, line_break(s.deep + 1));
    } else if n.rule == Rule::CloseBrace {
        lemma_append_plain(out, text);
        if !s.forbid_newline {
            let k = if out.len() >= 4 { out.len() - 4 } else { 0 };
            lemma_prefix_plain(out, k as int);
            assert(drop_four(out) =~= out.take(k as int));
            lemma_append_plain(drop_four(out), text);
            lemma_line_break_plain(s.deep - 1);
            lemma_append_plain(drop_four(out) + text, line_break(s.deep - 1));
        }
    } else if n.rule == Rule::ErrorStmt {
    } else {
        lemma_append_plain(out, text);
        lemma_append_plain(out + text, " "@);
    }
}

/// Formatting a list of trees whose texts fit keeps an output free of " ;" free of it.
pub proof fn lemma_list_no_space_semicolon(s: FormatterView, nodes: Seq<ParseNode>)
    requires
        fmt_list(s, nodes) is Some,
        no_space_semicolon(s.output),
        list_fits(nodes),
    ensures
        no_space_semicolon(fmt_list(s, nodes)->0.output),
    decreases nodes, 1int,
{
    if nodes.len() > 0 {
        lemma_list_no_space_semicolon(s, nodes.drop_last());
        let s1 = fmt_list(s, nodes.drop_last())->0;
        lemma_node_no_space_semicolon(s1, nodes.last());
    }
}


/// The text with its spaces and line breaks removed.
pub open spec fn squeeze(s: Seq<char>) -> Seq<char>
    decreases s.len(),
{
    if s.len() == 0 {
        Seq::empty()
    } else if s.last() == ' ' || s.last() == '\n' {
        squeeze(s.drop_last())
    } else {
        squeeze(s.drop_last()).push(s.last())
    }
}

/// The source tokens of a tree, whitespace removed, in order: the texts of
/// its leaves; a statement that did not parse holds none.
pub open spec fn node_tokens(n: ParseNode) -> Seq<char>
    decreases n, 0int,
{
    if n.rule == Rule::FuncDef || is_container(n.rule) || n.rule == Rule::Stmt || n.rule == Rule::Decl
        || n.rule == Rule::Exp || n.rule == Rule::Cond || n.rule == Rule::ConstExp {
        list_tokens(n.children@)
    } else if n.rule == Rule::ErrorStmt {
        Seq::empty()
    } else {
        squeeze(n.text@)
    }
}

/// The source tokens of a list of trees, in order.
pub open spec fn list_tokens(nodes: Seq<ParseNode>) -> Seq<char>
    decreases nodes, 1int,
{
    if nodes.len() == 0 { Seq::empty() } else { list_tokens(nodes.drop_last()) + node_tokens(nodes.last()) }
}

/// True when a tree has no closing brace (whose indentation the formatter
/// takes back by dropping the last four characters written, whatever they
/// are) and each expression, condition and constant expression in it has at
/// most one child, as the grammar gives them.
pub open spec fn tree_plain(n: ParseNode) -> bool
    decreases n, 0int,
{
    &&& n.rule != Rule::CloseBrace
    &&& (n.rule == Rule::Exp || n.rule == Rule::Cond || n.rule == Rule::ConstExp) ==> n.children@.len() <= 1
    &&& list_plain(n.children@)
}

/// True when every tree of the list is plain.
pub open spec fn list_plain(nodes: Seq<ParseNode>) -> bool
    decreases nodes, 1int,
{
    nodes.len() == 0 || (list_plain(nodes.drop_last()) && tree_plain(nodes.last()))
}

proof fn lemma_squeeze_add(a: Seq<char>, b: Seq<char>)
    ensures
        squeeze(a + b) == squeeze(a) + squeeze(b),
    decreases b.len(),
{
    if b.len() == 0 {
        assert(a + b =~= a);
    } else {
        lemma_squeeze_add(a, b.drop_last());
        assert((a + b).drop_last() =~= a + b.drop_last());
        assert((a + b).last() == b.last());
        if !(b.last() == ' ' || b.last() == '\n') {
            assert(squeeze(a) + squeeze(b.drop_last()).push(b.last()) =~= (squeeze(a) + squeeze(b.drop_last())).push(b.last()));
        }
    }
}

proof fn lemma_squeeze_blank(s: Seq<char>)
    requires
        forall|i: int| 0 <= i < s.len() ==> #[trigger] s[i] == ' ' || s[i] == '\n',
    ensures
        squeeze(s) == Seq::<char>::empty(),
    decreases s.len(),
{
    if s.len() > 0 {
        assert(s.last() == s[s.len() - 1]);
        assert forall|i: int| 0 <= i < s.drop_last().len() implies #[trigger] s.drop_last()[i] == ' ' || s.drop_last()[i] == '\n' by {
            assert(s.drop_last()[i] == s[i]);
        }
        lemma_squeeze_blank(s.drop_last());
    }
}

proof fn lemma_squeeze_line_break(d: int)
    ensures
        squeeze(line_break(d)) == Seq::<char>::empty(),
        squeeze(" "@) == Seq::<char>::empty(),
        squeeze("\n"@) == Seq::<char>::empty(),
{
    reveal_strlit(" ");
    reveal_strlit("\n");
    assert forall|i: int| 0 <= i < line_break(d).len() implies #[trigger] line_break(d)[i] == ' ' || line_break(d)[i] == '\n' by {
        if i > 0 {
            assert(line_break(d)[i] == ' ');
        }
    }
    lemma_squeeze_blank(line_break(d));
    lemma_squeeze_blank(" "@);
    lemma_squeeze_blank("\n"@);
}

proof fn lemma_squeeze_trim(s: Seq<char>)
    ensures
        squeeze(trim_suffix_all(s, " "@)) == squeeze(s),
    decreases s.len(),
{
    reveal_strlit(" ");
    if ends_with(s, " "@) {
        let t = s.subrange(0, s.len() - 1);
        assert(s.subrange(s.len() - 1, s.len() as int)[0] == s.last());
        assert(t =~= s.drop_last());
        lemma_squeeze_trim(t);
    }
}

proof fn lemma_list_plain_at(nodes: Seq<ParseNode>, i: int)
    requires
        list_plain(nodes),
        0 <= i < nodes.len(),
    ensures
        tree_plain(nodes[i]),
    decreases nodes.len(),
{
    if i < nodes.len() - 1 {
        lemma_list_plain_at(nodes.drop_last(), i);
        assert(nodes.drop_last()[i] == nodes[i]);
    }
}

/// Formatting keeps every token and adds none: with spaces and line breaks
/// removed, the output after a tree is the output before it followed by the
/// tree's own tokens in order. A binary operator such as `%` is thus always
/// written out, between the spaces that surround it.
pub proof fn lemma_node_keeps_tokens(s: FormatterView, n: ParseNode)
    requires
        fmt_node(s, n) is Some,
        tree_plain(n),
    ensures
        squeeze(fmt_node(s, n)->0.output) == squeeze(s.output) + node_tokens(n),
    decreases n, 0int,
{
    reveal_strlit(" ");
    reveal_strlit("\n");
    let kids = n.children@;
    let out = s.output;
    let text = n.text@;
    lemma_squeeze_line_break(0);
    if n.rule == Rule::FuncDef {
        lemma_squeeze_add(out, "\n"@);
        assert(squeeze(out) + Seq::<char>::empty() =~= squeeze(out));
        lemma_list_keeps_tokens(function_started(s), kids);
    } else if is_container(n.rule) {
        lemma_list_keeps_tokens(s, kids);
    } else if n.rule == Rule::Stmt {
        if kids[0].rule == Rule::Block {
            lemma_list_keeps_tokens(s, kids);
        } else if ends_with(out, ") "@) {
            let d = (s.deep + 1) as usize;
            lemma_squeeze_line_break(d as int);
            lemma_squeeze_add(out, line_break(d as int));
            assert(squeeze(out) + Seq::<char>::empty() =~= squeeze(out));
            let s1 = FormatterView { deep: d, forbid_semicolon_newline: true, output: out + line_break(d as int), ..s };
            lemma_list_keeps_tokens(s1, kids);
            let s2 = fmt_list(s1, kids)->0;
            lemma_squeeze_line_break(s2.deep - 1);
            lemma_squeeze_add(s2.output, line_break(s2.deep - 1));
            assert(squeeze(s2.output) + Seq::<char>::empty() =~= squeeze(s2.output));
        } else if ends_with(out, "else "@) && kids[0].rule != Rule::If {
            lemma_squeeze_line_break(s.deep + 1);
            lemma_squeeze_add(out, line_break(s.deep + 1));
            assert(squeeze(out) + Seq::<char>::empty() =~= squeeze(out));
            lemma_list_keeps_tokens(FormatterView { output: out + line_break(s.deep + 1), ..s }, kids);
        } else {
            lemma_list_keeps_tokens(s, kids);
        }
    } else if n.rule == Rule::Decl {
        lemma_list_keeps_tokens(FormatterView { forbid_newline: true, ..s }, kids);
    } else if n.rule == Rule::Exp || n.rule == Rule::Cond || n.rule == Rule::ConstExp {
        lemma_list_plain_at(kids, 0);
        lemma_node_keeps_tokens(s, kids[0]);
        assert(kids.drop_last() =~= Seq::<ParseNode>::empty());
        assert(list_tokens(kids.drop_last()) == Seq::<char>::empty());
        assert(kids.last() == kids[0]);
        assert(list_tokens(kids) =~= Seq::<char>::empty() + node_tokens(kids[0]));
    } else if n.rule == Rule::Semicolon {
        let t = trim_suffix_all(out, " "@);
        let tail = if s.forbid_semicolon_newline { Seq::<char>::empty() } else { line_break(s.deep as int) };
        lemma_squeeze_trim(out);
        lemma_squeeze_line_break(s.deep as int);
        lemma_squeeze_add(t, text);
        lemma_squeeze_add(t + text, tail);
        assert(squeeze(Seq::<char>::empty()) == Seq::<char>::empty());
        assert(squeeze(t) + squeeze(text) + Seq::<char>::empty() =~= squeeze(t) + squeeze(text));
    } else if n.rule == Rule::CloseParen {
        let t = trim_suffix_all(out, " "@);
        lemma_squeeze_trim(out);
        lemma_squeeze_add(t, text);
        lemma_squeeze_add(t + text, " "@);
        assert(squeeze(t) + squeeze(text) + Seq::<char>::empty() =~= squeeze(t) + squeeze(text));
    } else if is_spaced_operator(n.rule) {
        lemma_squeeze_add(out, " "@);
        lemma_squeeze_add(out + " "@, text);
        lemma_squeeze_add(out + " "@ + text, " "@);
        assert(squeeze(out) + Seq::<char>::empty() =~= squeeze(out));
        assert(squeeze(out) + squeeze(text) + Seq::<char>::empty() =~= squeeze(out) + squeeze(text));
    } else if is_tight_token(n.rule) {
        lemma_squeeze_add(out, text);
    } else if n.rule == Rule::OpenBrace {
        lemma_squeeze_add(out, text);
        lemma_squeeze_line_break(s.deep + 1);
        lemma_squeeze_add(out + text, line_break(s.deep + 1));
        assert(squeeze(out) + squeeze(text) + Seq::<char>::empty() =~= squeeze(out) + squeeze(text));
    } else if n.rule == Rule::ErrorStmt {
        assert(squeeze(out) + Seq::<char>::empty() =~= squeeze(out));
    } else {
        lemma_squeeze_add(out, text);
        lemma_squeeze_add(out + text, " "@);
        assert(squeeze(out) + squeeze(text) + Seq::<char>::empty() =~= squeeze(out) + squeeze(text));
    }
}

/// Formatting a list of trees keeps every token: the output, whitespace
/// removed, grows by the trees' tokens in order.
pub proof fn lemma_list_keeps_tokens(s: FormatterView, nodes: Seq<ParseNode>)
    requires
        fmt_list(s, nodes) is Some,
        list_plain(nodes),
    ensures
        squeeze(fmt_list(s, nodes)->0.output) == squeeze(s.output) + list_tokens(nodes),
    decreases nodes, 1int,
{
    if nodes.len() == 0 {
        assert(squeeze(s.output) + Seq::<char>::empty() =~= squeeze(s.output));
    } else {
        lemma_list_keeps_tokens(s, nodes.drop_last());
        let s1 = fmt_list(s, nodes.drop_last())->0;
        lemma_node_keeps_tokens(s1, nodes.last());
        assert(squeeze(s.output) + list_tokens(nodes.drop_last()) + node_tokens(nodes.last())
            =~= squeeze(s.output) + (list_tokens(nodes.drop_last()) + node_tokens(nodes.last())));
    }
}


/// A closing brace is always written out: with spaces and line breaks
/// removed, the output after it is what stays of the output before it
/// (all of it on one line, or without the last four characters, the
/// indentation it takes back) followed by the brace's own text.
pub proof fn lemma_close_brace_keeps_token(s: FormatterView, n: ParseNode)
    requires
        fmt_node(s, n) is Some,
        n.rule == Rule::CloseBrace,
    ensures
        squeeze(fmt_node(s, n)->0.output) == squeeze(if s.forbid_newline { s.output } else { drop_four(s.output) })
            + squeeze(n.text@),
{
    let kept = if s.forbid_newline { s.output } else { drop_four(s.output) };
    lemma_squeeze_add(kept, n.text@);
    if !s.forbid_newline {
        lemma_squeeze_line_break(s.deep - 1);
        lemma_squeeze_add(kept + n.text@, line_break(s.deep - 1));
        assert(squeeze(kept) + squeeze(n.text@) + Seq::<char>::empty() =~= squeeze(kept) + squeeze(n.text@));
    }
}

} // verus!
