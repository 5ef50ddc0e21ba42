//! The tokens of SysY, how each is printed, and the report of a token
//! stream: every token with its line, or only the lexical errors when there
//! are any.
use vstd::prelude::*;
use crate::text::{dec_digits, int_text, push_nat, owned, ends_with};
use crate::utils::{hex_to_int, oct_to_int, signed_radix_parse, hex_body, oct_body};

verus! {

/// A token.
#[derive(Debug, PartialEq, Clone)]
pub enum Token {
    Identifier(String),
    Operator(Operator),
    Type(Type),
    Flow(Flow),
    IntegerConst(IntegerConst),
    ErrorSyntax(ErrorSyntax),
}

/// A lexical error and the text it was found in.
#[derive(Debug, PartialEq, Clone)]
pub enum ErrorSyntax {
    VarError(String),
    InvalidHex(String),
    InvalidOctal(String),
    InvalidInteger(String),
    InvalidOperator(String),
    UnKnownError(String),
}

/// An integer literal, by its radix.
#[derive(Debug, PartialEq, Clone)]
pub enum IntegerConst {
    Hex(String),
    Octal(String),
    Dec(String),
}

/// A control-flow keyword.
#[derive(Debug, PartialEq, Clone)]
pub enum Flow {
    If,
    Else,
    While,
    Break,
    Continue,
    Return,
}

/// A type keyword.
#[derive(Debug, PartialEq, Clone)]
pub enum Type {
    Int,
    Float,
    Void,
    Const,
}

/// An operator or punctuation mark.
#[derive(Debug, PartialEq, Clone)]
pub enum Operator {
    Plus,
    Minus,
    Mul,
    Div,
    Mod,
    Assign,
    Equal,
    NotEqual,
    Less,
    LessEqual,
    Greater,
    GreaterEqual,
    And,
    Or,
    Not,
    OpenParen,
    CloseParen,
    OpenBrace,
    CloseBrace,
    OpenBracket,
    CloseBracket,
    Comma,
    Semicolon,
}

/// How an operator is printed: its name, a space, and its text.
pub open spec fn operator_text(op: Operator) -> Seq<char> {
    match op {
        Operator::Plus => "PLUS +"@,
        Operator::Minus => "MINUS -"@,
        Operator::Mul => "MUL *"@,
        Operator::Div => "DIV /"@,
        Operator::Mod => "MOD %"@,
        Operator::Assign => "ASSIGN ="@,
        Operator::Equal => "EQ =="@,
        Operator::NotEqual => "NEQ !="@,
        Operator::Less => "LT <"@,
        Operator::LessEqual => "LE <="@,
        Operator::Greater => "GT >"@,
        Operator::GreaterEqual => "GE >="@,
        Operator::And => "AND &&"@,
        Operator::Or => "OR ||"@,
        Operator::Not => "NOT !"@,
        Operator::OpenParen => "L_PAREN ("@,
        Operator::CloseParen => "R_PAREN )"@,
        Operator::OpenBrace => "L_BRACE {"@,
        Operator::CloseBrace => "R_BRACE }"@,
        Operator::Comma => "COMMA ,"@,
        Operator::Semicolon => "SEMICOLON ;"@,
        Operator::OpenBracket => "L_BRACKT ["@,
        Operator::CloseBracket => "R_BRACKT ]"@,
    }
}

/// How a control-flow keyword is printed.
pub open spec fn flow_text(f: Flow) -> Seq<char> {
    match f {
        Flow::If => "IF if"@,
        Flow::Else => "ELSE else"@,
        Flow::While => "WHILE while"@,
        Flow::Break => "BREAK break"@,
        Flow::Continue => "CONTINUE continue"@,
        Flow::Return => "RETURN return"@,
    }
}

/// How a type keyword is printed.
pub open spec fn type_text(t: Type) -> Seq<char> {
    match t {
        Type::Int => "INT int"@,
        Type::Float => "FLOAT float"@,
        Type::Void => "VOID void"@,
        Type::Const => "CONST const"@,
    }
}

/// How a lexical error is printed: its name and the text it was found in.
pub open spec fn error_syntax_text(e: ErrorSyntax) -> Seq<char> {
    match e {
        ErrorSyntax::VarError(s) => "VAR_ERROR "@ + s@,
        ErrorSyntax::InvalidHex(s) => "INVALID_HEX "@ + s@,
        ErrorSyntax::InvalidOctal(s) => "INVALID_OCTAL "@ + s@,
        ErrorSyntax::InvalidInteger(s) => "INVALID_INTEGER "@ + s@,
        ErrorSyntax::InvalidOperator(s) => "INVALID_OPERATOR "@ + s@,
        ErrorSyntax::UnKnownError(s) => "UN_KNOWN_ERROR "@ + s@,
    }
}

/// The decimal value of an integer literal, when it can be read: a
/// hexadecimal or octal literal is converted, a decimal one kept as written.
pub open spec fn const_decimal(c: IntegerConst) -> Option<Seq<char>> {
    match c {
        IntegerConst::Hex(s) => match signed_radix_parse(hex_body(s@), 16) {
            Some(v) => Some(int_text(v)),
            None => None,
        },
        IntegerConst::Octal(s) => if s@ == seq!['0'] {
            Some(seq!['0'])
        } else {
            match signed_radix_parse(oct_body(s@), 8) {
                Some(v) => Some(int_text(v)),
                None => None,
            }
        },
        IntegerConst::Dec(s) => Some(s@),
    }
}

/// How a token is printed; `None` for a hexadecimal or octal literal that
/// cannot be read.
pub open spec fn token_text(t: Token) -> Option<Seq<char>> {
    match t {
        Token::Identifier(s) => Some("IDENT "@ + s@),
        Token::Operator(op) => Some(operator_text(op)),
        Token::Type(ty) => Some(type_text(ty)),
        Token::Flow(f) => Some(flow_text(f)),
        Token::IntegerConst(c) => match const_decimal(c) {
            Some(d) => Some("INTEGER_CONST "@ + d),
            None => None,
        },
        Token::ErrorSyntax(e) => Some(error_syntax_text(e)),
    }
}

impl Operator {
    /// The operator as printed.
    pub fn fmt(&self) -> (r: String)
        ensures
            r@ == operator_text(*self),
    {
        let s: &str = match self {
            Operator::Plus => "PLUS +",
            Operator::Minus => "MINUS -",
            Operator::Mul => "MUL *",
            Operator::Div => "DIV /",
            Operator::Mod => "MOD %",
            Operator::Assign => "ASSIGN =",
            Operator::Equal => "EQ ==",
            Operator::NotEqual => "NEQ !=",
            Operator::Less => "LT <",
            Operator::LessEqual => "LE <=",
            Operator::Greater => "GT >",
            Operator::GreaterEqual => "GE >=",
            Operator::And => "AND &&",
            Operator::Or => "OR ||",
            Operator::Not => "NOT !",
            Operator::OpenParen => "L_PAREN (",
            Operator::CloseParen => "R_PAREN )",
            Operator::OpenBrace => "L_BRACE {",
            Operator::CloseBrace => "R_BRACE }",
            Operator::Comma => "COMMA ,",
            Operator::Semicolon => "SEMICOLON ;",
            Operator::OpenBracket => "L_BRACKT [",
            Operator::CloseBracket => "R_BRACKT ]",
        };
        String::from_str(s)
    }
}

impl Flow {
    /// The keyword as printed.
    pub fn fmt(&self) -> (r: String)
        ensures
            r@ == flow_text(*self),
    {
        let s: &str = match self {
            Flow::If => "IF if",
            Flow::Else => "ELSE else",
            Flow::While => "WHILE while",
            Flow::Break => "BREAK break",
            Flow::Continue => "CONTINUE continue",
            Flow::Return => "RETURN return",
        };
        String::from_str(s)
    }
}

impl Type {
    /// The keyword as printed.
    pub fn fmt(&self) -> (r: String)
        ensures
            r@ == type_text(*self),
    {
        let s: &str = match self {
            Type::Int => "INT int",
            Type::Float => "FLOAT float",
            Type::Void => "VOID void",
            Type::Const => "CONST const",
        };
        String::from_str(s)
    }
}

impl ErrorSyntax {
    /// The error as printed.
    pub fn fmt(&self) -> (r: String)
        ensures
            r@ == error_syntax_text(*self),
    {
        let (name, text): (&str, &String) = match self {
            ErrorSyntax::VarError(s) => ("VAR_ERROR ", s),
            ErrorSyntax::InvalidHex(s) => ("INVALID_HEX ", s),
            ErrorSyntax::InvalidOctal(s) => ("INVALID_OCTAL ", s),
            ErrorSyntax::InvalidInteger(s) => ("INVALID_INTEGER ", s),
            ErrorSyntax::InvalidOperator(s) => ("INVALID_OPERATOR ", s),
            ErrorSyntax::UnKnownError(s) => ("UN_KNOWN_ERROR ", s),
        };
        let mut r = String::from_str(name);
        r.append(text.as_str());
        r
    }
}

impl IntegerConst {
    /// The literal as printed: `INTEGER_CONST` and its decimal value.
    pub fn fmt(&self) -> (r: String)
        requires
            const_decimal(*self) is Some,
        ensures
            r@ == "INTEGER_CONST "@ + const_decimal(*self)->0,
    {
        let mut r = String::from_str("INTEGER_CONST ");
        match self {
            IntegerConst::Hex(s) => {
                match hex_to_int(s.as_str()) {
                    Ok(d) => r.append(d.as_str()),
                    Err(_) => {}
                }
            }
            IntegerConst::Octal(s) => {
                match oct_to_int(s.as_str()) {
                    Ok(d) => r.append(d.as_str()),
                    Err(_) => {}
                }
            }
            IntegerConst::Dec(s) => r.append(s.as_str()),
        }
        r
    }
}

impl Token {
    /// The token as printed.
    pub fn fmt(&self) -> (r: String)
        requires
            token_text(*self) is Some,
        ensures
            r@ == token_text(*self)->0,
    {
        match self {
            Token::Identifier(s) => {
                let mut r = String::from_str("IDENT ");
                r.append(s.as_str());
                r
            }
            Token::Operator(op) => op.fmt(),
            Token::Type(t) => t.fmt(),
            Token::Flow(f) => f.fmt(),
            Token::IntegerConst(c) => c.fmt(),
            Token::ErrorSyntax(e) => e.fmt(),
        }
    }
}

/// True when some token is a lexical error.
pub open spec fn has_error_token(ts: Seq<(usize, Token)>) -> bool {
    exists|i: int| 0 <= i < ts.len() && (#[trigger] ts[i]).1 is ErrorSyntax
}

/// True when every token can be printed.
pub open spec fn tokens_printable(ts: Seq<(usize, Token)>) -> bool {
    forall|i: int| 0 <= i < ts.len() ==> token_text((#[trigger] ts[i]).1) is Some
}

/// The report of the lexical errors: `Error type A at Line L: error.` for
/// each, in order.
pub open spec fn error_report(ts: Seq<(usize, Token)>) -> Seq<char>
    decreases ts.len(),
{
    if ts.len() == 0 {
        Seq::empty()
    } else {
        error_report(ts.drop_last()) + match ts.last().1 {
            Token::ErrorSyntax(e) => "Error type A at Line "@ + dec_digits(ts.last().0 as nat) + ": "@
                + error_syntax_text(e) + ".\n"@,
            _ => Seq::empty(),
        }
    }
}

/// The report of the tokens: `token at Line L.` for each, in order.
pub open spec fn token_report(ts: Seq<(usize, Token)>) -> Seq<char>
    decreases ts.len(),
{
    if ts.len() == 0 {
        Seq::empty()
    } else {
        token_report(ts.drop_last()) + token_text(ts.last().1)->0 + " at Line "@ + dec_digits(ts.last().0 as nat)
            + ".\n"@
    }
}

/// The report of a token stream, each token with its line: only the lexical
/// errors when there are any, else every token.
pub fn tokenizer(line_tokens: &Vec<(usize, Token)>) -> (r: String)
    requires
        has_error_token(line_tokens@) || tokens_printable(line_tokens@),
    ensures
        r@ == if has_error_token(line_tokens@) { error_report(line_tokens@) } else { token_report(line_tokens@) },
{
    let ghost ts = line_tokens@;
    let n = line_tokens.len();
    let mut any_error = false;
    let mut i: usize = 0;
    while i < n
        invariant
            i <= n,
            n == ts.len(),
            ts == line_tokens@,
            any_error == exists|j: int| 0 <= j < i && (#[trigger] ts[j]).1 is ErrorSyntax,
        decreases n - i,
    {
        if let Token::ErrorSyntax(_) = &line_tokens[i].1 {
            assert(ts[i as int].1 is ErrorSyntax);
            any_error = true;
        }
        i = i + 1;
    }
    let mut out = String::new();
    i = 0;
    assert(ts.take(0) =~= Seq::<(usize, Token)>::empty());
    while i < n
        invariant
            i <= n,
            n == ts.len(),
            ts == line_tokens@,
            any_error == has_error_token(ts),
            has_error_token(ts) || tokens_printable(ts),
            out@ == if any_error { error_report(ts.take(i as int)) } else { token_report(ts.take(i as int)) },
        decreases n - i,
    {
        let line = line_tokens[i].0;
        let token = &line_tokens[i].1;
        assert(ts.take(i + 1).drop_last() =~= ts.take(i as int));
        assert(ts.take(i + 1).last() == ts[i as int]);
        if any_error {
            if let Token::ErrorSyntax(e) = token {
                out.append("Error type A at Line ");
                push_nat(&mut out, line as u64);
                out.append(": ");
                let t = e.fmt();
                out.append(t.as_str());
                out.append(".\n");
            }
        } else {
            assert(token_text(ts[i as int].1) is Some);
            let t = token.fmt();
            out.append(t.as_str());
            out.append(" at Line ");
            push_nat(&mut out, line as u64);
            out.append(".\n");
        }
        i = i + 1;
    }
    assert(ts.take(n as int) =~= ts);
    out
}


/// The kinds of node in the lexer's parse tree.
#[derive(Clone, Copy, PartialEq, Eq, Structural, Debug)]
pub enum Rule {
    Operator,
    Flow,
    Type,
    IntegerConst,
    ErrorSyntax,
    Ident,
    EOI,
    Plus,
    Minus,
    Mul,
    Div,
    Mod,
    Assign,
    Equal,
    NotEqual,
    Less,
    LessEqual,
    Greater,
    GreaterEqual,
    And,
    Or,
    Not,
    OpenParen,
    CloseParen,
    OpenBrace,
    CloseBrace,
    OpenBracket,
    CloseBracket,
    Comma,
    Semicolon,
    If,
    Else,
    While,
    Break,
    Continue,
    Return,
    Int,
    Float,
    Void,
    Const,
    Hex,
    Octal,
    Dec,
    VarError,
    InvalidHex,
    InvalidOctal,
    InvalidInteger,
    InvalidOperator,
    UnKnownError,
}

/// A node of the lexer's parse tree: its rule, the text it spans, the line
/// it starts on, and its children.
pub struct LexPair {
    pub rule: Rule,
    pub text: String,
    pub line: usize,
    pub inner: Vec<LexPair>,
}

/// The operator a rule stands for.
pub open spec fn operator_of(r: Rule) -> Option<Operator> {
    match r {
        Rule::Plus => Some(Operator::Plus),
        Rule::Minus => Some(Operator::Minus),
        Rule::Mul => Some(Operator::Mul),
        Rule::Div => Some(Operator::Div),
        Rule::Mod => Some(Operator::Mod),
        Rule::Assign => Some(Operator::Assign),
        Rule::Equal => Some(Operator::Equal),
        Rule::NotEqual => Some(Operator::NotEqual),
        Rule::Less => Some(Operator::Less),
        Rule::LessEqual => Some(Operator::LessEqual),
        Rule::Greater => Some(Operator::Greater),
        Rule::GreaterEqual => Some(Operator::GreaterEqual),
        Rule::And => Some(Operator::And),
        Rule::Or => Some(Operator::Or),
        Rule::Not => Some(Operator::Not),
        Rule::OpenParen => Some(Operator::OpenParen),
        Rule::CloseParen => Some(Operator::CloseParen),
        Rule::OpenBrace => Some(Operator::OpenBrace),
        Rule::CloseBrace => Some(Operator::CloseBrace),
        Rule::OpenBracket => Some(Operator::OpenBracket),
        Rule::CloseBracket => Some(Operator::CloseBracket),
        Rule::Comma => Some(Operator::Comma),
        Rule::Semicolon => Some(Operator::Semicolon),
        _ => None,
    }
}

/// The control-flow keyword a rule stands for.
pub open spec fn flow_of(r: Rule) -> Option<Flow> {
    match r {
        Rule::If => Some(Flow::If),
        Rule::Else => Some(Flow::Else),
        Rule::While => Some(Flow::While),
        Rule::Break => Some(Flow::Break),
        Rule::Continue => Some(Flow::Continue),
        Rule::Return => Some(Flow::Return),
        _ => None,
    }
}

/// The type keyword a rule stands for.
pub open spec fn type_of(r: Rule) -> Option<Type> {
    match r {
        Rule::Int => Some(Type::Int),
        Rule::Float => Some(Type::Float),
        Rule::Void => Some(Type::Void),
        Rule::Const => Some(Type::Const),
        _ => None,
    }
}

/// True when a node can be read as a token: a wrapper node (operator,
/// keyword, literal, error) has a first child of a kind it can hold.
pub open spec fn pair_readable(p: LexPair) -> bool {
    let first = p.inner@[0];
    match p.rule {
        Rule::Operator => p.inner@.len() > 0 && operator_of(first.rule) is Some,
        Rule::Flow => p.inner@.len() > 0 && flow_of(first.rule) is Some,
        Rule::Type => p.inner@.len() > 0 && type_of(first.rule) is Some,
        Rule::IntegerConst => p.inner@.len() > 0 && matches!(first.rule, Rule::Hex | Rule::Octal | Rule::Dec),
        Rule::ErrorSyntax => p.inner@.len() > 0 && matches!(
            first.rule,
            Rule::InvalidHex | Rule::InvalidOctal | Rule::InvalidOperator | Rule::UnKnownError
        ),
        _ => true,
    }
}

/// True when `t` is the token a node reads as: the kind named by the
/// wrapper's first child, holding that child's text for literals and
/// errors; any other node is an identifier holding the node's own text.
pub open spec fn is_token_of(t: Token, p: LexPair) -> bool {
    let first = p.inner@[0];
    match p.rule {
        Rule::Operator => t == Token::Operator(operator_of(first.rule)->0),
        Rule::Flow => t == Token::Flow(flow_of(first.rule)->0),
        Rule::Type => t == Token::Type(type_of(first.rule)->0),
        Rule::IntegerConst => match t {
            Token::IntegerConst(IntegerConst::Hex(s)) => first.rule == Rule::Hex && s@ == first.text@,
            Token::IntegerConst(IntegerConst::Octal(s)) => first.rule == Rule::Octal && s@ == first.text@,
            Token::IntegerConst(IntegerConst::Dec(s)) => first.rule == Rule::Dec && s@ == first.text@,
            _ => false,
        },
        Rule::ErrorSyntax => match t {
            Token::ErrorSyntax(ErrorSyntax::InvalidHex(s)) => first.rule == Rule::InvalidHex && s@ == first.text@,
            Token::ErrorSyntax(ErrorSyntax::InvalidOctal(s)) => first.rule == Rule::InvalidOctal && s@ == first.text@,
            Token::ErrorSyntax(ErrorSyntax::InvalidOperator(s)) => first.rule == Rule::InvalidOperator
                && s@ == first.text@,
            Token::ErrorSyntax(ErrorSyntax::UnKnownError(s)) => first.rule == Rule::UnKnownError
                && s@ == first.text@,
            _ => false,
        },
        _ => t matches Token::Identifier(s) && s@ == p.text@,
    }
}

/// The source text of an operator token of SysY.
pub open spec fn rule_symbol(r: Rule) -> Seq<char> {
    match r {
        Rule::Plus => "+"@,
        Rule::Minus => "-"@,
        Rule::Mul => "*"@,
        Rule::Div => "/"@,
        Rule::Mod => "%"@,
        Rule::Assign => "="@,
        Rule::Equal => "=="@,
        Rule::NotEqual => "!="@,
        Rule::Less => "<"@,
        Rule::LessEqual => "<="@,
        Rule::Greater => ">"@,
        Rule::GreaterEqual => ">="@,
        Rule::And => "&&"@,
        Rule::Or => "||"@,
        Rule::Not => "!"@,
        Rule::OpenParen => "("@,
        Rule::CloseParen => ")"@,
        Rule::OpenBrace => "{"@,
        Rule::CloseBrace => "}"@,
        Rule::OpenBracket => "["@,
        Rule::CloseBracket => "]"@,
        Rule::Comma => ","@,
        Rule::Semicolon => ";"@,
        _ => Seq::empty(),
    }
}

/// The rule of the operator token that reads as `op`.
spec fn operator_rule(op: Operator) -> Rule {
    match op {
        Operator::Plus => Rule::Plus,
        Operator::Minus => Rule::Minus,
        Operator::Mul => Rule::Mul,
        Operator::Div => Rule::Div,
        Operator::Mod => Rule::Mod,
        Operator::Assign => Rule::Assign,
        Operator::Equal => Rule::Equal,
        Operator::NotEqual => Rule::NotEqual,
        Operator::Less => Rule::Less,
        Operator::LessEqual => Rule::LessEqual,
        Operator::Greater => Rule::Greater,
        Operator::GreaterEqual => Rule::GreaterEqual,
        Operator::And => Rule::And,
        Operator::Or => Rule::Or,
        Operator::Not => Rule::Not,
        Operator::OpenParen => Rule::OpenParen,
        Operator::CloseParen => Rule::CloseParen,
        Operator::OpenBrace => Rule::OpenBrace,
        Operator::CloseBrace => Rule::CloseBrace,
        Operator::OpenBracket => Rule::OpenBracket,
        Operator::CloseBracket => Rule::CloseBracket,
        Operator::Comma => Rule::Comma,
        Operator::Semicolon => Rule::Semicolon,
    }
}

proof fn lemma_operator_rule_inverts(r: Rule)
    requires
        operator_of(r) is Some,
    ensures
        operator_rule(operator_of(r)->0) == r,
{
}

proof fn lemma_operator_text_symbol(r: Rule)
    requires
        operator_of(r) is Some,
    ensures
        rule_symbol(r).len() > 0,
        ends_with(operator_text(operator_of(r)->0), rule_symbol(r)),
{
    match r {
        Rule::Plus => {
            reveal_strlit("PLUS +");
            reveal_strlit("+");
            assert("PLUS +"@.subrange(5, 6) =~= "+"@);
        },
        Rule::Minus => {
            reveal_strlit("MINUS -");
            reveal_strlit("-");
            assert("MINUS -"@.subrange(6, 7) =~= "-"@);
        },
        Rule::Mul => {
            reveal_strlit("MUL *");
            reveal_strlit("*");
            assert("MUL *"@.subrange(4, 5) =~= "*"@);
        },
        Rule::Div => {
            reveal_strlit("DIV /");
            reveal_strlit("/");
            assert("DIV /"@.subrange(4, 5) =~= "/"@);
        },
        Rule::Mod => {
            reveal_strlit("MOD %");
            reveal_strlit("%");
            assert("MOD %"@.subrange(4, 5) =~= "%"@);
        },
        Rule::Assign => {
            reveal_strlit("ASSIGN =");
            reveal_strlit("=");
            assert("ASSIGN ="@.subrange(7, 8) =~= "="@);
        },
        Rule::Equal => {
            reveal_strlit("EQ ==");
            reveal_strlit("==");
            assert("EQ =="@.subrange(3, 5) =~= "=="@);
        },
        Rule::NotEqual => {
            reveal_strlit("NEQ !=");
            reveal_strlit("!=");
            assert("NEQ !="@.subrange(4, 6) =~= "!="@);
        },
        Rule::Less => {
            reveal_strlit("LT <");
            reveal_strlit("<");
            assert("LT <"@.subrange(3, 4) =~= "<"@);
        },
        Rule::LessEqual => {
            reveal_strlit("LE <=");
            reveal_strlit("<=");
            assert("LE <="@.subrange(3, 5) =~= "<="@);
        },
        Rule::Greater => {
            reveal_strlit("GT >");
            reveal_strlit(">");
            assert("GT >"@.subrange(3, 4) =~= ">"@);
        },
        Rule::GreaterEqual => {
            reveal_strlit("GE >=");
            reveal_strlit(">=");
            assert("GE >="@.subrange(3, 5) =~= ">="@);
        },
        Rule::And => {
            reveal_strlit("AND &&");
            reveal_strlit("&&");
            assert("AND &&"@.subrange(4, 6) =~= "&&"@);
        },
        Rule::Or => {
            reveal_strlit("OR ||");
            reveal_strlit("||");
            assert("OR ||"@.subrange(3, 5) =~= "||"@);
        },
        Rule::Not => {
            reveal_strlit("NOT !");
            reveal_strlit("!");
            assert("NOT !"@.subrange(4, 5) =~= "!"@);
        },
        Rule::OpenParen => {
            reveal_strlit("L_PAREN (");
            reveal_strlit("(");
            assert("L_PAREN ("@.subrange(8, 9) =~= "("@);
        },
        Rule::CloseParen => {
            reveal_strlit("R_PAREN )");
            reveal_strlit(")");
            assert("R_PAREN )"@.subrange(8, 9) =~= ")"@);
        },
        Rule::OpenBrace => {
            reveal_strlit("L_BRACE {");
            reveal_strlit("{");
            assert("L_BRACE {"@.subrange(8, 9) =~= "{"@);
        },
        Rule::CloseBrace => {
            reveal_strlit("R_BRACE }");
            reveal_strlit("}");
            assert("R_BRACE }"@.subrange(8, 9) =~= "}"@);
        },
        Rule::OpenBracket => {
            reveal_strlit("L_BRACKT [");
            reveal_strlit("[");
            assert("L_BRACKT ["@.subrange(9, 10) =~= "["@);
        },
        Rule::CloseBracket => {
            reveal_strlit("R_BRACKT ]");
            reveal_strlit("]");
            assert("R_BRACKT ]"@.subrange(9, 10) =~= "]"@);
        },
        Rule::Comma => {
            reveal_strlit("COMMA ,");
            reveal_strlit(",");
            assert("COMMA ,"@.subrange(6, 7) =~= ","@);
        },
        Rule::Semicolon => {
            reveal_strlit("SEMICOLON ;");
            reveal_strlit(";");
            assert("SEMICOLON ;"@.subrange(10, 11) =~= ";"@);
        },
        _ => {},
    }
}

/// An operator node reads as the operator its child names, and the token is
/// printed with that child's own symbol at its end: for a `>=` child the
/// token prints as `GE >=`.
pub proof fn lemma_operator_token_ends_with_symbol(t: Token, p: LexPair)
    requires
        pair_readable(p),
        p.rule == Rule::Operator,
        is_token_of(t, p),
    ensures
        t matches Token::Operator(op) && ends_with(operator_text(op), rule_symbol(p.inner@[0].rule)),
        rule_symbol(p.inner@[0].rule).len() > 0,
{
    lemma_operator_text_symbol(p.inner@[0].rule);
}

/// Operator nodes read one to one: two operator nodes whose children are of
/// different rules read as different tokens.
pub proof fn lemma_operator_tokens_distinct(t1: Token, p1: LexPair, t2: Token, p2: LexPair)
    requires
        pair_readable(p1),
        pair_readable(p2),
        p1.rule == Rule::Operator,
        p2.rule == Rule::Operator,
        is_token_of(t1, p1),
        is_token_of(t2, p2),
        p1.inner@[0].rule != p2.inner@[0].rule,
    ensures
        t1 != t2,
{
    lemma_operator_rule_inverts(p1.inner@[0].rule);
    lemma_operator_rule_inverts(p2.inner@[0].rule);
}

/// The source text of a keyword of SysY.
pub open spec fn rule_keyword(r: Rule) -> Seq<char> {
    match r {
        Rule::If => "if"@,
        Rule::Else => "else"@,
        Rule::While => "while"@,
        Rule::Break => "break"@,
        Rule::Continue => "continue"@,
        Rule::Return => "return"@,
        Rule::Int => "int"@,
        Rule::Float => "float"@,
        Rule::Void => "void"@,
        Rule::Const => "const"@,
        _ => Seq::empty(),
    }
}

/// The rule of the control-flow keyword that reads as `f`.
spec fn flow_rule(f: Flow) -> Rule {
    match f {
        Flow::If => Rule::If,
        Flow::Else => Rule::Else,
        Flow::While => Rule::While,
        Flow::Break => Rule::Break,
        Flow::Continue => Rule::Continue,
        Flow::Return => Rule::Return,
    }
}

/// The rule of the type keyword that reads as `t`.
spec fn type_rule(t: Type) -> Rule {
    match t {
        Type::Int => Rule::Int,
        Type::Float => Rule::Float,
        Type::Void => Rule::Void,
        Type::Const => Rule::Const,
    }
}

proof fn lemma_keyword_rules_invert(r: Rule)
    ensures
        flow_of(r) is Some ==> flow_rule(flow_of(r)->0) == r,
        type_of(r) is Some ==> type_rule(type_of(r)->0) == r,
{
}

proof fn lemma_flow_text_keyword(r: Rule)
    requires
        flow_of(r) is Some,
    ensures
        rule_keyword(r).len() > 0,
        ends_with(flow_text(flow_of(r)->0), rule_keyword(r)),
{
    match r {
        Rule::If => {
            reveal_strlit("IF if");
            reveal_strlit("if");
            assert("IF if"@.subrange(3, 5) =~= "if"@);
        },
        Rule::Else => {
            reveal_strlit("ELSE else");
            reveal_strlit("else");
            assert("ELSE else"@.subrange(5, 9) =~= "else"@);
        },
        Rule::While => {
            reveal_strlit("WHILE while");
            reveal_strlit("while");
            assert("WHILE while"@.subrange(6, 11) =~= "while"@);
        },
        Rule::Break => {
            reveal_strlit("BREAK break");
            reveal_strlit("break");
            assert("BREAK break"@.subrange(6, 11) =~= "break"@);
        },
        Rule::Continue => {
            reveal_strlit("CONTINUE continue");
            reveal_strlit("continue");
            assert("CONTINUE continue"@.subrange(9, 17) =~= "continue"@);
        },
        Rule::Return => {
            reveal_strlit("RETURN return");
            reveal_strlit("return");
            assert("RETURN return"@.subrange(7, 13) =~= "return"@);
        },
        _ => {},
    }
}

proof fn lemma_type_text_keyword(r: Rule)
    requires
        type_of(r) is Some,
    ensures
        rule_keyword(r).len() > 0,
        ends_with(type_text(type_of(r)->0), rule_keyword(r)),
{
    match r {
        Rule::Int => {
            reveal_strlit("INT int");
            reveal_strlit("int");
            assert("INT int"@.subrange(4, 7) =~= "int"@);
        },
        Rule::Float => {
            reveal_strlit("FLOAT float");
            reveal_strlit("float");
            assert("FLOAT float"@.subrange(6, 11) =~= "float"@);
        },
        Rule::Void => {
            reveal_strlit("VOID void");
            reveal_strlit("void");
            assert("VOID void"@.subrange(5, 9) =~= "void"@);
        },
        Rule::Const => {
            reveal_strlit("CONST const");
            reveal_strlit("const");
            assert("CONST const"@.subrange(6, 11) =~= "const"@);
        },
        _ => {},
    }
}

/// A keyword node reads as the keyword its child names and is printed with
/// that keyword's own text at its end: a `while` child prints as
/// `WHILE while`, an `int` child as `INT int`.
pub proof fn lemma_keyword_token_ends_with_keyword(t: Token, p: LexPair)
    requires
        pair_readable(p),
        p.rule == Rule::Flow || p.rule == Rule::Type,
        is_token_of(t, p),
    ensures
        rule_keyword(p.inner@[0].rule).len() > 0,
        p.rule == Rule::Flow ==> (t matches Token::Flow(f) && ends_with(flow_text(f), rule_keyword(p.inner@[0].rule))),
        p.rule == Rule::Type ==> (t matches Token::Type(k) && ends_with(type_text(k), rule_keyword(p.inner@[0].rule))),
{
    if p.rule == Rule::Flow {
        lemma_flow_text_keyword(p.inner@[0].rule);
    } else {
        lemma_type_text_keyword(p.inner@[0].rule);
    }
}

/// Keyword nodes read one to one: two keyword nodes of the same kind whose
/// children are of different rules read as different tokens.
pub proof fn lemma_keyword_tokens_distinct(t1: Token, p1: LexPair, t2: Token, p2: LexPair)
    requires
        pair_readable(p1),
        pair_readable(p2),
        p1.rule == Rule::Flow || p1.rule == Rule::Type,
        p2.rule == p1.rule,
        is_token_of(t1, p1),
        is_token_of(t2, p2),
        p1.inner@[0].rule != p2.inner@[0].rule,
    ensures
        t1 != t2,
{
    lemma_keyword_rules_invert(p1.inner@[0].rule);
    lemma_keyword_rules_invert(p2.inner@[0].rule);
}

impl Token {
    /// The token a node of the lexer's parse tree reads as.
    pub fn from(p: &LexPair) -> (r: Token)
        requires
            pair_readable(*p),
        ensures
            is_token_of(r, *p),
    {
        match p.rule {
            Rule::Operator => {
                let op = match p.inner[0].rule {
                    Rule::Plus => Operator::Plus,
                    Rule::Minus => Operator::Minus,
                    Rule::Mul => Operator::Mul,
                    Rule::Div => Operator::Div,
                    Rule::Mod => Operator::Mod,
                    Rule::Assign => Operator::Assign,
                    Rule::Equal => Operator::Equal,
                    Rule::NotEqual => Operator::NotEqual,
                    Rule::Less => Operator::Less,
                    Rule::LessEqual => Operator::LessEqual,
                    Rule::Greater => Operator::Greater,
                    Rule::GreaterEqual => Operator::GreaterEqual,
                    Rule::And => Operator::And,
                    Rule::Or => Operator::Or,
                    Rule::Not => Operator::Not,
                    Rule::OpenParen => Operator::OpenParen,
                    Rule::CloseParen => Operator::CloseParen,
                    Rule::OpenBrace => Operator::OpenBrace,
                    Rule::CloseBrace => Operator::CloseBrace,
                    Rule::OpenBracket => Operator::OpenBracket,
                    Rule::CloseBracket => Operator::CloseBracket,
                    Rule::Comma => Operator::Comma,
                    _ => Operator::Semicolon,
                };
                Token::Operator(op)
            },
            Rule::Flow => {
                let f = match p.inner[0].rule {
                    Rule::If => Flow::If,
                    Rule::Else => Flow::Else,
                    Rule::While => Flow::While,
                    Rule::Break => Flow::Break,
                    Rule::Continue => Flow::Continue,
                    _ => Flow::Return,
                };
                Token::Flow(f)
            },
            Rule::Type => {
                let t = match p.inner[0].rule {
                    Rule::Int => Type::Int,
                    Rule::Float => Type::Float,
                    Rule::Void => Type::Void,
                    _ => Type::Const,
                };
                Token::Type(t)
            },
            Rule::IntegerConst => {
                let op = &p.inner[0];
                let text = owned(op.text.as_str());
                match op.rule {
                    Rule::Hex => Token::IntegerConst(IntegerConst::Hex(text)),
                    Rule::Octal => Token::IntegerConst(IntegerConst::Octal(text)),
                    _ => Token::IntegerConst(IntegerConst::Dec(text)),
                }
            },
            Rule::ErrorSyntax => {
                let op = &p.inner[0];
                let text = owned(op.text.as_str());
                match op.rule {
                    Rule::InvalidHex => Token::ErrorSyntax(ErrorSyntax::InvalidHex(text)),
                    Rule::InvalidOctal => Token::ErrorSyntax(ErrorSyntax::InvalidOctal(text)),
                    Rule::InvalidOperator => Token::ErrorSyntax(ErrorSyntax::InvalidOperator(text)),
                    _ => Token::ErrorSyntax(ErrorSyntax::UnKnownError(text)),
                }
            },
            _ => Token::Identifier(owned(p.text.as_str())),
        }
    }
}

/// True when each token is the one its node reads as, on the node's line,
/// the end-of-input nodes left out.
pub open spec fn tokens_of_pairs(ts: Seq<(usize, Token)>, ps: Seq<LexPair>) -> bool
    decreases ps.len(),
{
    if ps.len() == 0 {
        ts.len() == 0
    } else if ps.last().rule == Rule::EOI {
        tokens_of_pairs(ts, ps.drop_last())
    } else {
        ts.len() > 0 && ts.last().0 == ps.last().line && is_token_of(ts.last().1, ps.last())
            && tokens_of_pairs(ts.drop_last(), ps.drop_last())
    }
}

/// The tokens of the nodes of a file, each with its line, in order; the
/// end-of-input node gives none.
pub fn line_tokens(pairs: &Vec<LexPair>) -> (r: Vec<(usize, Token)>)
    requires
        forall|i: int| 0 <= i < pairs@.len() ==> pair_readable(#[trigger] pairs@[i]),
    ensures
        tokens_of_pairs(r@, pairs@),
{
    let mut r: Vec<(usize, Token)> = Vec::new();
    let mut i: usize = 0;
    assert(pairs@.take(0) =~= Seq::<LexPair>::empty());
    while i < pairs.len()
        invariant
            i <= pairs@.len(),
            forall|k: int| 0 <= k < pairs@.len() ==> pair_readable(#[trigger] pairs@[k]),
            tokens_of_pairs(r@, pairs@.take(i as int)),
        decreases pairs.len() - i,
    {
        let p = &pairs[i];
        assert(pairs@.take(i + 1).drop_last() =~= pairs@.take(i as int));
        assert(pairs@.take(i + 1).last() == pairs@[i as int]);
        if p.rule != Rule::EOI {
            let t = Token::from(p);
            let ghost before = r@;
            r.push((p.line, t));
            assert(r@.drop_last() =~= before);
        }
        i = i + 1;
    }
    assert(pairs@.take(pairs@.len() as int) =~= pairs@);
    r
}

} // verus!
