//! The semantic checker: walks the parse tree of a program with a stack
//! of scopes and collects the semantic errors it finds.
use vstd::prelude::*;
use crate::text::{dec_digits, trim_text, trim_str, parse_usize, parse_usize_text, push_nat, owned};
use super::{CheckError, ErrorKind, ErrorView, SemanticError, kind_message, report_text};
use crate::riscv_codegen::register_alloc::{last_key, lemma_last_key_push};
use super::scope::{lemma_type_view, ArrayStruct, ArrayView, Func, KeyView, ScopeKey, ScopeStack, StackView, Type, TypeView, stack_ready, lookup, table_lookup, types_view, lemma_types_view};

verus! {

/// The kinds of node in the checker's parse tree.
#[derive(Clone, Copy, PartialEq, Eq, Structural, Debug)]
pub enum Rule {
    Decl,
    ConstDecl,
    VarDecl,
    FuncDef,
    FuncType,
    BType,
    VarDef,
    ConstDef,
    ArrayDims,
    InitVal,
    ConstInitVal,
    ConstExp,
    FuncFParams,
    FuncFParam,
    IntArr,
    Block,
    BlockItem,
    Stmt,
    AssignStmt,
    IfStmt,
    WhileStmt,
    ReturnStmt,
    ExpStmt,
    ContinueStmt,
    BreakStmt,
    Exp,
    Cond,
    LVal,
    PrimaryExp,
    Number,
    UnaryExp,
    CallExp,
    UnaryOpExp,
    UnaryOp,
    FuncRParams,
    MulExp,
    AddExp,
    RelExp,
    EqExp,
    LAndExp,
    LOrExp,
    Ident,
    IntConst,
    Int,
    Void,
    Const,
    If,
    Else,
    While,
    Return,
    Break,
    Continue,
    Assign,
    Semicolon,
    Comma,
    OpenParen,
    CloseParen,
    OpenBrace,
    CloseBrace,
    OpenBracket,
    CloseBracket,
    Plus,
    Minus,
    Mul,
    Div,
    Mod,
    Less,
    LessEqual,
    Greater,
    GreaterEqual,
    Equal,
    NotEqual,
    And,
    Or,
    Not,
}

/// A node of the checker's parse tree: its rule, the source text it spans,
/// the line it starts on, and its children in source order.
pub struct CheckPair {
    pub rule: Rule,
    pub text: String,
    pub line: usize,
    pub inner: Vec<CheckPair>,
}

/// What a recorded error stands for: its line as text, the error, and its
/// report once built.
pub struct ErrRecord {
    pub line_no: Seq<char>,
    pub error: Option<ErrorView>,
    pub output: Seq<char>,
}

/// What the checker's state stands for: the source, the report written so
/// far, the scopes, and the errors found, in order.
pub struct CheckerView {
    pub input: Seq<char>,
    pub output: Seq<char>,
    pub scopes: StackView,
    pub errors: Seq<ErrRecord>,
}

/// The record of an error of a kind found at a line, at the given text.
pub open spec fn found(kind: ErrorKind, line: nat, tip: Seq<char>) -> ErrRecord {
    ErrRecord {
        line_no: dec_digits(line),
        error: Some(ErrorView { kind, message: kind_message(kind), tip: Some(tip) }),
        output: Seq::empty(),
    }
}

/// The state with one more error recorded.
pub open spec fn add_error(s: CheckerView, kind: ErrorKind, line: nat, tip: Seq<char>) -> CheckerView {
    CheckerView { errors: s.errors.push(found(kind, line, tip)), ..s }
}

/// The state with a definition added to the scope of `key`.
pub open spec fn define_in(s: CheckerView, key: KeyView, name: Seq<char>, t: TypeView) -> CheckerView {
    CheckerView {
        scopes: StackView {
            stack: s.scopes.stack,
            scopes: s.scopes.scopes.insert(key, s.scopes.scopes[key].push((name, t))),
        },
        ..s
    }
}

/// The state with a definition added to the innermost scope, or `None`
/// when there is no innermost scope with a symbol table.
pub open spec fn define_current(s: CheckerView, name: Seq<char>, t: TypeView) -> Option<CheckerView> {
    if s.scopes.stack.len() == 0 || !s.scopes.scopes.contains_key(s.scopes.stack.last()) {
        None
    } else {
        Some(define_in(s, s.scopes.stack.last(), name, t))
    }
}

/// The state with a fresh innermost scope for `key`.
pub open spec fn push_scope(s: CheckerView, key: KeyView) -> CheckerView {
    CheckerView {
        scopes: StackView { stack: s.scopes.stack.push(key), scopes: s.scopes.scopes.insert(key, Seq::empty()) },
        ..s
    }
}

/// The state with the innermost scope closed, or `None` when there is none.
pub open spec fn pop_scope(s: CheckerView) -> Option<CheckerView> {
    if s.scopes.stack.len() == 0 {
        None
    } else {
        Some(CheckerView {
            scopes: StackView {
                stack: s.scopes.stack.drop_last(),
                scopes: s.scopes.scopes.remove(s.scopes.stack.last()),
            },
            ..s
        })
    }
}

/// The type of `name` in the innermost active scope that defines it;
/// `None` when some active scope has no symbol table, where looking up
/// fails.
pub open spec fn type_of(s: CheckerView, name: Seq<char>) -> Option<Option<TypeView>> {
    if stack_ready(s.scopes) { Some(lookup(s.scopes, name)) } else { None }
}

/// Whether `name` is already defined in the innermost scope, recording a
/// redefinition error (of a function for `op == 1`, of a variable for
/// `op == 0`) when it is; `None` when there is no innermost scope.
pub open spec fn same_ident(s: CheckerView, name: Seq<char>, line: nat, op: usize) -> Option<(CheckerView, bool)> {
    if s.scopes.stack.len() == 0 {
        None
    } else {
        let k = s.scopes.stack.last();
        if s.scopes.scopes.contains_key(k) && table_lookup(s.scopes.scopes[k], name) is Some {
            if op == 1 {
                Some((add_error(s, ErrorKind::RedefineFunc, line, name), true))
            } else if op == 0 {
                Some((add_error(s, ErrorKind::RedefineVal, line, name), true))
            } else {
                Some((s, false))
            }
        } else {
            Some((s, false))
        }
    }
}

/// Whether `name` is undefined in every active scope, recording an error
/// (of a function for `op == 1`, of a variable for `op == 0`) when it is.
pub open spec fn undefined(s: CheckerView, name: Seq<char>, line: nat, op: usize) -> Option<(CheckerView, bool)> {
    if !stack_ready(s.scopes) {
        None
    } else if lookup(s.scopes, name) is None {
        if op == 1 {
            Some((add_error(s, ErrorKind::UndefinedFunc, line, name), true))
        } else if op == 0 {
            Some((add_error(s, ErrorKind::UndefinedVal, line, name), true))
        } else {
            Some((s, false))
        }
    } else {
        Some((s, false))
    }
}

/// The number of dimensions of an array type (zero for any other type).
pub open spec fn dims(t: TypeView) -> nat {
    match t {
        TypeView::Array(a) => a.array_dims,
        _ => 0,
    }
}

/// True when two types are of the same sort.
pub open spec fn same_sort(a: TypeView, b: TypeView) -> bool {
    (a is Int && b is Int) || (a is Array && b is Array) || (a is Func && b is Func) || (a is Void && b is Void)
}

/// An array type of elements of type `item` whose dimensions, numbered
/// from zero in order, have the given sizes.
pub open spec fn array_of(item: TypeView, sizes: Seq<nat>) -> TypeView {
    TypeView::Array(ArrayView {
        item: Box::new(item),
        dim_nos: Seq::new(sizes.len(), |i: int| i as usize),
        tpl_size: Seq::new(sizes.len(), |i: int| (i as usize, sizes[i] as usize)),
        array_dims: sizes.len(),
        crr_no: sizes.len(),
    })
}

/// `n` sizes of zero.
pub open spec fn zero_sizes(n: nat) -> Seq<nat> {
    Seq::new(n, |_i: int| 0nat)
}

/// The type of an initializer with `n` values: `int` for one value, else
/// an `int` array of `n` dimensions of size zero.
pub open spec fn init_type(n: nat) -> TypeView {
    if n == 1 { TypeView::Int } else { array_of(TypeView::Int, zero_sizes(n)) }
}

/// The errors of an assignment of a value of type `r` to a place of type `l`.
pub open spec fn assign_rule(s: CheckerView, l: TypeView, r: TypeView, line: nat, text: Seq<char>) -> CheckerView {
    if l is Array && r is Array {
        if dims(l) != dims(r) { add_error(s, ErrorKind::TypeMismatch, line, text) } else { s }
    } else if l is Func {
        add_error(s, ErrorKind::UnexpectedFuncAssign, line, text)
    } else if r is Func {
        add_error(s, ErrorKind::TypeMismatch, line, text)
    } else if l is Int && !(r is Int) {
        add_error(s, ErrorKind::TypeMismatch, line, text)
    } else if l is Array && r is Int && dims(l) != 0 {
        add_error(s, ErrorKind::TypeMismatch, line, text)
    } else {
        s
    }
}

/// The type of a binary arithmetic operation on operands of types `l` and
/// `r`: `int` for two integers; an error for an array or function operand.
pub open spec fn binary_rule(s: CheckerView, l: TypeView, r: TypeView, line: nat, text: Seq<char>)
    -> (CheckerView, Option<TypeView>)
{
    if l is Array || l is Func {
        (add_error(s, ErrorKind::TypeMismatchOp, line, text), None)
    } else if r is Func || r is Array {
        (add_error(s, ErrorKind::TypeMismatchOp, line, text), None)
    } else if l is Int && r is Int {
        (s, Some(TypeView::Int))
    } else {
        (s, None)
    }
}

/// True when each argument fits its parameter: both `int`, or both arrays
/// of as many dimensions.
pub open spec fn args_fit(args: Seq<TypeView>, params: Seq<TypeView>) -> bool {
    forall|i: int| 0 <= i < params.len() ==>
        ((#[trigger] args[i] is Int && params[i] is Int)
            || (args[i] is Array && params[i] is Array && dims(args[i]) == dims(params[i])))
}

/// The sizes of the dimensions of an array definition, one for each
/// constant expression; `None` when one is not a number.
pub open spec fn const_dims(nodes: Seq<CheckPair>) -> Option<Seq<nat>>
    decreases nodes.len(),
{
    if nodes.len() == 0 {
        Some(Seq::empty())
    } else {
        match const_dims(nodes.drop_last()) {
            None => None,
            Some(ds) => if nodes.last().rule == Rule::ConstExp {
                match parse_usize_text(trim_text(nodes.last().text@)) {
                    None => None,
                    Some(d) => Some(ds.push(d)),
                }
            } else {
                Some(ds)
            },
        }
    }
}

/// The sizes of the extra dimensions of an array parameter, one for each
/// sized dimension; `None` when one has no size or its size is not a number.
pub open spec fn param_dims(nodes: Seq<CheckPair>) -> Option<Seq<nat>>
    decreases nodes.len(),
{
    if nodes.len() == 0 {
        Some(Seq::empty())
    } else {
        match param_dims(nodes.drop_last()) {
            None => None,
            Some(ds) => if nodes.last().rule == Rule::IntArr {
                if nodes.last().inner@.len() < 2 {
                    None
                } else {
                    match parse_usize_text(nodes.last().inner@[1].text@) {
                        None => None,
                        Some(d) => Some(ds.push(d)),
                    }
                }
            } else {
                Some(ds)
            },
        }
    }
}

/// The return type of the function whose body is the innermost scope, or
/// `None` when the innermost scope is not a function's body or the function
/// cannot be found.
pub open spec fn current_function(s: CheckerView) -> Option<TypeView> {
    if s.scopes.stack.len() == 0 || !(s.scopes.stack.last() is Ident) {
        None
    } else {
        match type_of(s, s.scopes.stack.last()->Ident_0) {
            Some(Some(t)) => Some(t),
            _ => None,
        }
    }
}

/// The check of a returned value of type `t`: an error when the current
/// function returns a type of another sort.
pub open spec fn return_rule(s: CheckerView, t: TypeView, line: nat, text: Seq<char>) -> Option<CheckerView> {
    match current_function(s) {
        None => None,
        Some(TypeView::Func(_, ret)) => if !same_sort(*ret, t) {
            Some(add_error(s, ErrorKind::ReturnMismatch, line, text))
        } else {
            Some(s)
        },
        Some(_) => Some(s),
    }
}


/// True when some type is an array or a function, which a logical or
/// relational operator cannot take.
pub open spec fn any_bad(ts: Seq<TypeView>) -> bool {
    exists|i: int| 0 <= i < ts.len() && (#[trigger] ts[i] is Array || ts[i] is Func)
}

/// The operands of the logical and relational levels: `||` joins `&&`
/// expressions, `&&` joins equalities, `==` joins relations, and a relation
/// joins additive expressions.
pub open spec fn operand_rule(level: nat) -> Rule {
    if level == 0 {
        Rule::LAndExp
    } else if level == 1 {
        Rule::EqExp
    } else if level == 2 {
        Rule::RelExp
    } else {
        Rule::AddExp
    }
}

/// The checker's state after a top-level declaration or definition.
pub open spec fn chk_declaration(s: CheckerView, p: CheckPair) -> Option<CheckerView>
    decreases p, 5int,
{
    if p.rule == Rule::Decl {
        chk_decls(s, p.inner@)
    } else if p.rule == Rule::ConstDecl || p.rule == Rule::VarDecl {
        chk_var_decl(s, p)
    } else if p.rule == Rule::FuncDef {
        chk_func_def(s, p)
    } else {
        Some(s)
    }
}

/// The state after each declaration of a list in turn.
pub open spec fn chk_decls(s: CheckerView, nodes: Seq<CheckPair>) -> Option<CheckerView>
    decreases nodes, 0int,
{
    if nodes.len() == 0 {
        Some(s)
    } else {
        match chk_decls(s, nodes.drop_last()) {
            None => None,
            Some(s1) => chk_declaration(s1, nodes.last()),
        }
    }
}

/// The state after a declaration of variables: each variable definition in turn.
pub open spec fn chk_var_decl(s: CheckerView, p: CheckPair) -> Option<CheckerView>
    decreases p, 4int,
{
    chk_var_defs(s, p.inner@)
}

/// The state after the variable definitions of a list in turn.
pub open spec fn chk_var_defs(s: CheckerView, nodes: Seq<CheckPair>) -> Option<CheckerView>
    decreases nodes, 0int,
{
    if nodes.len() == 0 {
        Some(s)
    } else {
        match chk_var_defs(s, nodes.drop_last()) {
            None => None,
            Some(s1) => if nodes.last().rule == Rule::VarDef { chk_def(s1, nodes.last()) } else { Some(s1) },
        }
    }
}

/// The state after a function definition: a redefinition is reported and
/// nothing more done; else the function is defined in the current scope,
/// and its parameters and body are checked in a scope of its own.
pub open spec fn chk_func_def(s: CheckerView, p: CheckPair) -> Option<CheckerView>
    decreases p, 4int,
{
    let k = p.inner@;
    if k.len() < 2 || k[0].inner@.len() == 0 {
        None
    } else {
        let name = k[1].text@;
        match same_ident(s, name, k[1].line as nat, 1) {
            None => None,
            Some((s1, true)) => Some(s1),
            Some((s1, false)) => {
                let ret = if k[0].inner@[0].rule == Rule::Int { TypeView::Int } else { TypeView::Void };
                match define_current(s1, name, TypeView::Func(Seq::empty(), Box::new(ret))) {
                    None => None,
                    Some(s2) => {
                        let s3 = push_scope(s2, KeyView::Ident(name));
                        if k.len() < 4 {
                            None
                        } else {
                            let has_params = k[3].rule == Rule::FuncFParams;
                            let body = if has_params { 5int } else { 4int };
                            let s4 = if has_params { chk_func_params(s3, k[3]) } else { Some(s3) };
                            match s4 {
                                None => None,
                                Some(s4) => if k.len() <= body {
                                    None
                                } else {
                                    match chk_items(s4, k[body].inner@, true) {
                                        None => None,
                                        Some(s5) => pop_scope(s5),
                                    }
                                },
                            }
                        }
                    },
                }
            },
        }
    }
}

/// The state after an item of a block: a declaration or a statement, or
/// the items inside it.
pub open spec fn chk_block_item(s: CheckerView, p: CheckPair) -> Option<CheckerView>
    decreases p, 6int,
{
    if p.rule == Rule::Decl {
        chk_declaration(s, p)
    } else if p.rule == Rule::Stmt {
        chk_stmt(s, p)
    } else if p.rule == Rule::BlockItem {
        chk_items(s, p.inner@, false)
    } else {
        Some(s)
    }
}

/// The state after the items of a list in turn; with `only_items`, the
/// nodes that are not block items are passed over.
pub open spec fn chk_items(s: CheckerView, nodes: Seq<CheckPair>, only_items: bool) -> Option<CheckerView>
    decreases nodes, 0int,
{
    if nodes.len() == 0 {
        Some(s)
    } else {
        match chk_items(s, nodes.drop_last(), only_items) {
            None => None,
            Some(s1) => if !only_items || nodes.last().rule == Rule::BlockItem {
                chk_block_item(s1, nodes.last())
            } else {
                Some(s1)
            },
        }
    }
}

/// The state after a statement: each of its parts in turn.
pub open spec fn chk_stmt(s: CheckerView, p: CheckPair) -> Option<CheckerView>
    decreases p, 5int,
{
    chk_stmt_parts(s, p.inner@)
}

/// The state after the parts of a statement in turn.
pub open spec fn chk_stmt_parts(s: CheckerView, nodes: Seq<CheckPair>) -> Option<CheckerView>
    decreases nodes, 0int,
{
    if nodes.len() == 0 {
        Some(s)
    } else {
        match chk_stmt_parts(s, nodes.drop_last()) {
            None => None,
            Some(s1) => chk_stmt_part(s1, nodes.last()),
        }
    }
}

/// The state after one part of a statement: an assignment, a conditional,
/// a loop, a return, an expression, or a block in a scope of its own.
pub open spec fn chk_stmt_part(s: CheckerView, c: CheckPair) -> Option<CheckerView>
    decreases c, 4int,
{
    if c.rule == Rule::AssignStmt {
        chk_assign(s, c)
    } else if c.rule == Rule::IfStmt {
        chk_if(s, c)
    } else if c.rule == Rule::WhileStmt {
        chk_while(s, c)
    } else if c.rule == Rule::ReturnStmt {
        chk_return(s, c)
    } else if c.rule == Rule::ExpStmt {
        if c.inner@.len() == 0 {
            None
        } else {
            match chk_exp(s, c.inner@[0]) {
                None => None,
                Some((s1, _)) => Some(s1),
            }
        }
    } else if c.rule == Rule::Block {
        match chk_items(push_scope(s, KeyView::InnerBlock), c.inner@, true) {
            None => None,
            Some(s1) => pop_scope(s1),
        }
    } else {
        Some(s)
    }
}

/// The state after an assignment: both sides are checked, then their types
/// compared (see `assign_rule`).
pub open spec fn chk_assign(s: CheckerView, p: CheckPair) -> Option<CheckerView>
    decreases p, 3int,
{
    let k = p.inner@;
    if k.len() < 3 {
        None
    } else {
        match chk_lval(s, k[0]) {
            None => None,
            Some((s1, l)) => match chk_exp(s1, k[2]) {
                None => None,
                Some((s2, r)) => if l is None || r is None {
                    Some(s2)
                } else {
                    Some(assign_rule(s2, l->0, r->0, p.line as nat, p.text@))
                },
            },
        }
    }
}

/// The state and type after an expression.
pub open spec fn chk_exp(s: CheckerView, p: CheckPair) -> Option<(CheckerView, Option<TypeView>)>
    decreases p, 3int,
{
    if p.inner@.len() == 0 { None } else { chk_add(s, p.inner@[0]) }
}

/// The state and type after an additive expression (see `binary_rule`).
pub open spec fn chk_add(s: CheckerView, p: CheckPair) -> Option<(CheckerView, Option<TypeView>)>
    decreases p, 3int,
{
    let k = p.inner@;
    if k.len() == 0 {
        Some((s, None))
    } else if k.len() == 1 {
        chk_mul(s, k[0])
    } else if k.len() < 3 {
        None
    } else {
        match chk_mul(s, k[0]) {
            None => None,
            Some((s1, None)) => Some((s1, None)),
            Some((s1, Some(l))) => match chk_mul(s1, k[2]) {
                None => None,
                Some((s2, None)) => Some((s2, None)),
                Some((s2, Some(r))) => Some(binary_rule(s2, l, r, p.line as nat, p.text@)),
            },
        }
    }
}

/// The state and type after a multiplicative expression (see `binary_rule`).
pub open spec fn chk_mul(s: CheckerView, p: CheckPair) -> Option<(CheckerView, Option<TypeView>)>
    decreases p, 3int,
{
    let k = p.inner@;
    if k.len() == 0 {
        None
    } else if k.len() == 1 {
        chk_unary(s, k[0])
    } else if k.len() < 3 {
        None
    } else {
        match chk_unary(s, k[0]) {
            None => None,
            Some((s1, None)) => Some((s1, None)),
            Some((s1, Some(l))) => match chk_unary(s1, k[2]) {
                None => None,
                Some((s2, None)) => Some((s2, None)),
                Some((s2, Some(r))) => Some(binary_rule(s2, l, r, p.line as nat, p.text@)),
            },
        }
    }
}

/// A multiplicative expression `l op r` whose operands both type: when
/// either operand is an array or a function, exactly one `TypeMismatchOp`
/// error is recorded, at the expression's line with its text, and the
/// expression has no type; when both are `int`, nothing is recorded and the
/// expression is an `int`.
pub proof fn lemma_mul_operand_types(s: CheckerView, p: CheckPair)
    requires
        p.inner@.len() >= 3,
        chk_unary(s, p.inner@[0]) matches Some((s1, Some(_))) && chk_unary(s1, p.inner@[2]) matches Some((_, Some(_))),
    ensures
        ({
            let (s1, lt) = chk_unary(s, p.inner@[0])->0;
            let (s2, rt) = chk_unary(s1, p.inner@[2])->0;
            let l = lt->0;
            let r = rt->0;
            &&& (l is Array || l is Func || r is Array || r is Func) ==> chk_mul(s, p) == Some((
                CheckerView {
                    errors: s2.errors.push(ErrRecord {
                        line_no: dec_digits(p.line as nat),
                        error: Some(ErrorView {
                            kind: ErrorKind::TypeMismatchOp,
                            message: kind_message(ErrorKind::TypeMismatchOp),
                            tip: Some(p.text@),
                        }),
                        output: Seq::empty(),
                    }),
                    ..s2
                },
                None::<TypeView>,
            ))
            &&& (l is Int && r is Int) ==> chk_mul(s, p) == Some((s2, Some(TypeView::Int)))
        }),
{
}

/// An additive expression `l op r` whose operands both type follows the
/// same rule: one `TypeMismatchOp` error at its line with its text and no
/// type for an array or function operand, `int` and nothing recorded for
/// two integers.
pub proof fn lemma_add_operand_types(s: CheckerView, p: CheckPair)
    requires
        p.inner@.len() >= 3,
        chk_mul(s, p.inner@[0]) matches Some((s1, Some(_))) && chk_mul(s1, p.inner@[2]) matches Some((_, Some(_))),
    ensures
        ({
            let (s1, lt) = chk_mul(s, p.inner@[0])->0;
            let (s2, rt) = chk_mul(s1, p.inner@[2])->0;
            let l = lt->0;
            let r = rt->0;
            &&& (l is Array || l is Func || r is Array || r is Func) ==> chk_add(s, p) == Some((
                CheckerView {
                    errors: s2.errors.push(ErrRecord {
                        line_no: dec_digits(p.line as nat),
                        error: Some(ErrorView {
                            kind: ErrorKind::TypeMismatchOp,
                            message: kind_message(ErrorKind::TypeMismatchOp),
                            tip: Some(p.text@),
                        }),
                        output: Seq::empty(),
                    }),
                    ..s2
                },
                None::<TypeView>,
            ))
            &&& (l is Int && r is Int) ==> chk_add(s, p) == Some((s2, Some(TypeView::Int)))
        }),
{
}

/// An operator applied to an operand that types (`-x`, `!x`): an integer
/// operand gives `int` with nothing recorded; any other operand (an array, a
/// function, `void`) records exactly one `TypeMismatchOp` error, at the
/// expression's line with its text, and gives no type.
pub proof fn lemma_unary_operand_type(s: CheckerView, p: CheckPair)
    requires
        p.inner@.len() >= 2,
        chk_unary(s, p.inner@[1]) matches Some((_, Some(_))),
    ensures
        ({
            let (s1, ot) = chk_unary(s, p.inner@[1])->0;
            let t = ot->0;
            &&& t is Int ==> chk_unary_op(s, p) == Some((s1, Some(TypeView::Int)))
            &&& !(t is Int) ==> chk_unary_op(s, p) == Some((
                CheckerView {
                    errors: s1.errors.push(ErrRecord {
                        line_no: dec_digits(p.line as nat),
                        error: Some(ErrorView {
                            kind: ErrorKind::TypeMismatchOp,
                            message: kind_message(ErrorKind::TypeMismatchOp),
                            tip: Some(p.text@),
                        }),
                        output: Seq::empty(),
                    }),
                    ..s1
                },
                None::<TypeView>,
            ))
        }),
{
}

/// The state and type after a unary expression: a call, a primary
/// expression or an operator applied to a unary expression.
pub open spec fn chk_unary(s: CheckerView, p: CheckPair) -> Option<(CheckerView, Option<TypeView>)>
    decreases p, 3int,
{
    let k = p.inner@;
    if k.len() == 0 {
        None
    } else if k[0].rule == Rule::CallExp {
        chk_call(s, k[0])
    } else if k[0].rule == Rule::PrimaryExp {
        chk_primary(s, k[0])
    } else if k[0].rule == Rule::UnaryOpExp {
        chk_unary_op(s, k[0])
    } else {
        Some((s, None))
    }
}

/// The state and type after an operator applied to a unary expression:
/// `int` for an integer operand, else an error.
pub open spec fn chk_unary_op(s: CheckerView, p: CheckPair) -> Option<(CheckerView, Option<TypeView>)>
    decreases p, 3int,
{
    let k = p.inner@;
    if k.len() < 2 {
        Some((s, None))
    } else {
        match chk_unary(s, k[1]) {
            None => None,
            Some((s1, None)) => Some((s1, None)),
            Some((s1, Some(t))) => if t is Int {
                Some((s1, Some(TypeView::Int)))
            } else {
                Some((add_error(s1, ErrorKind::TypeMismatchOp, p.line as nat, p.text@), None))
            },
        }
    }
}

/// The state and type after a function call: the function must be defined
/// and be a function, and the arguments must fit its parameters in number
/// and sort; the call has the function's return type.
pub open spec fn chk_call(s: CheckerView, p: CheckPair) -> Option<(CheckerView, Option<TypeView>)>
    decreases p, 3int,
{
    let k = p.inner@;
    let line = p.line as nat;
    if k.len() == 0 {
        Some((s, None))
    } else {
        let name = k[0].text@;
        match undefined(s, name, line, 1) {
            None => None,
            Some((s1, true)) => Some((s1, None)),
            Some((s1, false)) => if k.len() < 3 {
                Some((s1, None))
            } else {
                let with_args = k[2].rule == Rule::FuncRParams;
                let checked = if with_args { chk_args(s1, k[2].inner@) } else { Some((s1, Seq::empty())) };
                match checked {
                    None => None,
                    Some((s2, args)) => match type_of(s2, name) {
                        None => None,
                        Some(None) => Some((s2, None)),
                        Some(Some(TypeView::Func(params, ret))) => if args.len() != params.len() || !args_fit(args, params) {
                            Some((add_error(s2, ErrorKind::Inappropriate, line, name), None))
                        } else {
                            Some((s2, Some(*ret)))
                        },
                        Some(Some(_)) => Some((add_error(s2, ErrorKind::UnlegalFuncCall, line, name), None)),
                    },
                }
            },
        }
    }
}

/// The state and types after the arguments of a call; an argument without
/// a type is left out.
pub open spec fn chk_args(s: CheckerView, nodes: Seq<CheckPair>) -> Option<(CheckerView, Seq<TypeView>)>
    decreases nodes, 0int,
{
    if nodes.len() == 0 {
        Some((s, Seq::empty()))
    } else {
        match chk_args(s, nodes.drop_last()) {
            None => None,
            Some((s1, ts)) => if nodes.last().rule == Rule::Exp {
                match chk_exp(s1, nodes.last()) {
                    None => None,
                    Some((s2, None)) => Some((s2, ts)),
                    Some((s2, Some(t))) => Some((s2, ts.push(t))),
                }
            } else {
                Some((s1, ts))
            },
        }
    }
}

/// The state and type after a primary expression: a place, a number, or a
/// parenthesized expression.
pub open spec fn chk_primary(s: CheckerView, p: CheckPair) -> Option<(CheckerView, Option<TypeView>)>
    decreases p, 3int,
{
    let k = p.inner@;
    if k.len() == 0 {
        None
    } else if k[0].rule == Rule::LVal {
        chk_lval(s, k[0])
    } else if k[0].rule == Rule::Number {
        Some((s, Some(TypeView::Int)))
    } else if k.len() < 2 {
        None
    } else {
        chk_exp(s, k[1])
    }
}

/// The state and type after a place: the name must be defined; indexing
/// needs an array and takes one dimension off for each index, down to
/// `int`.
pub open spec fn chk_lval(s: CheckerView, p: CheckPair) -> Option<(CheckerView, Option<TypeView>)>
    decreases p, 3int,
{
    let k = p.inner@;
    let line = p.line as nat;
    if k.len() == 0 {
        None
    } else {
        let name = k[0].text@;
        match undefined(s, name, line, 0) {
            None => None,
            Some((s1, true)) => Some((s1, None)),
            Some((s1, false)) => match type_of(s1, name) {
                None => None,
                Some(v) => if k.len() == 1 {
                    Some((s1, v))
                } else {
                    match v {
                        None => Some((s1, None)),
                        Some(t) => if !(t is Array) {
                            Some((add_error(s1, ErrorKind::NotArrayAssign, line, name), None))
                        } else {
                            match chk_indices(s1, k.subrange(2, k.len() as int)) {
                                None => None,
                                Some((s2, n)) => if dims(t) < n {
                                    None
                                } else if dims(t) == n {
                                    Some((s2, Some(TypeView::Int)))
                                } else {
                                    Some((s2, Some(array_of(*t->Array_0.item, zero_sizes((dims(t) - n) as nat)))))
                                },
                            }
                        },
                    }
                },
            },
        }
    }
}

/// The state and number of indices after the indices of a place; an index
/// without a type cannot be handled.
pub open spec fn chk_indices(s: CheckerView, nodes: Seq<CheckPair>) -> Option<(CheckerView, nat)>
    decreases nodes, 0int,
{
    if nodes.len() == 0 {
        Some((s, 0))
    } else {
        match chk_indices(s, nodes.drop_last()) {
            None => None,
            Some((s1, n)) => if nodes.last().rule == Rule::Exp {
                match chk_exp(s1, nodes.last()) {
                    Some((s2, Some(_))) => Some((s2, n + 1)),
                    _ => None,
                }
            } else {
                Some((s1, n))
            },
        }
    }
}

/// The state after a conditional statement: its condition, its branch, and
/// its other branch when there is one.
pub open spec fn chk_if(s: CheckerView, p: CheckPair) -> Option<CheckerView>
    decreases p, 3int,
{
    let k = p.inner@;
    if k.len() < 3 {
        None
    } else {
        match chk_cond(s, k[2]) {
            None => None,
            Some(s1) => if k.len() < 5 {
                None
            } else {
                match chk_stmt(s1, k[4]) {
                    None => None,
                    Some(s2) => if k.len() == 5 {
                        Some(s2)
                    } else if k.len() < 7 {
                        None
                    } else {
                        chk_stmt(s2, k[6])
                    },
                }
            },
        }
    }
}

/// The state after a loop: its condition, then its body.
pub open spec fn chk_while(s: CheckerView, p: CheckPair) -> Option<CheckerView>
    decreases p, 3int,
{
    let k = p.inner@;
    if k.len() < 3 {
        None
    } else {
        match chk_cond(s, k[2]) {
            None => None,
            Some(s1) => if k.len() < 5 { None } else { chk_stmt(s1, k[4]) },
        }
    }
}

/// The state after a condition.
pub open spec fn chk_cond(s: CheckerView, p: CheckPair) -> Option<CheckerView>
    decreases p, 3int,
{
    if p.inner@.len() == 0 {
        None
    } else {
        match chk_logic(s, p.inner@[0], 0) {
            None => None,
            Some((s1, _)) => Some(s1),
        }
    }
}

/// The state and type after a logical or relational expression at `level`
/// (see `operand_rule`): its operands in turn, stopping at one without a
/// type; an array or function operand is an error. Such an expression is
/// an `int`, but for the outermost level, which gives no type.
pub open spec fn chk_logic(s: CheckerView, p: CheckPair, level: nat) -> Option<(CheckerView, Option<TypeView>)>
    decreases p, 3int,
{
    match chk_operands(s, p.inner@, level) {
        None => None,
        Some((s1, None)) => Some((s1, None)),
        Some((s1, Some(ts))) => if any_bad(ts) {
            Some((add_error(s1, ErrorKind::TypeMismatchOp, p.line as nat, p.text@), None))
        } else {
            Some((s1, if level == 0 { None } else { Some(TypeView::Int) }))
        },
    }
}

/// The state and types after the operands of a logical or relational
/// expression at `level`; `None` for the types when an operand has none,
/// where the rest are not looked at.
pub open spec fn chk_operands(s: CheckerView, nodes: Seq<CheckPair>, level: nat)
    -> Option<(CheckerView, Option<Seq<TypeView>>)>
    decreases nodes, 0int,
{
    if nodes.len() == 0 {
        Some((s, Some(Seq::empty())))
    } else {
        match chk_operands(s, nodes.drop_last(), level) {
            None => None,
            Some((s1, None)) => Some((s1, None)),
            Some((s1, Some(ts))) => {
                let x = nodes.last();
                if x.rule != operand_rule(level) {
                    Some((s1, Some(ts)))
                } else {
                    let r = if level < 3 { chk_logic(s1, x, level + 1) } else { chk_add(s1, x) };
                    match r {
                        None => None,
                        Some((s2, None)) => Some((s2, None)),
                        Some((s2, Some(t))) => Some((s2, Some(ts.push(t)))),
                    }
                }
            },
        }
    }
}

/// The state after a return statement: the returned value, or none, must
/// be of the sort the current function returns.
pub open spec fn chk_return(s: CheckerView, p: CheckPair) -> Option<CheckerView>
    decreases p, 3int,
{
    let k = p.inner@;
    if k.len() < 2 {
        None
    } else if k[1].rule == Rule::Exp {
        match chk_exp(s, k[1]) {
            None => None,
            Some((s1, None)) => Some(s1),
            Some((s1, Some(t))) => return_rule(s1, t, p.line as nat, p.text@),
        }
    } else {
        return_rule(s, TypeView::Void, p.line as nat, p.text@)
    }
}

/// The state after the parameters of a function.
pub open spec fn chk_func_params(s: CheckerView, p: CheckPair) -> Option<CheckerView>
    decreases p, 3int,
{
    chk_params(s, p.inner@)
}

/// The state after the parameters of a list in turn.
pub open spec fn chk_params(s: CheckerView, nodes: Seq<CheckPair>) -> Option<CheckerView>
    decreases nodes, 0int,
{
    if nodes.len() == 0 {
        Some(s)
    } else {
        match chk_params(s, nodes.drop_last()) {
            None => None,
            Some(s1) => if nodes.last().rule == Rule::FuncFParam { chk_func_param(s1, nodes.last()) } else { Some(s1) },
        }
    }
}

/// The state after a parameter: a redefinition is reported; else the
/// parameter is defined in the function's scope and added to the
/// function's parameters in the global scope.
pub open spec fn chk_func_param(s: CheckerView, p: CheckPair) -> Option<CheckerView>
    decreases p, 3int,
{
    let k = p.inner@;
    if k.len() < 2 {
        None
    } else {
        let name = k[1].text@;
        match same_ident(s, name, k[1].line as nat, 0) {
            None => None,
            Some((s1, true)) => Some(s1),
            Some((s1, false)) => {
                let t = if k.len() > 2 {
                    match param_dims(k.subrange(3, k.len() as int)) {
                        None => None,
                        Some(ds) => Some(array_of(TypeView::Int, seq![0nat] + ds)),
                    }
                } else {
                    Some(TypeView::Int)
                };
                match t {
                    None => None,
                    Some(t) => match define_current(s1, name, t) {
                        None => None,
                        Some(s2) => match current_function(s2) {
                            None => None,
                            Some(TypeView::Func(params, ret)) => if !s2.scopes.scopes.contains_key(KeyView::Global) {
                                None
                            } else {
                                Some(define_in(s2, KeyView::Global, s2.scopes.stack.last()->Ident_0,
                                    TypeView::Func(params.push(t), ret)))
                            },
                            Some(_) => Some(s2),
                        },
                    },
                }
            },
        }
    }
}

/// The state after a variable definition: a redefinition is reported; an
/// array is defined with its dimensions once its initializer, if any, is
/// checked to be a list; a scalar with an initializer is defined when the
/// initializer is an `int`; a scalar without one is defined as `int`.
pub open spec fn chk_def(s: CheckerView, p: CheckPair) -> Option<CheckerView>
    decreases p, 3int,
{
    let k = p.inner@;
    if k.len() == 0 {
        None
    } else {
        let name = k[0].text@;
        let line = k[0].line as nat;
        match same_ident(s, name, line, 0) {
            None => None,
            Some((s1, true)) => Some(s1),
            Some((s1, false)) => if k.len() == 1 {
                define_current(s1, name, TypeView::Int)
            } else if k[1].rule == Rule::ArrayDims {
                match const_dims(k[1].inner@) {
                    None => None,
                    Some(ds) => {
                        let arr = array_of(TypeView::Int, ds);
                        if k.len() > 3 {
                            match chk_init(s1, k[3]) {
                                None => None,
                                Some((s2, None)) => None,
                                Some((s2, Some(t))) => if !(t is Array) {
                                    Some(add_error(s2, ErrorKind::TypeMismatchOp, line, name))
                                } else {
                                    define_current(s2, name, arr)
                                },
                            }
                        } else {
                            define_current(s1, name, arr)
                        }
                    },
                }
            } else if k.len() > 2 {
                match chk_init(s1, k[2]) {
                    None => None,
                    Some((s2, None)) => Some(s2),
                    Some((s2, Some(t))) => if !(t is Int) {
                        Some(add_error(s2, ErrorKind::TypeMismatchOp, line, name))
                    } else {
                        define_current(s2, name, TypeView::Int)
                    },
                }
            } else {
                Some(s1)
            },
        }
    }
}

/// The state and type after an initializer: its values, nested lists
/// flattened, are checked in order; one value gives `int`, any other
/// number an array of that many dimensions; a value without a type gives
/// no type.
pub open spec fn chk_init(s: CheckerView, p: CheckPair) -> Option<(CheckerView, Option<TypeView>)>
    decreases p, 3int,
{
    if p.rule == Rule::InitVal || p.rule == Rule::ConstInitVal {
        match chk_init_vals(s, p.inner@, p.rule == Rule::ConstInitVal) {
            None => None,
            Some((s1, None)) => Some((s1, None)),
            Some((s1, Some(n))) => Some((s1, Some(init_type(n)))),
        }
    } else {
        Some((s, None))
    }
}

/// The state and number of values after the values of an initializer list
/// (of a constant one with `konst`), nested lists flattened; `None` for
/// the number when a value has no type, where the rest are not looked at.
pub open spec fn chk_init_vals(s: CheckerView, nodes: Seq<CheckPair>, konst: bool)
    -> Option<(CheckerView, Option<nat>)>
    decreases nodes, 0int,
{
    if nodes.len() == 0 {
        Some((s, Some(0)))
    } else {
        match chk_init_vals(s, nodes.drop_last(), konst) {
            None => None,
            Some((s1, None)) => Some((s1, None)),
            Some((s1, Some(n))) => {
                let x = nodes.last();
                let nested = if konst { Rule::ConstInitVal } else { Rule::InitVal };
                let value = if konst { Rule::ConstExp } else { Rule::Exp };
                if x.rule == nested {
                    match chk_init_vals(s1, x.inner@, konst) {
                        None => None,
                        Some((s2, None)) => Some((s2, None)),
                        Some((s2, Some(m))) => Some((s2, Some(n + m))),
                    }
                } else if x.rule == value {
                    let r = if konst {
                        if x.inner@.len() == 0 { None } else { chk_add(s1, x.inner@[0]) }
                    } else {
                        chk_exp(s1, x)
                    };
                    match r {
                        None => None,
                        Some((s2, None)) => Some((s2, None)),
                        Some((s2, Some(_))) => Some((s2, Some(n + 1))),
                    }
                } else {
                    Some((s1, Some(n)))
                }
            },
        }
    }
}

/// The state of the checker over one program: the source, the report
/// written so far, the stack of scopes and the errors found.
pub struct Checker<'a> {
    input: &'a str,
    output: String,
    scope_stack: ScopeStack,
    errors: Vec<SemanticError>,
}

/// What the errors found stand for.
pub open spec fn errors_view(es: Seq<SemanticError>) -> Seq<ErrRecord> {
    es.map_values(|e: SemanticError| ErrRecord { line_no: e.line_no(), error: e.error(), output: e.output() })
}

/// The view of an optional type.
pub open spec fn opt_view(t: Option<Type>) -> Option<TypeView> {
    match t {
        Some(t) => Some(t@),
        None => None,
    }
}

impl<'a> View for Checker<'a> {
    type V = CheckerView;

    closed spec fn view(&self) -> CheckerView {
        CheckerView {
            input: self.input@,
            output: self.output@,
            scopes: self.scope_stack@,
            errors: errors_view(self.errors@),
        }
    }
}

impl<'a> Checker<'a> {
    /// A checker over `input`, in the global scope, with nothing found yet.
    pub fn new(input: &'a str) -> (r: Self)
        ensures
            r@ == (CheckerView {
                input: input@,
                output: Seq::empty(),
                scopes: StackView {
                    stack: seq![KeyView::Global],
                    scopes: Map::empty().insert(KeyView::Global, Seq::empty()),
                },
                errors: Seq::empty(),
            }),
    {
        let r = Checker { input, output: String::new(), scope_stack: ScopeStack::default(), errors: Vec::new() };
        assert(errors_view(r.errors@) =~= Seq::<ErrRecord>::empty());
        r
    }

    /// Records an error of `error_kind` at a line, found at the text `tips`.
    fn collect_error(&mut self, error_kind: ErrorKind, line_no: usize, tips: &str)
        ensures
            final(self)@ == add_error(old(self)@, error_kind, line_no as nat, tips@),
    {
        let mut line = String::new();
        push_nat(&mut line, line_no as u64);
        let checker_error = CheckError::new(error_kind, Some(owned(tips)));
        let semantic_error = SemanticError::new(line, Some(checker_error));
        let ghost before = self.errors@;
        self.errors.push(semantic_error);
        assert(errors_view(self.errors@) =~= errors_view(before).push(found(error_kind, line_no as nat, tips@)));
    }

    /// Whether `ident` is already defined in the innermost scope; a
    /// redefinition is recorded (of a function for `op == 1`, of a variable
    /// for `op == 0`).
    pub fn check_same_ident(&mut self, ident: &str, line_no: usize, op: usize) -> (r: bool)
        requires
            same_ident(old(self)@, ident@, line_no as nat, op) is Some,
        ensures
            (final(self)@, r) == same_ident(old(self)@, ident@, line_no as nat, op)->0,
    {
        let found_here = match self.scope_stack.get_current_scope() {
            Some(scope) => scope.contains(owned(ident)),
            None => false,
        };
        if found_here {
            if op == 1 {
                self.collect_error(ErrorKind::RedefineFunc, line_no, ident);
                return true;
            }
            if op == 0 {
                self.collect_error(ErrorKind::RedefineVal, line_no, ident);
                return true;
            }
        }
        false
    }

    /// Whether `ident` is undefined in every active scope; the use of an
    /// undefined name is recorded (of a function for `op == 1`, of a
    /// variable for `op == 0`).
    fn check_undefine(&mut self, ident: &str, line_no: usize, op: usize) -> (r: bool)
        requires
            undefined(old(self)@, ident@, line_no as nat, op) is Some,
        ensures
            (final(self)@, r) == undefined(old(self)@, ident@, line_no as nat, op)->0,
    {
        if !self.scope_stack.contains(ident) {
            if op == 1 {
                self.collect_error(ErrorKind::UndefinedFunc, line_no, ident);
                return true;
            }
            if op == 0 {
                self.collect_error(ErrorKind::UndefinedVal, line_no, ident);
                return true;
            }
        }
        false
    }

    /// The line a node starts on.
    fn get_line_no(pair: &CheckPair) -> (r: usize)
        ensures
            r == pair.line,
    {
        pair.line
    }
}

/// Every prefix of a list that `chk_decls` gets through is got through.
proof fn lemma_decls_prefix(s: CheckerView, nodes: Seq<CheckPair>)
    requires
        chk_decls(s, nodes) is Some,
    ensures
        forall|k: int| 0 <= k <= nodes.len() ==> chk_decls(s, #[trigger] nodes.take(k)) is Some,
    decreases nodes.len(),
{
    if nodes.len() > 0 {
        lemma_decls_prefix(s, nodes.drop_last());
    }
    assert forall|k: int| 0 <= k <= nodes.len() implies chk_decls(s, #[trigger] nodes.take(k)) is Some by {
        if k == nodes.len() {
            assert(nodes.take(k) =~= nodes);
        } else {
            assert(nodes.take(k) =~= nodes.drop_last().take(k));
        }
    }
}

/// Every prefix of a list that `chk_var_defs` gets through is got through.
proof fn lemma_var_defs_prefix(s: CheckerView, nodes: Seq<CheckPair>)
    requires
        chk_var_defs(s, nodes) is Some,
    ensures
        forall|k: int| 0 <= k <= nodes.len() ==> chk_var_defs(s, #[trigger] nodes.take(k)) is Some,
    decreases nodes.len(),
{
    if nodes.len() > 0 {
        lemma_var_defs_prefix(s, nodes.drop_last());
    }
    assert forall|k: int| 0 <= k <= nodes.len() implies chk_var_defs(s, #[trigger] nodes.take(k)) is Some by {
        if k == nodes.len() {
            assert(nodes.take(k) =~= nodes);
        } else {
            assert(nodes.take(k) =~= nodes.drop_last().take(k));
        }
    }
}

/// Every prefix of a list that `chk_items` gets through is got through.
proof fn lemma_items_prefix(s: CheckerView, nodes: Seq<CheckPair>, only_items: bool)
    requires
        chk_items(s, nodes, only_items) is Some,
    ensures
        forall|k: int| 0 <= k <= nodes.len() ==> chk_items(s, #[trigger] nodes.take(k), only_items) is Some,
    decreases nodes.len(),
{
    if nodes.len() > 0 {
        lemma_items_prefix(s, nodes.drop_last(), only_items);
    }
    assert forall|k: int| 0 <= k <= nodes.len() implies chk_items(s, #[trigger] nodes.take(k), only_items) is Some by {
        if k == nodes.len() {
            assert(nodes.take(k) =~= nodes);
        } else {
            assert(nodes.take(k) =~= nodes.drop_last().take(k));
        }
    }
}

/// Every prefix of a list that `chk_stmt_parts` gets through is got through.
proof fn lemma_stmt_parts_prefix(s: CheckerView, nodes: Seq<CheckPair>)
    requires
        chk_stmt_parts(s, nodes) is Some,
    ensures
        forall|k: int| 0 <= k <= nodes.len() ==> chk_stmt_parts(s, #[trigger] nodes.take(k)) is Some,
    decreases nodes.len(),
{
    if nodes.len() > 0 {
        lemma_stmt_parts_prefix(s, nodes.drop_last());
    }
    assert forall|k: int| 0 <= k <= nodes.len() implies chk_stmt_parts(s, #[trigger] nodes.take(k)) is Some by {
        if k == nodes.len() {
            assert(nodes.take(k) =~= nodes);
        } else {
            assert(nodes.take(k) =~= nodes.drop_last().take(k));
        }
    }
}

/// Every prefix of a list that `chk_params` gets through is got through.
proof fn lemma_params_prefix(s: CheckerView, nodes: Seq<CheckPair>)
    requires
        chk_params(s, nodes) is Some,
    ensures
        forall|k: int| 0 <= k <= nodes.len() ==> chk_params(s, #[trigger] nodes.take(k)) is Some,
    decreases nodes.len(),
{
    if nodes.len() > 0 {
        lemma_params_prefix(s, nodes.drop_last());
    }
    assert forall|k: int| 0 <= k <= nodes.len() implies chk_params(s, #[trigger] nodes.take(k)) is Some by {
        if k == nodes.len() {
            assert(nodes.take(k) =~= nodes);
        } else {
            assert(nodes.take(k) =~= nodes.drop_last().take(k));
        }
    }
}

/// Every prefix of a list that `chk_args` gets through is got through.
proof fn lemma_args_prefix(s: CheckerView, nodes: Seq<CheckPair>)
    requires
        chk_args(s, nodes) is Some,
    ensures
        forall|k: int| 0 <= k <= nodes.len() ==> chk_args(s, #[trigger] nodes.take(k)) is Some,
    decreases nodes.len(),
{
    if nodes.len() > 0 {
        lemma_args_prefix(s, nodes.drop_last());
    }
    assert forall|k: int| 0 <= k <= nodes.len() implies chk_args(s, #[trigger] nodes.take(k)) is Some by {
        if k == nodes.len() {
            assert(nodes.take(k) =~= nodes);
        } else {
            assert(nodes.take(k) =~= nodes.drop_last().take(k));
        }
    }
}

/// Every prefix of a list that `chk_indices` gets through is got through.
proof fn lemma_indices_prefix(s: CheckerView, nodes: Seq<CheckPair>)
    requires
        chk_indices(s, nodes) is Some,
    ensures
        forall|k: int| 0 <= k <= nodes.len() ==> chk_indices(s, #[trigger] nodes.take(k)) is Some,
    decreases nodes.len(),
{
    if nodes.len() > 0 {
        lemma_indices_prefix(s, nodes.drop_last());
    }
    assert forall|k: int| 0 <= k <= nodes.len() implies chk_indices(s, #[trigger] nodes.take(k)) is Some by {
        if k == nodes.len() {
            assert(nodes.take(k) =~= nodes);
        } else {
            assert(nodes.take(k) =~= nodes.drop_last().take(k));
        }
    }
}

/// Every prefix of a list that `chk_operands` gets through is got through.
proof fn lemma_operands_prefix(s: CheckerView, nodes: Seq<CheckPair>, level: nat)
    requires
        chk_operands(s, nodes, level) is Some,
    ensures
        forall|k: int| 0 <= k <= nodes.len() ==> chk_operands(s, #[trigger] nodes.take(k), level) is Some,
    decreases nodes.len(),
{
    if nodes.len() > 0 {
        lemma_operands_prefix(s, nodes.drop_last(), level);
    }
    assert forall|k: int| 0 <= k <= nodes.len() implies chk_operands(s, #[trigger] nodes.take(k), level) is Some by {
        if k == nodes.len() {
            assert(nodes.take(k) =~= nodes);
        } else {
            assert(nodes.take(k) =~= nodes.drop_last().take(k));
        }
    }
}

/// Every prefix of a list that `chk_init_vals` gets through is got through.
proof fn lemma_init_vals_prefix(s: CheckerView, nodes: Seq<CheckPair>, konst: bool)
    requires
        chk_init_vals(s, nodes, konst) is Some,
    ensures
        forall|k: int| 0 <= k <= nodes.len() ==> chk_init_vals(s, #[trigger] nodes.take(k), konst) is Some,
    decreases nodes.len(),
{
    if nodes.len() > 0 {
        lemma_init_vals_prefix(s, nodes.drop_last(), konst);
    }
    assert forall|k: int| 0 <= k <= nodes.len() implies chk_init_vals(s, #[trigger] nodes.take(k), konst) is Some by {
        if k == nodes.len() {
            assert(nodes.take(k) =~= nodes);
        } else {
            assert(nodes.take(k) =~= nodes.drop_last().take(k));
        }
    }
}


/// `n` sizes of zero.
fn zeros(n: usize) -> (r: Vec<usize>)
    ensures
        sizes_view(r@) == zero_sizes(n as nat),
{
    let mut r: Vec<usize> = Vec::new();
    let mut i: usize = 0;
    while i < n
        invariant
            i <= n,
            r@.len() == i,
            forall|j: int| 0 <= j < r@.len() ==> r@[j] == 0,
        decreases n - i,
    {
        r.push(0);
        i = i + 1;
    }
    assert(sizes_view(r@) =~= zero_sizes(n as nat));
    r
}

/// An array of `item` elements whose dimensions have the given sizes, in order.
fn build_array(item: Type, sizes: &Vec<usize>) -> (r: Type)
    ensures
        r@ == array_of(item@, sizes_view(sizes@)),
{
    let ghost item_view = item@;
    let mut arr = ArrayStruct::new(item);
    let mut j: usize = 0;
    assert(arr.dim_nos@ =~= Seq::new(0, |i: int| i as usize));
    assert(arr.tpl_size@ =~= Seq::new(0, |i: int| (i as usize, sizes@[i])));
    while j < sizes.len()
        invariant
            j <= sizes@.len(),
            arr.crr_no == j,
            arr.array_dims == j,
            (*arr.item_type)@ == item_view,
            arr.dim_nos@ == Seq::new(j as nat, |i: int| i as usize),
            arr.tpl_size@ == Seq::new(j as nat, |i: int| (i as usize, sizes@[i])),
        decreases sizes.len() - j,
    {
        arr.insert_dim(sizes[j]);
        assert(arr.dim_nos@ =~= Seq::new((j + 1) as nat, |i: int| i as usize));
        assert(arr.tpl_size@ =~= Seq::new((j + 1) as nat, |i: int| (i as usize, sizes@[i])));
        j = j + 1;
    }
    let r = Type::Array(arr);
    proof {
        lemma_type_view(r);
        assert(Seq::new(sizes@.len(), |i: int| (i as usize, sizes@[i]))
            =~= Seq::new(sizes_view(sizes@).len(), |i: int| (i as usize, sizes_view(sizes@)[i] as usize)));
    }
    r
}

/// Whether each argument fits its parameter (see `args_fit`).
fn arguments_fit(args: &Vec<Type>, params: &Vec<Type>) -> (r: bool)
    requires
        args@.len() == params@.len(),
    ensures
        r == args_fit(types_view(args@), types_view(params@)),
{
    proof {
        lemma_types_view(args@);
        lemma_types_view(params@);
    }
    let mut i: usize = 0;
    while i < params.len()
        invariant
            i <= params@.len(),
            args@.len() == params@.len(),
            types_view(args@).len() == args@.len(),
            types_view(params@).len() == params@.len(),
            forall|j: int| 0 <= j < args@.len() ==> #[trigger] types_view(args@)[j] == args@[j]@,
            forall|j: int| 0 <= j < params@.len() ==> #[trigger] types_view(params@)[j] == params@[j]@,
            forall|j: int| 0 <= j < i ==> ((#[trigger] types_view(args@)[j] is Int && types_view(params@)[j] is Int)
                || (types_view(args@)[j] is Array && types_view(params@)[j] is Array
                    && dims(types_view(args@)[j]) == dims(types_view(params@)[j]))),
        decreases params.len() - i,
    {
        let a = &args[i];
        let q = &params[i];
        assert(types_view(args@)[i as int] == a@);
        assert(types_view(params@)[i as int] == q@);
        let fits = match (a, q) {
            (Type::Int, Type::Int) => true,
            (Type::Array(x), Type::Array(y)) => x.array_dims == y.array_dims,
            _ => false,
        };
        if !fits {
            return false;
        }
        i = i + 1;
    }
    true
}

impl<'a> Checker<'a> {
    /// The type of an arithmetic operation on operands of types `l` and `r`
    /// (see `binary_rule`).
    fn check_operands(&mut self, l: &Type, r: &Type, line_no: usize, text: &str) -> (t: Option<Type>)
        ensures
            (final(self)@, opt_view(t)) == binary_rule(old(self)@, l@, r@, line_no as nat, text@),
    {
        if l.is_array() || l.is_func() {
            self.collect_error(ErrorKind::TypeMismatchOp, line_no, text);
            None
        } else if r.is_func() || r.is_array() {
            self.collect_error(ErrorKind::TypeMismatchOp, line_no, text);
            None
        } else if l.is_int() && r.is_int() {
            Some(Type::Int)
        } else {
            None
        }
    }

    /// Checks an expression and gives its type.
    fn analyze_exp(&mut self, pair: &CheckPair) -> (r: Option<Type>)
        requires
            chk_exp(old(self)@, *pair) is Some,
        ensures
            final(self)@ == (chk_exp(old(self)@, *pair)->0).0,
            opt_view(r) == (chk_exp(old(self)@, *pair)->0).1,
        decreases pair, 3int,
    {
        self.analyze_add_exp(&pair.inner[0])
    }

    /// Checks an additive expression and gives its type.
    fn analyze_add_exp(&mut self, pair: &CheckPair) -> (r: Option<Type>)
        requires
            chk_add(old(self)@, *pair) is Some,
        ensures
            final(self)@ == (chk_add(old(self)@, *pair)->0).0,
            opt_view(r) == (chk_add(old(self)@, *pair)->0).1,
        decreases pair, 3int,
    {
        let line_no = Self::get_line_no(pair);
        let n = pair.inner.len();
        if n == 0 {
            return None;
        }
        if n == 1 {
            return self.analyze_mul_exp(&pair.inner[0]);
        }
        let r_mul_exp = &pair.inner[2];
        let l_type = match self.analyze_mul_exp(&pair.inner[0]) {
            Some(t) => t,
            None => return None,
        };
        let r_type = match self.analyze_mul_exp(r_mul_exp) {
            Some(t) => t,
            None => return None,
        };
        self.check_operands(&l_type, &r_type, line_no, pair.text.as_str())
    }

    /// Checks a multiplicative expression and gives its type.
    fn analyze_mul_exp(&mut self, pair: &CheckPair) -> (r: Option<Type>)
        requires
            chk_mul(old(self)@, *pair) is Some,
        ensures
            final(self)@ == (chk_mul(old(self)@, *pair)->0).0,
            opt_view(r) == (chk_mul(old(self)@, *pair)->0).1,
        decreases pair, 3int,
    {
        let line_no = Self::get_line_no(pair);
        let n = pair.inner.len();
        if n == 1 {
            return self.analyze_unary_exp(&pair.inner[0]);
        }
        let r_unary_exp = &pair.inner[2];
        let l_type = match self.analyze_unary_exp(&pair.inner[0]) {
            Some(t) => t,
            None => return None,
        };
        let r_type = match self.analyze_unary_exp(r_unary_exp) {
            Some(t) => t,
            None => return None,
        };
        self.check_operands(&l_type, &r_type, line_no, pair.text.as_str())
    }

    /// Checks a unary expression and gives its type.
    fn analyze_unary_exp(&mut self, pair: &CheckPair) -> (r: Option<Type>)
        requires
            chk_unary(old(self)@, *pair) is Some,
        ensures
            final(self)@ == (chk_unary(old(self)@, *pair)->0).0,
            opt_view(r) == (chk_unary(old(self)@, *pair)->0).1,
        decreases pair, 3int,
    {
        let inner_exp = &pair.inner[0];
        match inner_exp.rule {
            Rule::CallExp => self.analyze_call_exp(inner_exp),
            Rule::PrimaryExp => self.analyze_primary_exp(inner_exp),
            Rule::UnaryOpExp => self.analyze_unary_op_exp(inner_exp),
            _ => None,
        }
    }

    /// Checks an operator applied to a unary expression and gives its type.
    fn analyze_unary_op_exp(&mut self, pair: &CheckPair) -> (r: Option<Type>)
        requires
            chk_unary_op(old(self)@, *pair) is Some,
        ensures
            final(self)@ == (chk_unary_op(old(self)@, *pair)->0).0,
            opt_view(r) == (chk_unary_op(old(self)@, *pair)->0).1,
        decreases pair, 3int,
    {
        let line_no = Self::get_line_no(pair);
        if pair.inner.len() < 2 {
            return None;
        }
        let unary_type = match self.analyze_unary_exp(&pair.inner[1]) {
            Some(t) => t,
            None => return None,
        };
        if unary_type.is_int() {
            return Some(Type::Int);
        } else {
            self.collect_error(ErrorKind::TypeMismatchOp, line_no, pair.text.as_str());
        }
        None
    }

    /// Checks the arguments of a call and gives the types of those that have one.
    fn analyze_call_args(&mut self, nodes: &Vec<CheckPair>) -> (r: Vec<Type>)
        requires
            chk_args(old(self)@, nodes@) is Some,
        ensures
            final(self)@ == (chk_args(old(self)@, nodes@)->0).0,
            types_view(r@) == (chk_args(old(self)@, nodes@)->0).1,
        decreases nodes, 0int,
    {
        let ghost s0 = self@;
        proof { lemma_args_prefix(s0, nodes@); }
        let mut params_vec: Vec<Type> = Vec::new();
        let mut i: usize = 0;
        assert(nodes@.take(0) =~= Seq::<CheckPair>::empty());
        while i < nodes.len()
            invariant
                i <= nodes@.len(),
                forall|k: int| 0 <= k <= nodes@.len() ==> chk_args(s0, #[trigger] nodes@.take(k)) is Some,
                chk_args(s0, nodes@.take(i as int)) == Some((self@, types_view(params_vec@))),
            decreases nodes.len() - i,
        {
            assert(nodes@.take(i + 1).drop_last() =~= nodes@.take(i as int));
            assert(nodes@.take(i + 1).last() == nodes@[i as int]);
            assert(chk_args(s0, nodes@.take(i + 1)) is Some);
            let param = &nodes[i];
            if param.rule == Rule::Exp {
                match self.analyze_exp(param) {
                    Some(pty) => {
                        let ghost before = params_vec@;
                        params_vec.push(pty);
                        assert(params_vec@.drop_last() =~= before);
                    },
                    None => {},
                }
            }
            i = i + 1;
        }
        assert(nodes@.take(nodes@.len() as int) =~= nodes@);
        params_vec
    }

    /// Checks a function call and gives the function's return type.
    fn analyze_call_exp(&mut self, pair: &CheckPair) -> (r: Option<Type>)
        requires
            chk_call(old(self)@, *pair) is Some,
        ensures
            final(self)@ == (chk_call(old(self)@, *pair)->0).0,
            opt_view(r) == (chk_call(old(self)@, *pair)->0).1,
        decreases pair, 3int,
    {
        let line_no = Self::get_line_no(pair);
        if pair.inner.len() == 0 {
            return None;
        }
        let func_name = pair.inner[0].text.as_str();
        if self.check_undefine(func_name, line_no, 1) {
            return None;
        }
        if pair.inner.len() < 3 {
            return None;
        }
        let params = &pair.inner[2];
        let params_vec = if params.rule == Rule::FuncRParams {
            self.analyze_call_args(&params.inner)
        } else {
            let v: Vec<Type> = Vec::new();
            assert(types_view(v@) =~= Seq::<TypeView>::empty());
            v
        };
        let outcome: Result<Type, ErrorKind> = match self.scope_stack.get(func_name) {
            None => return None,
            Some(Type::Func(func)) => {
                proof { lemma_types_view(params_vec@); lemma_types_view(func.params@); }
                if params_vec.len() != func.params.len() || !arguments_fit(&params_vec, &func.params) {
                    Err(ErrorKind::Inappropriate)
                } else {
                    Ok(func.return_type.duplicate())
                }
            },
            Some(_) => Err(ErrorKind::UnlegalFuncCall),
        };
        match outcome {
            Ok(t) => Some(t),
            Err(kind) => {
                self.collect_error(kind, line_no, func_name);
                None
            },
        }
    }

    /// Checks a primary expression and gives its type.
    fn analyze_primary_exp(&mut self, pair: &CheckPair) -> (r: Option<Type>)
        requires
            chk_primary(old(self)@, *pair) is Some,
        ensures
            final(self)@ == (chk_primary(old(self)@, *pair)->0).0,
            opt_view(r) == (chk_primary(old(self)@, *pair)->0).1,
        decreases pair, 3int,
    {
        let next = &pair.inner[0];
        if next.rule == Rule::LVal {
            return self.analyze_lval(next);
        }
        if next.rule == Rule::Number {
            return self.analyze_number();
        }
        self.analyze_exp(&pair.inner[1])
    }

    /// A number is an `int`.
    fn analyze_number(&mut self) -> (r: Option<Type>)
        ensures
            final(self)@ == old(self)@,
            opt_view(r) == Some(TypeView::Int),
    {
        Some(Type::Int)
    }

    /// Checks the indices of a place, from child `start` on, and gives their types.
    fn analyze_indices(&mut self, nodes: &Vec<CheckPair>, start: usize) -> (r: Vec<Type>)
        requires
            start <= nodes@.len(),
            chk_indices(old(self)@, nodes@.subrange(start as int, nodes@.len() as int)) is Some,
        ensures
            final(self)@ == (chk_indices(old(self)@, nodes@.subrange(start as int, nodes@.len() as int))->0).0,
            r@.len() == (chk_indices(old(self)@, nodes@.subrange(start as int, nodes@.len() as int))->0).1,
        decreases nodes, 0int,
    {
        let ghost s0 = self@;
        let ghost xs = nodes@.subrange(start as int, nodes@.len() as int);
        proof { lemma_indices_prefix(s0, xs); }
        let mut items: Vec<Type> = Vec::new();
        let mut i: usize = start;
        assert(xs.take(0) =~= Seq::<CheckPair>::empty());
        while i < nodes.len()
            invariant
                start <= i <= nodes@.len(),
                xs == nodes@.subrange(start as int, nodes@.len() as int),
                forall|k: int| 0 <= k <= xs.len() ==> chk_indices(s0, #[trigger] xs.take(k)) is Some,
                chk_indices(s0, xs.take(i - start)) == Some((self@, items@.len())),
            decreases nodes.len() - i,
        {
            assert(xs.take(i - start + 1).drop_last() =~= xs.take(i - start));
            assert(xs.take(i - start + 1).last() == nodes@[i as int]);
            assert(chk_indices(s0, xs.take(i - start + 1)) is Some);
            let r = &nodes[i];
            if r.rule == Rule::Exp {
                match self.analyze_exp(r) {
                    Some(exp_ty) => items.push(exp_ty),
                    None => {},
                }
            }
            i = i + 1;
        }
        assert(xs.take(xs.len() as int) =~= xs);
        items
    }

    /// Checks a place and gives its type.
    fn analyze_lval(&mut self, pair: &CheckPair) -> (r: Option<Type>)
        requires
            chk_lval(old(self)@, *pair) is Some,
        ensures
            final(self)@ == (chk_lval(old(self)@, *pair)->0).0,
            opt_view(r) == (chk_lval(old(self)@, *pair)->0).1,
        decreases pair, 3int,
    {
        let line_no = Self::get_line_no(pair);
        let ident_str = pair.inner[0].text.as_str();
        if self.check_undefine(ident_str, line_no, 0) {
            return None;
        }
        if pair.inner.len() == 1 {
            return match self.scope_stack.get(ident_str) {
                Some(v) => Some(v.duplicate()),
                None => None,
            };
        }
        let (is_array, array_dims, item_type) = match self.scope_stack.get(ident_str) {
            None => return None,
            Some(Type::Array(ty)) => {
                proof { lemma_type_view(Type::Array(*ty)); }
                (true, ty.array_dims, Some(ty.item_type.duplicate()))
            },
            Some(_) => (false, 0, None),
        };
        if !is_array {
            self.collect_error(ErrorKind::NotArrayAssign, line_no, ident_str);
            return None;
        }
        let items = self.analyze_indices(&pair.inner, 2);
        let dims = array_dims - items.len();
        if dims == 0 {
            Some(Type::Int)
        } else {
            let old_type = match item_type {
                Some(t) => t,
                None => Type::Int,
            };
            let sizes = zeros(dims);
            Some(build_array(old_type, &sizes))
        }
    }
}


/// Every prefix of a list whose dimensions can be read can be read.
proof fn lemma_const_dims_prefix(nodes: Seq<CheckPair>)
    requires
        const_dims(nodes) is Some,
    ensures
        forall|k: int| 0 <= k <= nodes.len() ==> const_dims(#[trigger] nodes.take(k)) is Some,
    decreases nodes.len(),
{
    if nodes.len() > 0 {
        lemma_const_dims_prefix(nodes.drop_last());
    }
    assert forall|k: int| 0 <= k <= nodes.len() implies const_dims(#[trigger] nodes.take(k)) is Some by {
        if k == nodes.len() {
            assert(nodes.take(k) =~= nodes);
        } else {
            assert(nodes.take(k) =~= nodes.drop_last().take(k));
        }
    }
}

/// Every prefix of a list whose parameter dimensions can be read can be read.
proof fn lemma_param_dims_prefix(nodes: Seq<CheckPair>)
    requires
        param_dims(nodes) is Some,
    ensures
        forall|k: int| 0 <= k <= nodes.len() ==> param_dims(#[trigger] nodes.take(k)) is Some,
    decreases nodes.len(),
{
    if nodes.len() > 0 {
        lemma_param_dims_prefix(nodes.drop_last());
    }
    assert forall|k: int| 0 <= k <= nodes.len() implies param_dims(#[trigger] nodes.take(k)) is Some by {
        if k == nodes.len() {
            assert(nodes.take(k) =~= nodes);
        } else {
            assert(nodes.take(k) =~= nodes.drop_last().take(k));
        }
    }
}

/// Whether some type is an array or a function.
fn has_bad_operand(ts: &Vec<Type>) -> (r: bool)
    ensures
        r == any_bad(types_view(ts@)),
{
    proof { lemma_types_view(ts@); }
    let mut i: usize = 0;
    while i < ts.len()
        invariant
            i <= ts@.len(),
            types_view(ts@).len() == ts@.len(),
            forall|j: int| 0 <= j < ts@.len() ==> #[trigger] types_view(ts@)[j] == ts@[j]@,
            forall|j: int| 0 <= j < i ==> !(#[trigger] types_view(ts@)[j] is Array || types_view(ts@)[j] is Func),
        decreases ts.len() - i,
    {
        assert(types_view(ts@)[i as int] == ts@[i as int]@);
        if ts[i].is_array() || ts[i].is_func() {
            return true;
        }
        i = i + 1;
    }
    false
}

/// The dimension sizes read, as numbers.
pub open spec fn sizes_view(ds: Seq<usize>) -> Seq<nat> {
    ds.map_values(|d: usize| d as nat)
}

impl<'a> Checker<'a> {
    /// Checks the operands of a logical or relational expression at `level`
    /// (see `chk_operands`) and gives their types, or `None` once one has
    /// no type.
    fn analyze_operands(&mut self, nodes: &Vec<CheckPair>, level: usize) -> (r: Option<Vec<Type>>)
        requires
            level <= 3,
            chk_operands(old(self)@, nodes@, level as nat) is Some,
        ensures
            final(self)@ == (chk_operands(old(self)@, nodes@, level as nat)->0).0,
            match r {
                Some(ts) => (chk_operands(old(self)@, nodes@, level as nat)->0).1 == Some(types_view(ts@)),
                None => (chk_operands(old(self)@, nodes@, level as nat)->0).1 is None,
            },
        decreases nodes, 0int,
    {
        let ghost s0 = self@;
        proof { lemma_operands_prefix(s0, nodes@, level as nat); }
        let mut tys: Vec<Type> = Vec::new();
        let mut going = true;
        let mut i: usize = 0;
        let want = if level == 0 {
            Rule::LAndExp
        } else if level == 1 {
            Rule::EqExp
        } else if level == 2 {
            Rule::RelExp
        } else {
            Rule::AddExp
        };
        assert(nodes@.take(0) =~= Seq::<CheckPair>::empty());
        while i < nodes.len()
            invariant
                i <= nodes@.len(),
                level <= 3,
                want == operand_rule(level as nat),
                forall|k: int| 0 <= k <= nodes@.len() ==> chk_operands(s0, #[trigger] nodes@.take(k), level as nat) is Some,
                chk_operands(s0, nodes@.take(i as int), level as nat)
                    == Some((self@, if going { Some(types_view(tys@)) } else { None })),
            decreases nodes.len() - i,
        {
            assert(nodes@.take(i + 1).drop_last() =~= nodes@.take(i as int));
            assert(nodes@.take(i + 1).last() == nodes@[i as int]);
            assert(chk_operands(s0, nodes@.take(i + 1), level as nat) is Some);
            let x = &nodes[i];
            if going && x.rule == want {
                let t = if level == 0 {
                    self.analyze_l_and_exp(x)
                } else if level == 1 {
                    self.analyze_eq_exp(x)
                } else if level == 2 {
                    self.analyze_rel_exp(x)
                } else {
                    self.analyze_add_exp(x)
                };
                match t {
                    Some(t) => {
                        let ghost before = tys@;
                        tys.push(t);
                        assert(tys@.drop_last() =~= before);
                    },
                    None => {
                        going = false;
                    },
                }
            }
            i = i + 1;
        }
        assert(nodes@.take(nodes@.len() as int) =~= nodes@);
        if going { Some(tys) } else { None }
    }

    /// Checks a disjunction: its operands must not be arrays or functions.
    fn analyze_lor_exp(&mut self, pair: &CheckPair)
        requires
            chk_logic(old(self)@, *pair, 0) is Some,
        ensures
            final(self)@ == (chk_logic(old(self)@, *pair, 0)->0).0,
        decreases pair, 3int,
    {
        let line_no = Self::get_line_no(pair);
        match self.analyze_operands(&pair.inner, 0) {
            None => {},
            Some(l_and_exp_exps) => {
                if has_bad_operand(&l_and_exp_exps) {
                    self.collect_error(ErrorKind::TypeMismatchOp, line_no, pair.text.as_str());
                }
            },
        }
    }

    /// Checks a conjunction and gives its type.
    fn analyze_l_and_exp(&mut self, pair: &CheckPair) -> (r: Option<Type>)
        requires
            chk_logic(old(self)@, *pair, 1) is Some,
        ensures
            final(self)@ == (chk_logic(old(self)@, *pair, 1)->0).0,
            opt_view(r) == (chk_logic(old(self)@, *pair, 1)->0).1,
        decreases pair, 3int,
    {
        let line_no = Self::get_line_no(pair);
        match self.analyze_operands(&pair.inner, 1) {
            None => None,
            Some(eq_exps) => {
                if has_bad_operand(&eq_exps) {
                    self.collect_error(ErrorKind::TypeMismatchOp, line_no, pair.text.as_str());
                    None
                } else {
                    Some(Type::Int)
                }
            },
        }
    }

    /// Checks an equality and gives its type.
    fn analyze_eq_exp(&mut self, pair: &CheckPair) -> (r: Option<Type>)
        requires
            chk_logic(old(self)@, *pair, 2) is Some,
        ensures
            final(self)@ == (chk_logic(old(self)@, *pair, 2)->0).0,
            opt_view(r) == (chk_logic(old(self)@, *pair, 2)->0).1,
        decreases pair, 3int,
    {
        let line_no = Self::get_line_no(pair);
        match self.analyze_operands(&pair.inner, 2) {
            None => None,
            Some(rel_exps) => {
                if has_bad_operand(&rel_exps) {
                    self.collect_error(ErrorKind::TypeMismatchOp, line_no, pair.text.as_str());
                    None
                } else {
                    Some(Type::Int)
                }
            },
        }
    }

    /// Checks a relation and gives its type.
    fn analyze_rel_exp(&mut self, pair: &CheckPair) -> (r: Option<Type>)
        requires
            chk_logic(old(self)@, *pair, 3) is Some,
        ensures
            final(self)@ == (chk_logic(old(self)@, *pair, 3)->0).0,
            opt_view(r) == (chk_logic(old(self)@, *pair, 3)->0).1,
        decreases pair, 3int,
    {
        let line_no = Self::get_line_no(pair);
        match self.analyze_operands(&pair.inner, 3) {
            None => None,
            Some(add_exps) => {
                if has_bad_operand(&add_exps) {
                    self.collect_error(ErrorKind::TypeMismatchOp, line_no, pair.text.as_str());
                    None
                } else {
                    Some(Type::Int)
                }
            },
        }
    }

    /// Checks a condition.
    fn analyze_cond(&mut self, pair: &CheckPair)
        requires
            chk_cond(old(self)@, *pair) is Some,
        ensures
            final(self)@ == chk_cond(old(self)@, *pair)->0,
        decreases pair, 3int,
    {
        self.analyze_lor_exp(&pair.inner[0]);
    }
}


impl<'a> Checker<'a> {
    /// Checks the declarations of a list in turn.
    fn analyze_declarations(&mut self, nodes: &Vec<CheckPair>)
        requires
            chk_decls(old(self)@, nodes@) is Some,
        ensures
            final(self)@ == chk_decls(old(self)@, nodes@)->0,
        decreases nodes, 0int,
    {
        let ghost s0 = self@;
        proof { lemma_decls_prefix(s0, nodes@); }
        let mut i: usize = 0;
        assert(nodes@.take(0) =~= Seq::<CheckPair>::empty());
        while i < nodes.len()
            invariant
                i <= nodes@.len(),
                forall|k: int| 0 <= k <= nodes@.len() ==> chk_decls(s0, #[trigger] nodes@.take(k)) is Some,
                chk_decls(s0, nodes@.take(i as int)) == Some(self@),
            decreases nodes.len() - i,
        {
            assert(nodes@.take(i + 1).drop_last() =~= nodes@.take(i as int));
            assert(nodes@.take(i + 1).last() == nodes@[i as int]);
            assert(chk_decls(s0, nodes@.take(i + 1)) is Some);
            self.analyze_declaration(&nodes[i]);
            i = i + 1;
        }
        assert(nodes@.take(nodes@.len() as int) =~= nodes@);
    }

    /// Checks a declaration or definition: a group of declarations, a
    /// declaration of variables, or a function definition.
    pub fn analyze_declaration(&mut self, declaration: &CheckPair)
        requires
            chk_declaration(old(self)@, *declaration) is Some,
        ensures
            final(self)@ == chk_declaration(old(self)@, *declaration)->0,
        decreases declaration, 5int,
    {
        match declaration.rule {
            Rule::Decl => {
                self.analyze_declarations(&declaration.inner);
            },
            Rule::ConstDecl | Rule::VarDecl => {
                self.analyze_var_decl(declaration);
            },
            Rule::FuncDef => {
                self.analyze_func_def(declaration);
            },
            _ => {},
        }
    }

    /// Checks each variable definition of a declaration in turn.
    pub fn analyze_var_decl(&mut self, var_decl: &CheckPair)
        requires
            chk_var_decl(old(self)@, *var_decl) is Some,
        ensures
            final(self)@ == chk_var_decl(old(self)@, *var_decl)->0,
        decreases var_decl, 4int,
    {
        let nodes = &var_decl.inner;
        let ghost s0 = self@;
        proof { lemma_var_defs_prefix(s0, nodes@); }
        let mut i: usize = 0;
        assert(nodes@.take(0) =~= Seq::<CheckPair>::empty());
        while i < nodes.len()
            invariant
                i <= nodes@.len(),
                nodes == &var_decl.inner,
                forall|k: int| 0 <= k <= nodes@.len() ==> chk_var_defs(s0, #[trigger] nodes@.take(k)) is Some,
                chk_var_defs(s0, nodes@.take(i as int)) == Some(self@),
            decreases nodes.len() - i,
        {
            assert(nodes@.take(i + 1).drop_last() =~= nodes@.take(i as int));
            assert(nodes@.take(i + 1).last() == nodes@[i as int]);
            assert(chk_var_defs(s0, nodes@.take(i + 1)) is Some);
            let var_def = &nodes[i];
            if var_def.rule == Rule::VarDef {
                self.analyze_def(var_def);
            }
            i = i + 1;
        }
        assert(nodes@.take(nodes@.len() as int) =~= nodes@);
    }

    /// Checks the items of a block in turn; with `only_items`, what is not
    /// a block item is passed over.
    fn analyze_items(&mut self, nodes: &Vec<CheckPair>, only_items: bool)
        requires
            chk_items(old(self)@, nodes@, only_items) is Some,
        ensures
            final(self)@ == chk_items(old(self)@, nodes@, only_items)->0,
        decreases nodes, 0int,
    {
        let ghost s0 = self@;
        proof { lemma_items_prefix(s0, nodes@, only_items); }
        let mut i: usize = 0;
        assert(nodes@.take(0) =~= Seq::<CheckPair>::empty());
        while i < nodes.len()
            invariant
                i <= nodes@.len(),
                forall|k: int| 0 <= k <= nodes@.len() ==> chk_items(s0, #[trigger] nodes@.take(k), only_items) is Some,
                chk_items(s0, nodes@.take(i as int), only_items) == Some(self@),
            decreases nodes.len() - i,
        {
            assert(nodes@.take(i + 1).drop_last() =~= nodes@.take(i as int));
            assert(nodes@.take(i + 1).last() == nodes@[i as int]);
            assert(chk_items(s0, nodes@.take(i + 1), only_items) is Some);
            let item = &nodes[i];
            if !only_items || item.rule == Rule::BlockItem {
                self.analyze_block_item(item);
            }
            i = i + 1;
        }
        assert(nodes@.take(nodes@.len() as int) =~= nodes@);
    }

    /// Checks an item of a block.
    fn analyze_block_item(&mut self, block_item: &CheckPair)
        requires
            chk_block_item(old(self)@, *block_item) is Some,
        ensures
            final(self)@ == chk_block_item(old(self)@, *block_item)->0,
        decreases block_item, 6int,
    {
        match block_item.rule {
            Rule::Decl => {
                self.analyze_declaration(block_item);
            },
            Rule::Stmt => {
                self.analyze_stmt(block_item);
            },
            Rule::BlockItem => {
                self.analyze_items(&block_item.inner, false);
            },
            _ => {},
        }
    }

    /// Checks each part of a statement in turn.
    pub fn analyze_stmt(&mut self, stmt: &CheckPair)
        requires
            chk_stmt(old(self)@, *stmt) is Some,
        ensures
            final(self)@ == chk_stmt(old(self)@, *stmt)->0,
        decreases stmt, 5int,
    {
        let nodes = &stmt.inner;
        let ghost s0 = self@;
        proof { lemma_stmt_parts_prefix(s0, nodes@); }
        let mut i: usize = 0;
        assert(nodes@.take(0) =~= Seq::<CheckPair>::empty());
        while i < nodes.len()
            invariant
                i <= nodes@.len(),
                nodes == &stmt.inner,
                forall|k: int| 0 <= k <= nodes@.len() ==> chk_stmt_parts(s0, #[trigger] nodes@.take(k)) is Some,
                chk_stmt_parts(s0, nodes@.take(i as int)) == Some(self@),
            decreases nodes.len() - i,
        {
            assert(nodes@.take(i + 1).drop_last() =~= nodes@.take(i as int));
            assert(nodes@.take(i + 1).last() == nodes@[i as int]);
            assert(chk_stmt_parts(s0, nodes@.take(i + 1)) is Some);
            self.analyze_stmt_part(&nodes[i]);
            i = i + 1;
        }
        assert(nodes@.take(nodes@.len() as int) =~= nodes@);
    }

    /// Checks one part of a statement (see `chk_stmt_part`).
    fn analyze_stmt_part(&mut self, p: &CheckPair)
        requires
            chk_stmt_part(old(self)@, *p) is Some,
        ensures
            final(self)@ == chk_stmt_part(old(self)@, *p)->0,
        decreases p, 4int,
    {
        match p.rule {
            Rule::AssignStmt => {
                self.analyze_assign_stmt(p);
            },
            Rule::IfStmt => {
                self.analyze_if_stmt(p);
            },
            Rule::WhileStmt => {
                self.analyze_while_stmt(p);
            },
            Rule::ReturnStmt => {
                self.analyze_return_stmt(p);
            },
            Rule::ExpStmt => {
                self.analyze_exp(&p.inner[0]);
            },
            Rule::Block => {
                self.scope_stack.push(ScopeKey::InnerBlock);
                self.analyze_items(&p.inner, true);
                self.scope_stack.pop();
            },
            _ => {},
        }
    }

    /// Checks an assignment: both sides, then their types (see `assign_rule`).
    fn analyze_assign_stmt(&mut self, pair: &CheckPair)
        requires
            chk_assign(old(self)@, *pair) is Some,
        ensures
            final(self)@ == chk_assign(old(self)@, *pair)->0,
        decreases pair, 3int,
    {
        let line_no = Self::get_line_no(pair);
        let stmt_str = pair.text.as_str();
        let l_val = &pair.inner[0];
        let r_exp = &pair.inner[2];
        let l_type = self.analyze_lval(l_val);
        let r_type = self.analyze_exp(r_exp);
        let (l, r) = match (l_type, r_type) {
            (Some(l), Some(r)) => (l, r),
            _ => return,
        };
        if l.is_array() && r.is_array() {
            let (ld, rd) = match (&l, &r) {
                (Type::Array(ll), Type::Array(rr)) => (ll.get_dim_size(), rr.get_dim_size()),
                _ => (0, 0),
            };
            if ld != rd {
                self.collect_error(ErrorKind::TypeMismatch, line_no, stmt_str);
            }
            return;
        }
        if l.is_func() {
            self.collect_error(ErrorKind::UnexpectedFuncAssign, line_no, stmt_str);
            return;
        }
        if r.is_func() {
            self.collect_error(ErrorKind::TypeMismatch, line_no, stmt_str);
            return;
        }
        if l.is_int() && !r.is_int() {
            self.collect_error(ErrorKind::TypeMismatch, line_no, stmt_str);
            return;
        }
        if l.is_array() && r.is_int() {
            let d = match &l {
                Type::Array(t) => t.get_dim_size(),
                _ => 0,
            };
            if d != 0 {
                self.collect_error(ErrorKind::TypeMismatch, line_no, stmt_str);
            }
        }
    }

    /// Checks a conditional statement.
    fn analyze_if_stmt(&mut self, pair: &CheckPair)
        requires
            chk_if(old(self)@, *pair) is Some,
        ensures
            final(self)@ == chk_if(old(self)@, *pair)->0,
        decreases pair, 3int,
    {
        let k = &pair.inner;
        self.analyze_cond(&k[2]);
        self.analyze_stmt(&k[4]);
        if k.len() == 5 {
            return;
        }
        self.analyze_stmt(&k[6]);
    }

    /// Checks a loop.
    fn analyze_while_stmt(&mut self, pair: &CheckPair)
        requires
            chk_while(old(self)@, *pair) is Some,
        ensures
            final(self)@ == chk_while(old(self)@, *pair)->0,
        decreases pair, 3int,
    {
        let k = &pair.inner;
        self.analyze_cond(&k[2]);
        self.analyze_stmt(&k[4]);
    }

    /// Checks a return statement against the current function's return type.
    fn analyze_return_stmt(&mut self, pair: &CheckPair)
        requires
            chk_return(old(self)@, *pair) is Some,
        ensures
            final(self)@ == chk_return(old(self)@, *pair)->0,
        decreases pair, 3int,
    {
        let line_no = Self::get_line_no(pair);
        let return_stmt_str = pair.text.as_str();
        let next = &pair.inner[1];
        let returned = if next.rule == Rule::Exp {
            match self.analyze_exp(next) {
                None => return,
                Some(t) => t,
            }
        } else {
            Type::Void
        };
        let ident = match self.scope_stack.get_current_scope_key() {
            Some(n) => n,
            None => return,
        };
        let mismatch = match self.scope_stack.get(ident.as_str()) {
            Some(Type::Func(ty)) => {
                proof {
                    lemma_type_view(Type::Func(*ty));
                    lemma_type_view(*ty.return_type);
                    lemma_type_view(returned);
                }
                !ty.return_type.is_same_type(&returned)
            },
            Some(other) => {
                proof { lemma_type_view(*other); }
                false
            },
            None => false,
        };
        if mismatch {
            self.collect_error(ErrorKind::ReturnMismatch, line_no, return_stmt_str);
        }
    }
}


impl<'a> Checker<'a> {
    /// The size a constant expression gives a dimension.
    pub fn analyze_const_exp(const_exp: &CheckPair) -> (r: usize)
        requires
            parse_usize_text(trim_text(const_exp.text@)) is Some,
        ensures
            r as nat == parse_usize_text(trim_text(const_exp.text@))->0,
    {
        match parse_usize(trim_str(const_exp.text.as_str())) {
            Some(d) => d,
            None => 0,
        }
    }

    /// Appends the size of each dimension of an array definition.
    pub fn analyze_array_dims(array_dims: &CheckPair, dims: &mut Vec<usize>)
        requires
            const_dims(array_dims.inner@) is Some,
        ensures
            sizes_view(final(dims)@) == sizes_view(old(dims)@) + const_dims(array_dims.inner@)->0,
    {
        let nodes = &array_dims.inner;
        proof { lemma_const_dims_prefix(nodes@); }
        let ghost base = sizes_view(dims@);
        let mut i: usize = 0;
        assert(nodes@.take(0) =~= Seq::<CheckPair>::empty());
        assert(sizes_view(dims@) =~= base + Seq::<nat>::empty());
        while i < nodes.len()
            invariant
                i <= nodes@.len(),
                forall|k: int| 0 <= k <= nodes@.len() ==> const_dims(#[trigger] nodes@.take(k)) is Some,
                sizes_view(dims@) == base + const_dims(nodes@.take(i as int))->0,
            decreases nodes.len() - i,
        {
            assert(nodes@.take(i + 1).drop_last() =~= nodes@.take(i as int));
            assert(nodes@.take(i + 1).last() == nodes@[i as int]);
            assert(const_dims(nodes@.take(i + 1)) is Some);
            let inner_pair = &nodes[i];
            if inner_pair.rule == Rule::ConstExp {
                let dim_size = Self::analyze_const_exp(inner_pair);
                let ghost before = dims@;
                dims.push(dim_size);
                assert(sizes_view(dims@) =~= sizes_view(before).push(dim_size as nat));
            }
            assert(sizes_view(dims@) =~= base + const_dims(nodes@.take(i + 1))->0);
            i = i + 1;
        }
        assert(nodes@.take(nodes@.len() as int) =~= nodes@);
    }

    /// Checks a variable definition and defines the variable (see `chk_def`).
    pub fn analyze_def(&mut self, var_def: &CheckPair)
        requires
            chk_def(old(self)@, *var_def) is Some,
        ensures
            final(self)@ == chk_def(old(self)@, *var_def)->0,
        decreases var_def, 3int,
    {
        let k = &var_def.inner;
        let ident = &k[0];
        let ident_str = ident.text.as_str();
        let line_no = Self::get_line_no(ident);
        if self.check_same_ident(ident_str, line_no, 0) {
            return;
        }
        if k.len() == 1 {
            self.scope_stack.insert_current(owned(ident_str), Type::Int);
            return;
        }
        let nn = &k[1];
        if nn.rule == Rule::ArrayDims {
            let mut dims: Vec<usize> = Vec::new();
            Self::analyze_array_dims(nn, &mut dims);
            assert(sizes_view(Seq::<usize>::empty()) =~= Seq::<nat>::empty());
            let array_str = build_array(Type::Int, &dims);
            if k.len() > 3 {
                match self.analyze_init(&k[3]) {
                    Some(val_ty) => {
                        if !val_ty.is_array() {
                            self.collect_error(ErrorKind::TypeMismatchOp, line_no, ident_str);
                            return;
                        }
                    },
                    None => return,
                }
            }
            proof { lemma_type_view(Type::Int); }
            self.scope_stack.insert_current(owned(ident_str), array_str);
        } else if k.len() > 2 {
            match self.analyze_init(&k[2]) {
                None => {},
                Some(val_ty) => {
                    if !val_ty.is_int() {
                        self.collect_error(ErrorKind::TypeMismatchOp, line_no, ident_str);
                    } else {
                        self.scope_stack.insert_current(owned(ident_str), Type::Int);
                    }
                },
            }
        }
    }

    /// Checks an initializer and gives its type (see `chk_init`).
    pub fn analyze_init(&mut self, init_val: &CheckPair) -> (r: Option<Type>)
        requires
            chk_init(old(self)@, *init_val) is Some,
        ensures
            final(self)@ == (chk_init(old(self)@, *init_val)->0).0,
            opt_view(r) == (chk_init(old(self)@, *init_val)->0).1,
        decreases init_val, 3int,
    {
        match init_val.rule {
            Rule::InitVal | Rule::ConstInitVal => {
                let konst = init_val.rule == Rule::ConstInitVal;
                let mut init_vals: Vec<Type> = Vec::new();
                if !self.analyze_init_val(&init_val.inner, konst, &mut init_vals) {
                    return None;
                }
                if init_vals.len() == 1 {
                    return Some(Type::Int);
                }
                let sizes = zeros(init_vals.len());
                Some(build_array(Type::Int, &sizes))
            },
            _ => None,
        }
    }

    /// Checks the values of an initializer list (of a constant one with
    /// `konst`) in order, nested lists flattened, appending their types;
    /// false once a value has no type, where the rest are not checked.
    fn analyze_init_val(&mut self, nodes: &Vec<CheckPair>, konst: bool, init_vals: &mut Vec<Type>) -> (ok: bool)
        requires
            chk_init_vals(old(self)@, nodes@, konst) is Some,
        ensures
            final(self)@ == (chk_init_vals(old(self)@, nodes@, konst)->0).0,
            ok == (chk_init_vals(old(self)@, nodes@, konst)->0).1 is Some,
            final(init_vals)@.len() >= old(init_vals)@.len(),
            ok ==> final(init_vals)@.len() == old(init_vals)@.len() + (chk_init_vals(old(self)@, nodes@, konst)->0).1->0,
        decreases nodes, 0int,
    {
        let ghost s0 = self@;
        let ghost base = init_vals@.len();
        proof { lemma_init_vals_prefix(s0, nodes@, konst); }
        let nested = if konst { Rule::ConstInitVal } else { Rule::InitVal };
        let value = if konst { Rule::ConstExp } else { Rule::Exp };
        let mut going = true;
        let mut i: usize = 0;
        assert(nodes@.take(0) =~= Seq::<CheckPair>::empty());
        while i < nodes.len()
            invariant
                i <= nodes@.len(),
                init_vals@.len() >= base,
                nested == (if konst { Rule::ConstInitVal } else { Rule::InitVal }),
                value == (if konst { Rule::ConstExp } else { Rule::Exp }),
                forall|k: int| 0 <= k <= nodes@.len() ==> chk_init_vals(s0, #[trigger] nodes@.take(k), konst) is Some,
                chk_init_vals(s0, nodes@.take(i as int), konst)
                    == Some((self@, if going { Some((init_vals@.len() - base) as nat) } else { None })),
            decreases nodes.len() - i,
        {
            assert(nodes@.take(i + 1).drop_last() =~= nodes@.take(i as int));
            assert(nodes@.take(i + 1).last() == nodes@[i as int]);
            assert(chk_init_vals(s0, nodes@.take(i + 1), konst) is Some);
            let val = &nodes[i];
            if going {
                if val.rule == nested {
                    if !self.analyze_init_val(&val.inner, konst, init_vals) {
                        going = false;
                    }
                } else if val.rule == value {
                    let ty = if konst {
                        self.analyze_add_exp(&val.inner[0])
                    } else {
                        self.analyze_exp(val)
                    };
                    match ty {
                        Some(t) => init_vals.push(t),
                        None => {
                            going = false;
                        },
                    }
                }
            }
            i = i + 1;
        }
        assert(nodes@.take(nodes@.len() as int) =~= nodes@);
        going
    }

    /// Checks a function definition (see `chk_func_def`).
    fn analyze_func_def(&mut self, func_def: &CheckPair)
        requires
            chk_func_def(old(self)@, *func_def) is Some,
        ensures
            final(self)@ == chk_func_def(old(self)@, *func_def)->0,
        decreases func_def, 4int,
    {
        let k = &func_def.inner;
        let func_type = &k[0].inner[0];
        let func_name = &k[1];
        let ident_name = func_name.text.as_str();
        let line_no = Self::get_line_no(func_name);
        if self.check_same_ident(ident_name, line_no, 1) {
            return;
        }
        let func_ty = if func_type.rule == Rule::Int { Type::Int } else { Type::Void };
        proof { lemma_type_view(func_ty); }
        let function = Func::new(Vec::new(), func_ty);
        assert(types_view(function.params@) =~= Seq::<TypeView>::empty());
        let ft = Type::Func(function);
        proof { lemma_type_view(ft); }
        self.scope_stack.insert_current(owned(ident_name), ft);
        self.scope_stack.push(ScopeKey::Ident(owned(ident_name)));
        let params = &k[3];
        let body: usize = if params.rule == Rule::FuncFParams {
            self.analyze_func_params(params);
            5
        } else {
            4
        };
        let func_body = &k[body];
        self.analyze_items(&func_body.inner, true);
        self.scope_stack.pop();
    }

    /// Checks the parameters of a function in turn.
    fn analyze_func_params(&mut self, params: &CheckPair)
        requires
            chk_func_params(old(self)@, *params) is Some,
        ensures
            final(self)@ == chk_func_params(old(self)@, *params)->0,
        decreases params, 3int,
    {
        let nodes = &params.inner;
        let ghost s0 = self@;
        proof { lemma_params_prefix(s0, nodes@); }
        let mut i: usize = 0;
        assert(nodes@.take(0) =~= Seq::<CheckPair>::empty());
        while i < nodes.len()
            invariant
                i <= nodes@.len(),
                nodes == &params.inner,
                forall|k: int| 0 <= k <= nodes@.len() ==> chk_params(s0, #[trigger] nodes@.take(k)) is Some,
                chk_params(s0, nodes@.take(i as int)) == Some(self@),
            decreases nodes.len() - i,
        {
            assert(nodes@.take(i + 1).drop_last() =~= nodes@.take(i as int));
            assert(nodes@.take(i + 1).last() == nodes@[i as int]);
            assert(chk_params(s0, nodes@.take(i + 1)) is Some);
            let param = &nodes[i];
            if param.rule == Rule::FuncFParam {
                self.analyze_func_param(param);
            }
            i = i + 1;
        }
        assert(nodes@.take(nodes@.len() as int) =~= nodes@);
    }

    /// Checks a parameter, defines it, and adds it to its function (see
    /// `chk_func_param`).
    fn analyze_func_param(&mut self, param: &CheckPair)
        requires
            chk_func_param(old(self)@, *param) is Some,
        ensures
            final(self)@ == chk_func_param(old(self)@, *param)->0,
        decreases param, 3int,
    {
        let k = &param.inner;
        let ident = &k[1];
        let ident_name = ident.text.as_str();
        let line_no = Self::get_line_no(ident);
        if self.check_same_ident(ident_name, line_no, 0) {
            return;
        }
        let ty = if k.len() > 2 {
            let mut sizes: Vec<usize> = Vec::new();
            sizes.push(0);
            let ghost xs = k@.subrange(3, k@.len() as int);
            proof { lemma_param_dims_prefix(xs); }
            let mut i: usize = 3;
            assert(xs.take(0) =~= Seq::<CheckPair>::empty());
            assert(sizes_view(sizes@) =~= seq![0nat] + param_dims(xs.take(0))->0);
            while i < k.len()
                invariant
                    3 <= i <= k@.len(),
                    xs == k@.subrange(3, k@.len() as int),
                    forall|j: int| 0 <= j <= xs.len() ==> param_dims(#[trigger] xs.take(j)) is Some,
                    sizes_view(sizes@) == seq![0nat] + param_dims(xs.take(i - 3))->0,
                decreases k.len() - i,
            {
                assert(xs.take(i - 3 + 1).drop_last() =~= xs.take(i - 3));
                assert(xs.take(i - 3 + 1).last() == k@[i as int]);
                assert(param_dims(xs.take(i - 3 + 1)) is Some);
                let next = &k[i];
                if next.rule == Rule::IntArr {
                    let exp = next.inner[1].text.as_str();
                    match parse_usize(exp) {
                        Some(d) => {
                            let ghost before = sizes@;
                            sizes.push(d);
                            assert(sizes_view(sizes@) =~= sizes_view(before).push(d as nat));
                        },
                        None => {},
                    }
                }
                assert(sizes_view(sizes@) =~= seq![0nat] + param_dims(xs.take(i - 3 + 1))->0);
                i = i + 1;
            }
            assert(xs.take(xs.len() as int) =~= xs);
            build_array(Type::Int, &sizes)
        } else {
            Type::Int
        };
        let param_ty = ty.duplicate();
        self.scope_stack.insert_current(owned(ident_name), ty);
        let func_key = match self.scope_stack.get_current_scope_key() {
            Some(key) => key,
            None => return,
        };
        let updated = match self.scope_stack.get(func_key.as_str()) {
            Some(Type::Func(function)) => {
                proof { lemma_type_view(Type::Func(*function)); }
                let mut params = crate::check::scope::duplicate_types(&function.params);
                let ghost before = params@;
                params.push(param_ty);
                assert(params@.drop_last() =~= before);
                assert(types_view(params@) == types_view(function.params@).push(param_ty@));
                let ret = function.return_type.duplicate();
                let f = Type::Func(Func::new(params, ret));
                proof { lemma_type_view(f); }
                Some(f)
            },
            Some(other) => {
                proof { lemma_type_view(*other); }
                None
            },
            None => None,
        };
        match updated {
            Some(f) => self.scope_stack.define(&ScopeKey::Global, func_key, f),
            None => {},
        }
    }
}


/// A recorded error with its report built.
pub open spec fn built(e: ErrRecord) -> ErrRecord {
    ErrRecord {
        output: match e.error {
            Some(v) => report_text(e.line_no, v),
            None => Seq::empty(),
        },
        ..e
    }
}

/// The report of the errors: each one's report and a line break, in order.
pub open spec fn errors_report(es: Seq<ErrRecord>) -> Seq<char>
    decreases es.len(),
{
    if es.len() == 0 {
        Seq::empty()
    } else {
        errors_report(es.drop_last()) + built(es.last()).output + "\n"@
    }
}

impl<'a> Checker<'a> {
    /// Builds the report of every error found, appends it to the output,
    /// and gives the whole output.
    pub fn generate_error_output(&mut self) -> (r: String)
        ensures
            final(self)@.input == old(self)@.input,
            final(self)@.scopes == old(self)@.scopes,
            final(self)@.errors == old(self)@.errors.map_values(|e: ErrRecord| built(e)),
            final(self)@.output == old(self)@.output + errors_report(old(self)@.errors),
            r@ == final(self)@.output,
    {
        let ghost es = old(self)@.errors;
        let ghost out0 = self.output@;
        let mut pending: Vec<SemanticError> = Vec::new();
        core::mem::swap(&mut pending, &mut self.errors);
        assert(errors_view(pending@) == es);
        let ghost all = pending@;
        assert(all.len() == pending.len());
        let mut i: usize = 0;
        assert(errors_view(self.errors@) =~= es.take(0).map_values(|e: ErrRecord| built(e)));
        assert(es.take(0) =~= Seq::<ErrRecord>::empty());
        assert(self.output@ =~= out0 + errors_report(es.take(0)));
        while pending.len() > 0
            invariant
                i + pending@.len() == all.len(),
                all.len() <= usize::MAX,
                es == errors_view(all),
                pending@ == all.skip(i as int),
                errors_view(self.errors@) == es.take(i as int).map_values(|e: ErrRecord| built(e)),
                self.output@ == out0 + errors_report(es.take(i as int)),
                self.scope_stack@ == old(self).scope_stack@,
                self.input == old(self).input,
            decreases pending.len(),
        {
            let mut error = pending.remove(0);
            assert(error == all[i as int]);
            assert(pending@ =~= all.skip(i + 1));
            let ghost e = es[i as int];
            assert(e == ErrRecord { line_no: error.line_no(), error: error.error(), output: error.output() });
            error.build_str();
            self.output.append(error.get_output().as_str());
            self.output.append("\n");
            let ghost before = self.errors@;
            self.errors.push(error);
            assert(es.take(i + 1).drop_last() =~= es.take(i as int));
            assert(es.take(i + 1).last() == e);
            assert(errors_view(self.errors@) =~= errors_view(before).push(built(e)));
            assert(es.take(i + 1).map_values(|e: ErrRecord| built(e))
                =~= es.take(i as int).map_values(|e: ErrRecord| built(e)).push(built(e)));
            assert(errors_view(self.errors@) =~= es.take(i + 1).map_values(|e: ErrRecord| built(e)));
            assert(self.output@ =~= out0 + errors_report(es.take(i + 1)));
            i = i + 1;
        }
        assert(es.take(i as int) =~= es);
        self.output.clone()
    }

    /// Checks the declarations and definitions of a program in turn, then
    /// gives the report of the errors found; a program that did not parse
    /// (`None`) is reported as a syntax error.
    pub fn syn_check(&mut self, declarations: Option<&Vec<CheckPair>>) -> (r: String)
        requires
            declarations matches Some(d) ==> chk_decls(old(self)@, d@) is Some,
        ensures
            match declarations {
                Some(d) => {
                    &&& final(self)@.scopes == (chk_decls(old(self)@, d@)->0).scopes
                    &&& final(self)@.errors == (chk_decls(old(self)@, d@)->0).errors.map_values(|e: ErrRecord| built(e))
                    &&& final(self)@.output == (chk_decls(old(self)@, d@)->0).output
                        + errors_report((chk_decls(old(self)@, d@)->0).errors)
                    &&& r@ == final(self)@.output
                },
                None => final(self)@ == old(self)@ && r@ == "Syntax error\n"@,
            },
    {
        match declarations {
            Some(d) => {
                self.analyze_declarations(d);
                self.generate_error_output()
            }
            None => {
                let r = String::from_str("Syntax error\n");
                proof { reveal_strlit("Syntax error\n"); }
                r
            }
        }
    }
}


/// The errors of `b` begin with those of `a`.
pub open spec fn errors_grow(a: Seq<ErrRecord>, b: Seq<ErrRecord>) -> bool {
    a.len() <= b.len() && forall|i: int| 0 <= i < a.len() ==> #[trigger] b[i] == a[i]
}

/// What checking an expression keeps: everything but the errors, which
/// only grow.
pub open spec fn quiet(s: CheckerView, t: CheckerView) -> bool {
    t.input == s.input && t.output == s.output && t.scopes == s.scopes && errors_grow(s.errors, t.errors)
}

/// What checking a declaration or statement keeps: the source, the output
/// and the active scopes; the errors only grow.
pub open spec fn balanced(s: CheckerView, t: CheckerView) -> bool {
    t.input == s.input && t.output == s.output && t.scopes.stack == s.scopes.stack && errors_grow(s.errors, t.errors)
}

/// Checking an expression changes no scope and keeps every error found
/// before it.
pub proof fn lemma_exp_quiet(s: CheckerView, p: CheckPair)
    requires
        chk_exp(s, p) is Some,
    ensures
        quiet(s, (chk_exp(s, p)->0).0),
    decreases p, 3int,
{
    lemma_add_quiet(s, p.inner@[0]);
}

proof fn lemma_add_quiet(s: CheckerView, p: CheckPair)
    requires
        chk_add(s, p) is Some,
    ensures
        quiet(s, (chk_add(s, p)->0).0),
    decreases p, 3int,
{
    let k = p.inner@;
    if k.len() == 1 {
        lemma_mul_quiet(s, k[0]);
    } else if k.len() >= 3 {
        lemma_mul_quiet(s, k[0]);
        if let Some((s1, Some(_))) = chk_mul(s, k[0]) {
            lemma_mul_quiet(s1, k[2]);
        }
    }
}

proof fn lemma_mul_quiet(s: CheckerView, p: CheckPair)
    requires
        chk_mul(s, p) is Some,
    ensures
        quiet(s, (chk_mul(s, p)->0).0),
    decreases p, 3int,
{
    let k = p.inner@;
    if k.len() == 1 {
        lemma_unary_quiet(s, k[0]);
    } else if k.len() >= 3 {
        lemma_unary_quiet(s, k[0]);
        if let Some((s1, Some(_))) = chk_unary(s, k[0]) {
            lemma_unary_quiet(s1, k[2]);
        }
    }
}

proof fn lemma_unary_quiet(s: CheckerView, p: CheckPair)
    requires
        chk_unary(s, p) is Some,
    ensures
        quiet(s, (chk_unary(s, p)->0).0),
    decreases p, 3int,
{
    let k = p.inner@;
    if k[0].rule == Rule::CallExp {
        lemma_call_quiet(s, k[0]);
    } else if k[0].rule == Rule::PrimaryExp {
        lemma_primary_quiet(s, k[0]);
    } else if k[0].rule == Rule::UnaryOpExp {
        lemma_unary_op_quiet(s, k[0]);
    }
}

proof fn lemma_unary_op_quiet(s: CheckerView, p: CheckPair)
    requires
        chk_unary_op(s, p) is Some,
    ensures
        quiet(s, (chk_unary_op(s, p)->0).0),
    decreases p, 3int,
{
    if p.inner@.len() >= 2 {
        lemma_unary_quiet(s, p.inner@[1]);
    }
}

proof fn lemma_call_quiet(s: CheckerView, p: CheckPair)
    requires
        chk_call(s, p) is Some,
    ensures
        quiet(s, (chk_call(s, p)->0).0),
    decreases p, 3int,
{
    let k = p.inner@;
    if k.len() >= 3 {
        if let Some((s1, false)) = undefined(s, k[0].text@, p.line as nat, 1) {
            if k[2].rule == Rule::FuncRParams {
                lemma_args_quiet(s1, k[2].inner@);
            }
        }
    }
}

proof fn lemma_args_quiet(s: CheckerView, nodes: Seq<CheckPair>)
    requires
        chk_args(s, nodes) is Some,
    ensures
        quiet(s, (chk_args(s, nodes)->0).0),
    decreases nodes, 0int,
{
    if nodes.len() > 0 {
        lemma_args_quiet(s, nodes.drop_last());
        let s1 = (chk_args(s, nodes.drop_last())->0).0;
        if nodes.last().rule == Rule::Exp {
            lemma_exp_quiet(s1, nodes.last());
        }
    }
}

proof fn lemma_primary_quiet(s: CheckerView, p: CheckPair)
    requires
        chk_primary(s, p) is Some,
    ensures
        quiet(s, (chk_primary(s, p)->0).0),
    decreases p, 3int,
{
    let k = p.inner@;
    if k[0].rule == Rule::LVal {
        lemma_lval_quiet(s, k[0]);
    } else if k[0].rule != Rule::Number {
        lemma_exp_quiet(s, k[1]);
    }
}

proof fn lemma_lval_quiet(s: CheckerView, p: CheckPair)
    requires
        chk_lval(s, p) is Some,
    ensures
        quiet(s, (chk_lval(s, p)->0).0),
    decreases p, 3int,
{
    let k = p.inner@;
    if let Some((s1, false)) = undefined(s, k[0].text@, p.line as nat, 0) {
        if k.len() > 1 {
            if let Some(Some(t)) = type_of(s1, k[0].text@) {
                if t is Array {
                    lemma_indices_quiet(s1, k.subrange(2, k.len() as int));
                }
            }
        }
    }
}

proof fn lemma_indices_quiet(s: CheckerView, nodes: Seq<CheckPair>)
    requires
        chk_indices(s, nodes) is Some,
    ensures
        quiet(s, (chk_indices(s, nodes)->0).0),
    decreases nodes, 0int,
{
    if nodes.len() > 0 {
        lemma_indices_quiet(s, nodes.drop_last());
        let s1 = (chk_indices(s, nodes.drop_last())->0).0;
        if nodes.last().rule == Rule::Exp {
            lemma_exp_quiet(s1, nodes.last());
        }
    }
}

/// Checking a condition changes no scope and keeps every error found before it.
pub proof fn lemma_cond_quiet(s: CheckerView, p: CheckPair)
    requires
        chk_cond(s, p) is Some,
    ensures
        quiet(s, chk_cond(s, p)->0),
    decreases p, 3int,
{
    lemma_logic_quiet(s, p.inner@[0], 0);
}

proof fn lemma_logic_quiet(s: CheckerView, p: CheckPair, level: nat)
    requires
        chk_logic(s, p, level) is Some,
    ensures
        quiet(s, (chk_logic(s, p, level)->0).0),
    decreases p, 3int,
{
    lemma_operands_quiet(s, p.inner@, level);
}

proof fn lemma_operands_quiet(s: CheckerView, nodes: Seq<CheckPair>, level: nat)
    requires
        chk_operands(s, nodes, level) is Some,
    ensures
        quiet(s, (chk_operands(s, nodes, level)->0).0),
    decreases nodes, 0int,
{
    if nodes.len() > 0 {
        lemma_operands_quiet(s, nodes.drop_last(), level);
        if let Some((s1, Some(_))) = chk_operands(s, nodes.drop_last(), level) {
            let x = nodes.last();
            if x.rule == operand_rule(level) {
                if level < 3 {
                    lemma_logic_quiet(s1, x, level + 1);
                } else {
                    lemma_add_quiet(s1, x);
                }
            }
        }
    }
}

/// Checking an initializer changes no scope and keeps every error found before it.
pub proof fn lemma_init_quiet(s: CheckerView, p: CheckPair)
    requires
        chk_init(s, p) is Some,
    ensures
        quiet(s, (chk_init(s, p)->0).0),
    decreases p, 3int,
{
    if p.rule == Rule::InitVal || p.rule == Rule::ConstInitVal {
        lemma_init_vals_quiet(s, p.inner@, p.rule == Rule::ConstInitVal);
    }
}

proof fn lemma_init_vals_quiet(s: CheckerView, nodes: Seq<CheckPair>, konst: bool)
    requires
        chk_init_vals(s, nodes, konst) is Some,
    ensures
        quiet(s, (chk_init_vals(s, nodes, konst)->0).0),
    decreases nodes, 0int,
{
    if nodes.len() > 0 {
        lemma_init_vals_quiet(s, nodes.drop_last(), konst);
        if let Some((s1, Some(_))) = chk_init_vals(s, nodes.drop_last(), konst) {
            let x = nodes.last();
            let nested = if konst { Rule::ConstInitVal } else { Rule::InitVal };
            let value = if konst { Rule::ConstExp } else { Rule::Exp };
            if x.rule == nested {
                lemma_init_vals_quiet(s1, x.inner@, konst);
            } else if x.rule == value {
                if konst {
                    lemma_add_quiet(s1, x.inner@[0]);
                } else {
                    lemma_exp_quiet(s1, x);
                }
            }
        }
    }
}


/// Checking the declarations of a program leaves the active scopes as they
/// were (every scope opened is closed again) and keeps every error found
/// before.
pub proof fn lemma_decls_balanced(s: CheckerView, nodes: Seq<CheckPair>)
    requires
        chk_decls(s, nodes) is Some,
    ensures
        balanced(s, chk_decls(s, nodes)->0),
    decreases nodes, 0int,
{
    if nodes.len() > 0 {
        lemma_decls_balanced(s, nodes.drop_last());
        lemma_declaration_balanced(chk_decls(s, nodes.drop_last())->0, nodes.last());
    }
}

/// Checking a declaration or definition leaves the active scopes as they
/// were and keeps every error found before.
pub proof fn lemma_declaration_balanced(s: CheckerView, p: CheckPair)
    requires
        chk_declaration(s, p) is Some,
    ensures
        balanced(s, chk_declaration(s, p)->0),
    decreases p, 5int,
{
    if p.rule == Rule::Decl {
        lemma_decls_balanced(s, p.inner@);
    } else if p.rule == Rule::ConstDecl || p.rule == Rule::VarDecl {
        lemma_var_defs_balanced(s, p.inner@);
    } else if p.rule == Rule::FuncDef {
        lemma_func_def_balanced(s, p);
    }
}

proof fn lemma_var_defs_balanced(s: CheckerView, nodes: Seq<CheckPair>)
    requires
        chk_var_defs(s, nodes) is Some,
    ensures
        balanced(s, chk_var_defs(s, nodes)->0),
    decreases nodes, 0int,
{
    if nodes.len() > 0 {
        lemma_var_defs_balanced(s, nodes.drop_last());
        if nodes.last().rule == Rule::VarDef {
            lemma_def_balanced(chk_var_defs(s, nodes.drop_last())->0, nodes.last());
        }
    }
}

proof fn lemma_def_balanced(s: CheckerView, p: CheckPair)
    requires
        chk_def(s, p) is Some,
    ensures
        balanced(s, chk_def(s, p)->0),
    decreases p, 3int,
{
    let k = p.inner@;
    if let Some((s1, false)) = same_ident(s, k[0].text@, k[0].line as nat, 0) {
        if k.len() > 1 {
            if k[1].rule == Rule::ArrayDims {
                if k.len() > 3 {
                    lemma_init_quiet(s1, k[3]);
                }
            } else if k.len() > 2 {
                lemma_init_quiet(s1, k[2]);
            }
        }
    }
}

proof fn lemma_func_def_balanced(s: CheckerView, p: CheckPair)
    requires
        chk_func_def(s, p) is Some,
    ensures
        balanced(s, chk_func_def(s, p)->0),
    decreases p, 4int,
{
    let k = p.inner@;
    let name = k[1].text@;
    if let Some((s1, false)) = same_ident(s, name, k[1].line as nat, 1) {
        let ret = if k[0].inner@[0].rule == Rule::Int { TypeView::Int } else { TypeView::Void };
        let s2 = define_current(s1, name, TypeView::Func(Seq::empty(), Box::new(ret)))->0;
        let s3 = push_scope(s2, KeyView::Ident(name));
        let has_params = k[3].rule == Rule::FuncFParams;
        let body = if has_params { 5int } else { 4int };
        if has_params {
            lemma_params_balanced(s3, k[3].inner@);
        }
        let s4 = if has_params { chk_func_params(s3, k[3])->0 } else { s3 };
        lemma_items_balanced(s4, k[body].inner@, true);
        assert(s3.scopes.stack.drop_last() =~= s.scopes.stack);
    }
}

proof fn lemma_params_balanced(s: CheckerView, nodes: Seq<CheckPair>)
    requires
        chk_params(s, nodes) is Some,
    ensures
        balanced(s, chk_params(s, nodes)->0),
    decreases nodes, 0int,
{
    if nodes.len() > 0 {
        lemma_params_balanced(s, nodes.drop_last());
    }
}

proof fn lemma_items_balanced(s: CheckerView, nodes: Seq<CheckPair>, only_items: bool)
    requires
        chk_items(s, nodes, only_items) is Some,
    ensures
        balanced(s, chk_items(s, nodes, only_items)->0),
    decreases nodes, 0int,
{
    if nodes.len() > 0 {
        lemma_items_balanced(s, nodes.drop_last(), only_items);
        if !only_items || nodes.last().rule == Rule::BlockItem {
            lemma_block_item_balanced(chk_items(s, nodes.drop_last(), only_items)->0, nodes.last());
        }
    }
}

proof fn lemma_block_item_balanced(s: CheckerView, p: CheckPair)
    requires
        chk_block_item(s, p) is Some,
    ensures
        balanced(s, chk_block_item(s, p)->0),
    decreases p, 6int,
{
    if p.rule == Rule::Decl {
        lemma_declaration_balanced(s, p);
    } else if p.rule == Rule::Stmt {
        lemma_stmt_balanced(s, p);
    } else if p.rule == Rule::BlockItem {
        lemma_items_balanced(s, p.inner@, false);
    }
}

/// Checking a statement leaves the active scopes as they were (a block's
/// scope is closed at its end) and keeps every error found before.
pub proof fn lemma_stmt_balanced(s: CheckerView, p: CheckPair)
    requires
        chk_stmt(s, p) is Some,
    ensures
        balanced(s, chk_stmt(s, p)->0),
    decreases p, 5int,
{
    lemma_stmt_parts_balanced(s, p.inner@);
}

proof fn lemma_stmt_parts_balanced(s: CheckerView, nodes: Seq<CheckPair>)
    requires
        chk_stmt_parts(s, nodes) is Some,
    ensures
        balanced(s, chk_stmt_parts(s, nodes)->0),
    decreases nodes, 0int,
{
    if nodes.len() > 0 {
        lemma_stmt_parts_balanced(s, nodes.drop_last());
        lemma_stmt_part_balanced(chk_stmt_parts(s, nodes.drop_last())->0, nodes.last());
    }
}

proof fn lemma_stmt_part_balanced(s: CheckerView, c: CheckPair)
    requires
        chk_stmt_part(s, c) is Some,
    ensures
        balanced(s, chk_stmt_part(s, c)->0),
    decreases c, 4int,
{
    if c.rule == Rule::AssignStmt {
        let k = c.inner@;
        lemma_lval_quiet(s, k[0]);
        lemma_exp_quiet((chk_lval(s, k[0])->0).0, k[2]);
    } else if c.rule == Rule::IfStmt {
        lemma_if_balanced(s, c);
    } else if c.rule == Rule::WhileStmt {
        let k = c.inner@;
        lemma_cond_quiet(s, k[2]);
        lemma_stmt_balanced(chk_cond(s, k[2])->0, k[4]);
    } else if c.rule == Rule::ReturnStmt {
        let k = c.inner@;
        if k[1].rule == Rule::Exp {
            lemma_exp_quiet(s, k[1]);
        }
    } else if c.rule == Rule::ExpStmt {
        lemma_exp_quiet(s, c.inner@[0]);
    } else if c.rule == Rule::Block {
        let s1 = push_scope(s, KeyView::InnerBlock);
        lemma_items_balanced(s1, c.inner@, true);
        assert(s1.scopes.stack.drop_last() =~= s.scopes.stack);
    }
}

proof fn lemma_if_balanced(s: CheckerView, p: CheckPair)
    requires
        chk_if(s, p) is Some,
    ensures
        balanced(s, chk_if(s, p)->0),
    decreases p, 3int,
{
    let k = p.inner@;
    lemma_cond_quiet(s, k[2]);
    let s1 = chk_cond(s, k[2])->0;
    lemma_stmt_balanced(s1, k[4]);
    if k.len() > 5 {
        lemma_stmt_balanced(chk_stmt(s1, k[4])->0, k[6]);
    }
}


/// A variable defined again in the scope that already defines it is
/// reported as a redefinition, and the earlier definition stays.
pub proof fn lemma_redefinition_reported(s: CheckerView, p: CheckPair)
    requires
        p.inner@.len() > 0,
        s.scopes.stack.len() > 0,
        s.scopes.scopes.contains_key(s.scopes.stack.last()),
        table_lookup(s.scopes.scopes[s.scopes.stack.last()], p.inner@[0].text@) is Some,
    ensures
        chk_def(s, p) == Some(add_error(s, ErrorKind::RedefineVal, p.inner@[0].line as nat, p.inner@[0].text@)),
{
}

/// A scalar defined without an initializer in a scope that does not
/// define it yet is defined there as `int`, and from then on the name is
/// found as `int`, whatever outer scopes say of it.
pub proof fn lemma_definition_shadows(s: CheckerView, p: CheckPair)
    requires
        p.inner@.len() == 1,
        stack_ready(s.scopes),
        s.scopes.stack.len() > 0,
        table_lookup(s.scopes.scopes[s.scopes.stack.last()], p.inner@[0].text@) is None,
    ensures
        chk_def(s, p) is Some,
        lookup((chk_def(s, p)->0).scopes, p.inner@[0].text@) == Some(TypeView::Int),
{
    let name = p.inner@[0].text@;
    let top = s.scopes.stack.last();
    assert(s.scopes.scopes.contains_key(top));
    let t = chk_def(s, p)->0;
    assert(t == define_in(s, top, name, TypeView::Int));
    let table = s.scopes.scopes[top].push((name, TypeView::Int));
    lemma_last_key_push(s.scopes.scopes[top], name, TypeView::Int, name);
    assert(t.scopes.scopes[t.scopes.stack.last()] == table);
    assert(table_lookup(table, name) == Some(TypeView::Int));
    super::scope::lemma_lookup_innermost_first(t.scopes, name);
}



/// A name used where no active scope defines it is reported as undefined
/// and gives no type; a defined name used as it stands gives the type of
/// its innermost definition, with nothing reported.
pub proof fn lemma_use_of_a_name(s: CheckerView, p: CheckPair)
    requires
        p.inner@.len() > 0,
        stack_ready(s.scopes),
    ensures
        lookup(s.scopes, p.inner@[0].text@) is None ==> chk_lval(s, p)
            == Some((add_error(s, ErrorKind::UndefinedVal, p.line as nat, p.inner@[0].text@), None::<TypeView>)),
        lookup(s.scopes, p.inner@[0].text@) is Some && p.inner@.len() == 1 ==> chk_lval(s, p)
            == Some((s, lookup(s.scopes, p.inner@[0].text@))),
{
}

} // verus!
