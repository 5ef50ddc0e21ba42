use sysy_compiler::check::{CheckPair, Checker, Rule};

fn t(rule: Rule, text: &str, line: usize, inner: Vec<CheckPair>) -> CheckPair {
    CheckPair { rule, text: text.to_string(), line, inner }
}

fn leaf(rule: Rule, text: &str, line: usize) -> CheckPair {
    t(rule, text, line, Vec::new())
}

fn wrap_unary(unary: CheckPair, text: &str, line: usize) -> CheckPair {
    t(Rule::Exp, text, line, vec![t(Rule::AddExp, text, line, vec![t(Rule::MulExp, text, line, vec![
        t(Rule::UnaryExp, text, line, vec![unary]),
    ])])])
}

fn num(v: &str, line: usize) -> CheckPair {
    wrap_unary(t(Rule::PrimaryExp, v, line, vec![t(Rule::Number, v, line, vec![leaf(Rule::IntConst, v, line)])]), v, line)
}

fn lval(name: &str, index: Option<CheckPair>, line: usize) -> CheckPair {
    let mut kids = vec![leaf(Rule::Ident, name, line)];
    if let Some(i) = index {
        kids.push(leaf(Rule::OpenBracket, "[", line));
        kids.push(i);
        kids.push(leaf(Rule::CloseBracket, "]", line));
    }
    t(Rule::LVal, name, line, kids)
}

fn var(name: &str, line: usize) -> CheckPair {
    wrap_unary(t(Rule::PrimaryExp, name, line, vec![lval(name, None, line)]), name, line)
}

fn call(name: &str, args: Vec<CheckPair>, text: &str, line: usize) -> CheckPair {
    let mut kids = vec![leaf(Rule::Ident, name, line), leaf(Rule::OpenParen, "(", line)];
    if !args.is_empty() {
        kids.push(t(Rule::FuncRParams, "", line, args));
    }
    kids.push(leaf(Rule::CloseParen, ")", line));
    wrap_unary(t(Rule::CallExp, text, line, kids), text, line)
}

fn sum(a: CheckPair, b: CheckPair, text: &str, line: usize) -> CheckPair {
    let unary = |e: CheckPair| e.inner.into_iter().next().unwrap().inner.into_iter().next().unwrap();
    t(Rule::Exp, text, line, vec![t(Rule::AddExp, text, line, vec![unary(a), leaf(Rule::Plus, "+", line), unary(b)])])
}

fn item(part: CheckPair) -> CheckPair {
    t(Rule::BlockItem, "", part.line, vec![t(Rule::Stmt, "", part.line, vec![part])])
}

fn assign(target: CheckPair, value: CheckPair, text: &str, line: usize) -> CheckPair {
    t(Rule::AssignStmt, text, line, vec![target, leaf(Rule::Assign, "=", line), value, leaf(Rule::Semicolon, ";", line)])
}

fn exp_stmt(e: CheckPair) -> CheckPair {
    let line = e.line;
    t(Rule::ExpStmt, "", line, vec![e, leaf(Rule::Semicolon, ";", line)])
}

fn ret(value: Option<CheckPair>, text: &str, line: usize) -> CheckPair {
    let mut kids = vec![leaf(Rule::Return, "return", line)];
    if let Some(v) = value {
        kids.push(v);
    }
    kids.push(leaf(Rule::Semicolon, ";", line));
    t(Rule::ReturnStmt, text, line, kids)
}

fn int_param(name: &str, line: usize) -> CheckPair {
    t(Rule::FuncFParam, name, line, vec![leaf(Rule::BType, "int", line), leaf(Rule::Ident, name, line)])
}

fn func(ret_type: Rule, name: &str, params: Vec<CheckPair>, items: Vec<CheckPair>, line: usize) -> CheckPair {
    let mut kids = vec![
        t(Rule::FuncType, "", line, vec![leaf(ret_type, "", line)]),
        leaf(Rule::Ident, name, line),
        leaf(Rule::OpenParen, "(", line),
    ];
    if !params.is_empty() {
        kids.push(t(Rule::FuncFParams, "", line, params));
    }
    kids.push(leaf(Rule::CloseParen, ")", line));
    let mut block = vec![leaf(Rule::OpenBrace, "{", line)];
    block.extend(items);
    block.push(leaf(Rule::CloseBrace, "}", line));
    kids.push(t(Rule::Block, "", line, block));
    t(Rule::FuncDef, name, line, kids)
}

fn int_decl(name: &str, line: usize) -> CheckPair {
    t(Rule::Decl, "", line, vec![t(Rule::VarDecl, "", line, vec![
        leaf(Rule::BType, "int", line),
        t(Rule::VarDef, name, line, vec![leaf(Rule::Ident, name, line)]),
        leaf(Rule::Semicolon, ";", line),
    ])])
}

fn array_decl(name: &str, size: &str, line: usize) -> CheckPair {
    t(Rule::Decl, "", line, vec![t(Rule::VarDecl, "", line, vec![
        leaf(Rule::BType, "int", line),
        t(Rule::VarDef, name, line, vec![
            leaf(Rule::Ident, name, line),
            t(Rule::ArrayDims, "", line, vec![
                leaf(Rule::OpenBracket, "[", line),
                leaf(Rule::ConstExp, size, line),
                leaf(Rule::CloseBracket, "]", line),
            ]),
        ]),
        leaf(Rule::Semicolon, ";", line),
    ])])
}

fn check_program(program: Vec<CheckPair>) -> String {
    let mut checker = Checker::new("");
    checker.syn_check(Some(&program))
}

#[test]
fn a_correct_program_has_no_errors() {
    let program = vec![
        int_decl("g", 1),
        func(Rule::Int, "main", vec![], vec![
            item(assign(lval("g", None, 3), num("1", 3), "g = 1;", 3)),
            item(ret(Some(var("g", 4)), "return g;", 4)),
        ], 2),
    ];
    assert_eq!(check_program(program), "");
}

#[test]
fn undefined_variable_is_reported() {
    let program = vec![func(Rule::Int, "main", vec![], vec![
        item(assign(lval("a", None, 2), num("1", 2), "a = 1;", 2)),
        item(ret(Some(num("0", 3)), "return 0;", 3)),
    ], 1)];
    assert_eq!(check_program(program), "Error type 1 at Line 2: Undefined variable -> a\n");
}

#[test]
fn undefined_function_is_reported() {
    let program = vec![func(Rule::Void, "main", vec![], vec![item(exp_stmt(call("f", vec![], "f()", 2)))], 1)];
    assert_eq!(check_program(program), "Error type 2 at Line 2: Undefined function -> f\n");
}

#[test]
fn redefinitions_are_reported() {
    let program = vec![
        int_decl("a", 1),
        int_decl("a", 2),
        func(Rule::Void, "f", vec![], vec![], 3),
        func(Rule::Void, "f", vec![], vec![], 4),
    ];
    assert_eq!(
        check_program(program),
        "Error type 3 at Line 2: Redefined variable -> a\nError type 4 at Line 4: Redefined function -> f\n"
    );
}

#[test]
fn shadowing_in_an_inner_scope_is_allowed() {
    let program = vec![
        int_decl("a", 1),
        func(Rule::Void, "main", vec![], vec![t(Rule::BlockItem, "", 3, vec![int_decl("a", 3)])], 2),
    ];
    assert_eq!(check_program(program), "");
}

#[test]
fn assignment_mismatches_are_reported() {
    let program = vec![
        array_decl("arr", "2", 1),
        int_decl("b", 2),
        func(Rule::Void, "f", vec![], vec![
            item(assign(lval("b", None, 4), var("arr", 4), "b = arr;", 4)),
            item(assign(lval("f", None, 5), num("1", 5), "f = 1;", 5)),
        ], 3),
    ];
    assert_eq!(
        check_program(program),
        "Error type 5 at Line 4: Type mismatched for assignment -> b = arr;\n\
         Error type 11 at Line 5: The left-hand side of an assignment must be a variable -> f = 1;\n"
    );
}

#[test]
fn operator_on_an_array_is_reported() {
    let program = vec![
        array_decl("arr", "2", 1),
        func(Rule::Void, "main", vec![], vec![item(exp_stmt(sum(var("arr", 3), num("1", 3), "arr + 1", 3)))], 2),
    ];
    assert_eq!(check_program(program), "Error type 6 at Line 3: Type mismatched for op -> arr + 1\n");
}

#[test]
fn return_mismatch_is_reported() {
    let program = vec![func(Rule::Void, "f", vec![], vec![item(ret(Some(num("1", 2)), "return 1;", 2))], 1)];
    assert_eq!(check_program(program), "Error type 7 at Line 2: Type mismatched for return -> return 1;\n");
}

#[test]
fn calls_must_fit_the_parameters() {
    let program = vec![
        func(Rule::Int, "f", vec![int_param("x", 1)], vec![item(ret(Some(var("x", 1)), "return x;", 1))], 1),
        int_decl("a", 2),
        func(Rule::Void, "main", vec![], vec![
            item(exp_stmt(call("f", vec![], "f()", 4))),
            item(exp_stmt(call("f", vec![num("1", 5)], "f(1)", 5))),
            item(exp_stmt(call("a", vec![], "a()", 6))),
        ], 3),
    ];
    assert_eq!(
        check_program(program),
        "Error type 8 at Line 4: Function is not applicable for arguments -> f\n\
         Error type 10 at Line 6: Not a function -> a\n"
    );
}

#[test]
fn indexing_a_scalar_is_reported() {
    let program = vec![
        int_decl("a", 1),
        func(Rule::Void, "main", vec![], vec![
            item(assign(lval("a", Some(num("0", 3)), 3), num("1", 3), "a[0] = 1;", 3)),
        ], 2),
    ];
    assert_eq!(check_program(program), "Error type 9 at Line 3: Not an array -> a\n");
}

#[test]
fn indexing_an_array_gives_an_int() {
    let program = vec![
        array_decl("arr", "4", 1),
        func(Rule::Void, "main", vec![], vec![
            item(assign(lval("arr", Some(num("0", 3)), 3), num("1", 3), "arr[0] = 1;", 3)),
        ], 2),
    ];
    assert_eq!(check_program(program), "");
}

#[test]
fn comparison_with_an_array_is_reported() {
    let add = |e: CheckPair| e.inner.into_iter().next().unwrap();
    let rel = t(Rule::RelExp, "arr < 1", 3, vec![add(var("arr", 3)), leaf(Rule::Less, "<", 3), add(num("1", 3))]);
    let cond = t(Rule::Cond, "arr < 1", 3, vec![t(Rule::LOrExp, "arr < 1", 3, vec![
        t(Rule::LAndExp, "arr < 1", 3, vec![t(Rule::EqExp, "arr < 1", 3, vec![rel])]),
    ])]);
    let body = t(Rule::Stmt, "", 3, vec![ret(None, "return;", 3)]);
    let while_stmt = t(Rule::WhileStmt, "", 3, vec![
        leaf(Rule::While, "while", 3),
        leaf(Rule::OpenParen, "(", 3),
        cond,
        leaf(Rule::CloseParen, ")", 3),
        body,
    ]);
    let program = vec![
        array_decl("arr", "2", 1),
        func(Rule::Void, "main", vec![], vec![item(while_stmt)], 2),
    ];
    assert_eq!(check_program(program), "Error type 6 at Line 3: Type mismatched for op -> arr < 1\n");
}

#[test]
fn a_program_that_did_not_parse_is_a_syntax_error() {
    let mut checker = Checker::new("");
    assert_eq!(checker.syn_check(None), "Syntax error\n");
}
