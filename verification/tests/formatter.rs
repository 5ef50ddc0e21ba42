use sysy_compiler::format::{Formatter, ParseNode, Rule};

fn leaf(rule: Rule, text: &str) -> ParseNode {
    ParseNode { rule, text: text.to_string(), line: 1, children: Vec::new() }
}

fn node(rule: Rule, children: Vec<ParseNode>) -> ParseNode {
    ParseNode { rule, text: String::new(), line: 1, children }
}

fn number(text: &str) -> ParseNode {
    node(Rule::Exp, vec![node(Rule::AddExp, vec![node(Rule::MulExp, vec![node(Rule::UnaryExp, vec![
        node(Rule::PrimaryExp, vec![node(Rule::Number, vec![leaf(Rule::DecConst, text)])]),
    ])])])])
}

fn return_stmt(value: &str) -> ParseNode {
    node(Rule::Stmt, vec![leaf(Rule::Return, "return"), number(value), leaf(Rule::Semicolon, ";")])
}

fn function(name: &str, body: Vec<ParseNode>) -> ParseNode {
    let mut block = vec![leaf(Rule::OpenBrace, "{")];
    for stmt in body {
        block.push(node(Rule::BlockItem, vec![stmt]));
    }
    block.push(leaf(Rule::CloseBrace, "}"));
    node(Rule::FuncDef, vec![
        leaf(Rule::Int, "int"),
        leaf(Rule::Ident, name),
        leaf(Rule::OpenParen, "("),
        leaf(Rule::CloseParen, ")"),
        node(Rule::Block, block),
    ])
}

#[test]
fn formats_a_function_with_indented_body() {
    let mut f = Formatter::new(0, "int main(){return 0;}");
    let out = f.format_code(&vec![function("main", vec![return_stmt("0")])]);
    assert_eq!(out, "int main() {\n    return 0;\n}\n");
}

#[test]
fn separates_functions_with_one_blank_line() {
    let mut f = Formatter::new(0, "");
    let out = f.format_code(&vec![function("f", vec![return_stmt("1")]), function("main", vec![return_stmt("0")])]);
    assert_eq!(out, "int f() {\n    return 1;\n}\n\nint main() {\n    return 0;\n}\n");
}

#[test]
fn statement_after_condition_goes_on_its_own_line() {
    let cond = node(Rule::Cond, vec![node(Rule::LOrExp, vec![leaf(Rule::Ident, "a")])]);
    let if_stmt = node(Rule::Stmt, vec![
        leaf(Rule::If, "if"),
        leaf(Rule::OpenParen, "("),
        cond,
        leaf(Rule::CloseParen, ")"),
        return_stmt("1"),
    ]);
    let mut f = Formatter::new(0, "");
    let out = f.format_code(&vec![function("main", vec![if_stmt, return_stmt("0")])]);
    assert_eq!(out, "int main() {\n    if (a) \n        return 1;\n    return 0;\n}\n");
}

#[test]
fn operators_get_spaces_and_semicolons_lose_them() {
    let assign = node(Rule::Stmt, vec![
        node(Rule::LVal, vec![leaf(Rule::Ident, "x")]),
        leaf(Rule::Assign, "="),
        node(Rule::Exp, vec![node(Rule::AddExp, vec![leaf(Rule::Ident, "y"), leaf(Rule::Plus, "+"), leaf(Rule::DecConst, "2")])]),
        leaf(Rule::Semicolon, ";"),
    ]);
    let mut f = Formatter::new(1, "");
    f.fmt(&assign);
    assert_eq!(f.get_output(), "x = y + 2;\n    ");
}

#[test]
fn declarations_keep_braces_on_one_line() {
    let decl = node(Rule::Decl, vec![node(Rule::VarDecl, vec![
        leaf(Rule::Int, "int"),
        node(Rule::VarDef, vec![leaf(Rule::Ident, "a"), leaf(Rule::Assign, "="), node(Rule::InitVal, vec![
            leaf(Rule::OpenBrace, "{"), leaf(Rule::DecConst, "1"), leaf(Rule::CloseBrace, "}"),
        ])]),
        leaf(Rule::Semicolon, ";"),
    ])]);
    let mut f = Formatter::new(0, "");
    f.fmt(&decl);
    assert_eq!(f.get_output(), "int a = {1};\n");
}

#[test]
fn unparsed_statements_are_reported_instead_of_the_code() {
    let mut bad = leaf(Rule::ErrorStmt, "x = ;");
    bad.line = 3;
    let mut f = Formatter::new(0, "");
    let out = f.format_code(&vec![function("main", vec![bad, return_stmt("0")])]);
    assert_eq!(out, "Error type A at Line 3: x = ;.\n\n");
}

#[test]
fn else_branch_is_indented_on_its_own_line() {
    let cond = node(Rule::Cond, vec![node(Rule::LOrExp, vec![leaf(Rule::Ident, "a")])]);
    let if_stmt = node(Rule::Stmt, vec![
        leaf(Rule::If, "if"),
        leaf(Rule::OpenParen, "("),
        cond,
        leaf(Rule::CloseParen, ")"),
        return_stmt("1"),
        leaf(Rule::Else, "else"),
        return_stmt("2"),
    ]);
    let mut f = Formatter::new(0, "");
    let out = f.format_code(&vec![function("main", vec![if_stmt])]);
    assert_eq!(out, "int main() {\n    if (a) \n        return 1;\n    else \n        return 2;\n}\n");
}

#[test]
fn checked_formatting_tells_when_a_tree_cannot_be_formatted() {
    let mut f = Formatter::new(0, "int main(){return 0;}");
    let out = f.try_format_code(&vec![function("main", vec![return_stmt("0")])]);
    assert_eq!(out, Some("int main() {\n    return 0;\n}\n".to_string()));
    // a statement without children cannot be formatted
    let mut g = Formatter::new(0, "");
    assert_eq!(g.try_format_code(&vec![function("main", vec![node(Rule::Stmt, vec![])])]), None);
    // nor a closing brace at depth zero
    let mut h = Formatter::new(0, "");
    assert_eq!(h.try_format_code(&vec![leaf(Rule::CloseBrace, "}")]), None);
}
