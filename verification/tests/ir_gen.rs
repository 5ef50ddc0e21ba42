use sysy_compiler::check::{CheckPair, Rule};
use sysy_compiler::ir_gen::{literal, lower_func_def, lower_program, FnBuilder};
use sysy_compiler::riscv_codegen::{Instr, IrValue};

fn node(rule: Rule, text: &str, inner: Vec<CheckPair>) -> CheckPair {
    CheckPair { rule, text: text.to_string(), line: 1, inner }
}

fn leaf(rule: Rule, text: &str) -> CheckPair {
    node(rule, text, vec![])
}

/// An `AddExp` made of one primary expression.
fn add_of(primary: CheckPair) -> CheckPair {
    node(Rule::AddExp, "", vec![node(Rule::MulExp, "", vec![node(Rule::UnaryExp, "", vec![node(Rule::PrimaryExp, "", vec![primary])])])])
}

fn var(name: &str) -> CheckPair {
    add_of(node(Rule::LVal, name, vec![leaf(Rule::Ident, name)]))
}

fn num(text: &str) -> CheckPair {
    add_of(leaf(Rule::Number, text))
}

fn exp(add: CheckPair) -> CheckPair {
    node(Rule::Exp, "", vec![add])
}

fn rel(l: CheckPair, op: Rule, r: CheckPair) -> CheckPair {
    node(Rule::EqExp, "", vec![node(Rule::RelExp, "", vec![l, leaf(op, ""), r])])
}

fn cond_and(a: CheckPair, b: CheckPair) -> CheckPair {
    node(Rule::Cond, "", vec![node(Rule::LOrExp, "", vec![node(Rule::LAndExp, "", vec![a, leaf(Rule::And, "&&"), b])])])
}

fn cond_or(a: CheckPair, b: CheckPair) -> CheckPair {
    node(Rule::Cond, "", vec![node(Rule::LOrExp, "", vec![
        node(Rule::LAndExp, "", vec![a]),
        leaf(Rule::Or, "||"),
        node(Rule::LAndExp, "", vec![b]),
    ])])
}

fn stmt(s: CheckPair) -> CheckPair {
    node(Rule::Stmt, "", vec![s])
}

fn item(s: CheckPair) -> CheckPair {
    node(Rule::BlockItem, "", vec![s])
}

fn block(items: Vec<CheckPair>) -> CheckPair {
    let mut k = vec![leaf(Rule::OpenBrace, "{")];
    k.extend(items);
    k.push(leaf(Rule::CloseBrace, "}"));
    node(Rule::Block, "", k)
}

fn var_decl(name: &str, init: CheckPair) -> CheckPair {
    node(Rule::Decl, "", vec![node(Rule::VarDecl, "", vec![
        leaf(Rule::BType, "int"),
        node(Rule::VarDef, "", vec![leaf(Rule::Ident, name), leaf(Rule::Assign, "="), node(Rule::InitVal, "", vec![exp(init)])]),
        leaf(Rule::Semicolon, ";"),
    ])])
}

fn assign(name: &str, value: CheckPair) -> CheckPair {
    node(Rule::AssignStmt, "", vec![
        node(Rule::LVal, name, vec![leaf(Rule::Ident, name)]),
        leaf(Rule::Assign, "="),
        exp(value),
        leaf(Rule::Semicolon, ";"),
    ])
}

fn ret(value: CheckPair) -> CheckPair {
    node(Rule::ReturnStmt, "", vec![leaf(Rule::Return, "return"), exp(value), leaf(Rule::Semicolon, ";")])
}

fn int_main(body: Vec<CheckPair>) -> CheckPair {
    node(Rule::FuncDef, "", vec![
        node(Rule::FuncType, "int", vec![leaf(Rule::Int, "int")]),
        leaf(Rule::Ident, "main"),
        leaf(Rule::OpenParen, "("),
        leaf(Rule::CloseParen, ")"),
        block(body),
    ])
}

fn names(f: &sysy_compiler::riscv_codegen::IrFunction) -> Vec<String> {
    f.blocks.iter().map(|b| b.name.clone()).collect()
}

fn last(f: &sysy_compiler::riscv_codegen::IrFunction, block: usize) -> &Instr {
    f.blocks[block].instrs.last().unwrap()
}

#[test]
fn integer_literals() {
    assert_eq!(literal("42"), Some(42));
    assert_eq!(literal("0x1F"), Some(31));
    assert_eq!(literal("0X10"), Some(16));
    assert_eq!(literal("017"), Some(15));
    assert_eq!(literal("0"), Some(0));
    assert_eq!(literal("0x"), None);
    assert_eq!(literal("08"), None);
    assert_eq!(literal("99999999999999999999"), None);
    assert_eq!(literal(""), None);
}

#[test]
fn if_with_and_branches_with_short_circuit() {
    // int main() { int a = 5; if (a > 1 && a < 9) { a = a + 1; } return a; }
    let add = node(Rule::AddExp, "", vec![
        node(Rule::MulExp, "", vec![node(Rule::UnaryExp, "", vec![node(Rule::PrimaryExp, "", vec![node(Rule::LVal, "a", vec![leaf(Rule::Ident, "a")])])])]),
        leaf(Rule::Plus, "+"),
        node(Rule::MulExp, "", vec![node(Rule::UnaryExp, "", vec![node(Rule::PrimaryExp, "", vec![leaf(Rule::Number, "1")])])]),
    ]);
    let if_stmt = node(Rule::IfStmt, "", vec![
        leaf(Rule::If, "if"),
        leaf(Rule::OpenParen, "("),
        cond_and(rel(var("a"), Rule::Greater, num("1")), rel(var("a"), Rule::Less, num("9"))),
        leaf(Rule::CloseParen, ")"),
        stmt(block(vec![item(stmt(assign("a", add)))])),
    ]);
    let f = int_main(vec![item(var_decl("a", num("5"))), item(stmt(if_stmt)), item(stmt(ret(var("a"))))]);
    let m = lower_program(&vec![f]);
    assert_eq!(m.functions.len(), 1);
    let f = &m.functions[0];
    assert_eq!(f.name, "main");
    assert_eq!(names(f), vec!["mainEntry", "if_true.1", "if_next.2", "and_continue.3"]);
    // the first conjunct: false goes straight to if_next
    assert!(matches!(&f.blocks[0].instrs[0], Instr::Alloca { result } if result == "a.0"));
    assert!(matches!(last(f, 0), Instr::CondBr { cond: IrValue::Named(c), true_target, false_target }
        if c == "cond.7" && true_target == "and_continue.3" && false_target == "if_next.2"));
    // the second conjunct is evaluated in its own block
    assert!(matches!(&f.blocks[3].instrs[0], Instr::Load { result, ptr: IrValue::Named(p) } if result == "load.8" && p == "a.0"));
    assert!(matches!(last(f, 3), Instr::CondBr { true_target, false_target, .. }
        if true_target == "if_true.1" && false_target == "if_next.2"));
    // the arm stores a + 1 and joins if_next
    assert!(matches!(&f.blocks[1].instrs[1], Instr::Binary { result, .. } if result == "bin.13"));
    assert!(matches!(last(f, 1), Instr::Br { target } if target == "if_next.2"));
    // the function returns the loaded value
    assert!(matches!(last(f, 2), Instr::Ret { returned: Some(IrValue::Named(v)) } if v == "load.14"));
}

#[test]
fn or_jumps_to_the_true_target_at_once() {
    let if_stmt = node(Rule::IfStmt, "", vec![
        leaf(Rule::If, "if"),
        leaf(Rule::OpenParen, "("),
        cond_or(rel(num("1"), Rule::Equal, num("1")), rel(num("2"), Rule::NotEqual, num("3"))),
        leaf(Rule::CloseParen, ")"),
        stmt(ret(num("1"))),
    ]);
    let f = lower_func_def(vec![], &int_main(vec![item(stmt(if_stmt))])).unwrap();
    assert_eq!(names(&f), vec!["mainEntry", "if_true.0", "if_next.1", "or_continue.2"]);
    assert!(matches!(last(&f, 0), Instr::CondBr { true_target, false_target, .. }
        if true_target == "if_true.0" && false_target == "or_continue.2"));
    assert!(matches!(last(&f, 3), Instr::CondBr { true_target, false_target, .. }
        if true_target == "if_true.0" && false_target == "if_next.1"));
    // a block left without an end returns 0
    assert!(matches!(last(&f, 2), Instr::Ret { returned: Some(IrValue::Const(0)) }));
}

#[test]
fn while_with_break_and_else() {
    // while (1 < 2) { if (1 == 1) break; else continue; }
    let brk = stmt(node(Rule::BreakStmt, "", vec![leaf(Rule::Break, "break"), leaf(Rule::Semicolon, ";")]));
    let cont = stmt(node(Rule::ContinueStmt, "", vec![leaf(Rule::Continue, "continue"), leaf(Rule::Semicolon, ";")]));
    let if_else = node(Rule::IfStmt, "", vec![
        leaf(Rule::If, "if"),
        leaf(Rule::OpenParen, "("),
        cond_and(rel(num("1"), Rule::Equal, num("1")), rel(num("1"), Rule::Equal, num("1"))),
        leaf(Rule::CloseParen, ")"),
        brk,
        leaf(Rule::Else, "else"),
        cont,
    ]);
    let body = stmt(block(vec![item(stmt(if_else))]));
    let w = node(Rule::WhileStmt, "", vec![
        leaf(Rule::While, "while"),
        leaf(Rule::OpenParen, "("),
        node(Rule::Cond, "", vec![node(Rule::LOrExp, "", vec![node(Rule::LAndExp, "", vec![rel(num("1"), Rule::Less, num("2"))])])]),
        leaf(Rule::CloseParen, ")"),
        body,
    ]);
    let f = lower_func_def(vec![], &int_main(vec![item(stmt(w))])).unwrap();
    let n = names(&f);
    assert_eq!(&n[..4], &["mainEntry", "whileCond.0", "whileBody.1", "whileNext.2"]);
    assert!(matches!(last(&f, 0), Instr::Br { target } if target == "whileCond.0"));
    assert!(matches!(last(&f, 1), Instr::CondBr { true_target, false_target, .. }
        if true_target == "whileBody.1" && false_target == "whileNext.2"));
    // the arms of an if with an else do not see the loop: they join if_next
    let t = n.iter().position(|x| x.starts_with("if_true")).unwrap();
    assert!(matches!(last(&f, t), Instr::Br { target } if target.starts_with("if_next")));
}

#[test]
fn globals_and_their_initial_values() {
    let g = node(Rule::Decl, "", vec![node(Rule::VarDecl, "", vec![
        leaf(Rule::BType, "int"),
        node(Rule::VarDef, "", vec![leaf(Rule::Ident, "g"), leaf(Rule::Assign, "="), node(Rule::InitVal, "", vec![exp(num("0x10"))])]),
        leaf(Rule::Semicolon, ";"),
    ])]);
    let f = int_main(vec![item(stmt(ret(var("g"))))]);
    let m = lower_program(&vec![g, f]);
    assert_eq!(m.globals.len(), 1);
    assert_eq!(m.globals[0].name, "g");
    assert_eq!(m.globals[0].init, Some(16));
    // the function loads the global from its own name
    assert!(matches!(&m.functions[0].blocks[0].instrs[0], Instr::Load { ptr: IrValue::Named(p), .. } if p == "g"));
}

#[test]
fn lowered_program_goes_through_the_back_end() {
    let f = int_main(vec![item(var_decl("a", num("7"))), item(stmt(ret(var("a"))))]);
    let m = lower_program(&vec![f]);
    let text = sysy_compiler::riscv_codegen::lower_module(&m);
    assert!(text.contains("main"));
    assert!(text.contains("a0"));
}

#[test]
fn builder_lowers_a_condition_in_place() {
    let mut b = FnBuilder::start(vec![("x".to_string(), "x.slot".to_string())], &"f".to_string());
    let v = b.lower_exp(&exp(num("0x2A")));
    assert!(matches!(v, Some(IrValue::Const(42))));
    let c = cond_and(rel(var("x"), Rule::Less, num("3")), rel(var("x"), Rule::Greater, num("0")));
    b.lower_cond_branches(&c, &"T".to_string(), &"F".to_string());
    let f = b.finish("f".to_string());
    assert_eq!(names(&f), vec!["fEntry", "and_continue.0"]);
    // the first conjunct branches to F when it fails, without the second one
    assert!(matches!(&f.blocks[0].instrs[0], Instr::Load { ptr: IrValue::Named(p), .. } if p == "x.slot"));
    assert_eq!(f.blocks[0].instrs.len(), 5);
    assert!(matches!(last(&f, 0), Instr::CondBr { true_target, false_target, .. }
        if true_target == "and_continue.0" && false_target == "F"));
    assert!(matches!(last(&f, 1), Instr::CondBr { true_target, false_target, .. }
        if true_target == "T" && false_target == "F"));
}
