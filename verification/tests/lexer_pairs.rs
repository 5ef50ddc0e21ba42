use sysy_compiler::lexer::{line_tokens, tokenizer, ErrorSyntax, Flow, IntegerConst, LexPair, Operator, Rule, Token, Type};

fn leaf(rule: Rule, text: &str, line: usize) -> LexPair {
    LexPair { rule, text: text.to_string(), line, inner: Vec::new() }
}

fn wrap(rule: Rule, child: Rule, text: &str, line: usize) -> LexPair {
    LexPair { rule, text: text.to_string(), line, inner: vec![leaf(child, text, line)] }
}

#[test]
fn wrapper_nodes_read_as_their_child() {
    assert_eq!(Token::from(&wrap(Rule::Operator, Rule::LessEqual, "<=", 1)), Token::Operator(Operator::LessEqual));
    assert_eq!(Token::from(&wrap(Rule::Operator, Rule::Semicolon, ";", 1)), Token::Operator(Operator::Semicolon));
    assert_eq!(Token::from(&wrap(Rule::Flow, Rule::While, "while", 1)), Token::Flow(Flow::While));
    assert_eq!(Token::from(&wrap(Rule::Type, Rule::Void, "void", 1)), Token::Type(Type::Void));
    assert_eq!(
        Token::from(&wrap(Rule::IntegerConst, Rule::Hex, "0x1F", 1)),
        Token::IntegerConst(IntegerConst::Hex("0x1F".to_string()))
    );
    assert_eq!(
        Token::from(&wrap(Rule::IntegerConst, Rule::Octal, "017", 1)),
        Token::IntegerConst(IntegerConst::Octal("017".to_string()))
    );
    assert_eq!(
        Token::from(&wrap(Rule::IntegerConst, Rule::Dec, "42", 1)),
        Token::IntegerConst(IntegerConst::Dec("42".to_string()))
    );
    assert_eq!(
        Token::from(&wrap(Rule::ErrorSyntax, Rule::InvalidOctal, "09", 1)),
        Token::ErrorSyntax(ErrorSyntax::InvalidOctal("09".to_string()))
    );
    assert_eq!(
        Token::from(&wrap(Rule::ErrorSyntax, Rule::InvalidOperator, "&", 1)),
        Token::ErrorSyntax(ErrorSyntax::InvalidOperator("&".to_string()))
    );
}

#[test]
fn other_nodes_read_as_identifiers() {
    assert_eq!(Token::from(&leaf(Rule::Ident, "count", 1)), Token::Identifier("count".to_string()));
}

#[test]
fn line_tokens_keep_lines_and_drop_end_of_input() {
    let pairs = vec![
        wrap(Rule::Type, Rule::Int, "int", 1),
        leaf(Rule::Ident, "x", 1),
        wrap(Rule::Operator, Rule::Assign, "=", 2),
        wrap(Rule::IntegerConst, Rule::Octal, "010", 2),
        wrap(Rule::Operator, Rule::Semicolon, ";", 2),
        leaf(Rule::EOI, "", 3),
    ];
    let tokens = line_tokens(&pairs);
    assert_eq!(tokens.len(), 5);
    assert_eq!(tokens[1], (1, Token::Identifier("x".to_string())));
    assert_eq!(
        tokenizer(&tokens),
        "INT int at Line 1.\nIDENT x at Line 1.\nASSIGN = at Line 2.\nINTEGER_CONST 8 at Line 2.\nSEMICOLON ; at Line 2.\n"
    );
}
