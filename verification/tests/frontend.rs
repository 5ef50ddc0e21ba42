use sysy_compiler::check::{ArrayStruct, CheckError, ErrorKind, Func, Scope, ScopeKey, ScopeStack, SemanticError, Type};
use sysy_compiler::format::Formatter;
use sysy_compiler::lexer::{tokenizer, ErrorSyntax, Flow, IntegerConst, Operator, Token, Type as TokenType};
use sysy_compiler::utils::{add_option_string, eq_option_string, hex_to_int, oct_to_int, InvalidNumber};

#[test]
fn integer_constants_print_in_decimal() {
    assert_eq!(IntegerConst::Hex("0X12".to_string()).fmt(), "INTEGER_CONST 18");
    assert_eq!(IntegerConst::Octal("012".to_string()).fmt(), "INTEGER_CONST 10");
    assert_eq!(IntegerConst::Octal("0".to_string()).fmt(), "INTEGER_CONST 0");
    assert_eq!(IntegerConst::Dec("42".to_string()).fmt(), "INTEGER_CONST 42");
}

#[test]
fn tokens_print_with_their_names() {
    assert_eq!(Operator::Plus.fmt(), "PLUS +");
    assert_eq!(Operator::CloseBrace.fmt(), "R_BRACE }");
    assert_eq!(Operator::OpenBracket.fmt(), "L_BRACKT [");
    assert_eq!(Flow::While.fmt(), "WHILE while");
    assert_eq!(TokenType::Const.fmt(), "CONST const");
    assert_eq!(Token::Identifier("main".to_string()).fmt(), "IDENT main");
    assert_eq!(ErrorSyntax::InvalidOperator("#".to_string()).fmt(), "INVALID_OPERATOR #");
}

#[test]
fn tokenizer_reports_every_token_with_its_line() {
    let tokens = vec![
        (1, Token::Type(TokenType::Int)),
        (1, Token::Identifier("main".to_string())),
        (2, Token::Operator(Operator::Assign)),
        (2, Token::IntegerConst(IntegerConst::Hex("0x1F".to_string()))),
        (12, Token::Flow(Flow::Return)),
    ];
    assert_eq!(
        tokenizer(&tokens),
        "INT int at Line 1.\nIDENT main at Line 1.\nASSIGN = at Line 2.\nINTEGER_CONST 31 at Line 2.\nRETURN return at Line 12.\n"
    );
}

#[test]
fn tokenizer_reports_only_errors_when_there_are_any() {
    let tokens = vec![
        (1, Token::Type(TokenType::Int)),
        (3, Token::ErrorSyntax(ErrorSyntax::InvalidHex("0xG".to_string()))),
        (4, Token::Operator(Operator::Semicolon)),
        (7, Token::ErrorSyntax(ErrorSyntax::UnKnownError("~".to_string()))),
    ];
    assert_eq!(
        tokenizer(&tokens),
        "Error type A at Line 3: INVALID_HEX 0xG.\nError type A at Line 7: UN_KNOWN_ERROR ~.\n"
    );
    assert_eq!(tokenizer(&vec![]), "");
}

#[test]
fn radix_conversions() {
    assert_eq!(hex_to_int("0x1F"), Ok("31".to_string()));
    assert_eq!(hex_to_int(" -0X10 "), Ok("16".to_string()));
    assert_eq!(hex_to_int("ff"), Ok("255".to_string()));
    assert_eq!(hex_to_int("0xZZ"), Err(InvalidNumber));
    assert_eq!(hex_to_int("0x"), Err(InvalidNumber));
    assert_eq!(oct_to_int("017"), Ok("15".to_string()));
    assert_eq!(oct_to_int("0"), Ok("0".to_string()));
    assert_eq!(oct_to_int("-0777"), Ok("511".to_string()));
    assert_eq!(oct_to_int("08"), Err(InvalidNumber));
    assert_eq!(
        hex_to_int("0xFFFFFFFFFFFFFFFFFFFF"),
        Ok("1208925819614629174706175".to_string())
    );
}

#[test]
fn option_strings() {
    assert_eq!(add_option_string(Some("a".to_string()), Some("b".to_string())), Some("ab".to_string()));
    assert_eq!(add_option_string(Some("a".to_string()), None), Some("a".to_string()));
    assert_eq!(add_option_string(None, Some("b".to_string())), Some("b".to_string()));
    assert_eq!(add_option_string(None, None), None);
    assert!(eq_option_string(&Some("x".to_string()), &Some("x".to_string())));
    assert!(!eq_option_string(&Some("x".to_string()), &Some("y".to_string())));
    assert!(eq_option_string(&None, &None));
    assert!(!eq_option_string(&Some("x".to_string()), &None));
}

#[test]
fn error_kinds_have_numbers_and_messages() {
    let kinds = [
        (ErrorKind::UndefinedVal, 1, "Undefined variable"),
        (ErrorKind::UndefinedFunc, 2, "Undefined function"),
        (ErrorKind::RedefineVal, 3, "Redefined variable"),
        (ErrorKind::RedefineFunc, 4, "Redefined function"),
        (ErrorKind::TypeMismatch, 5, "Type mismatched for assignment"),
        (ErrorKind::TypeMismatchOp, 6, "Type mismatched for op"),
        (ErrorKind::ReturnMismatch, 7, "Type mismatched for return"),
        (ErrorKind::Inappropriate, 8, "Function is not applicable for arguments"),
        (ErrorKind::NotArrayAssign, 9, "Not an array"),
        (ErrorKind::UnlegalFuncCall, 10, "Not a function"),
        (ErrorKind::UnexpectedFuncAssign, 11, "The left-hand side of an assignment must be a variable"),
        (ErrorKind::Other, 0, "other"),
    ];
    for (kind, code, msg) in kinds {
        assert_eq!(kind.code(), code);
        assert_eq!(kind.fmt(), code.to_string());
        let e = CheckError::new(kind, None);
        assert_eq!(e.get_kind(), kind);
        assert_eq!(e.get_msg(), msg);
        assert_eq!(e.get_tip(), None);
        assert_eq!(e.build_str(), msg);
    }
}

#[test]
fn semantic_errors_are_reported_with_kind_and_line() {
    let e = CheckError::new(ErrorKind::UndefinedVal, Some("x".to_string()));
    assert_eq!(e.build_str(), "Undefined variable -> x");
    assert_eq!(e.get_tip(), Some("x".to_string()));
    let mut se = SemanticError::new("3".to_string(), Some(e));
    assert_eq!(se.get_output(), "");
    se.build_str();
    assert_eq!(se.get_output(), "Error type 1 at Line 3: Undefined variable -> x");
    let mut other = SemanticError::new("9".to_string(), Some(CheckError::new(ErrorKind::UnlegalFuncCall, Some("f".to_string()))));
    other.build_str();
    assert_eq!(other.get_output(), "Error type 10 at Line 9: Not a function -> f");
    let mut none = SemanticError::new("1".to_string(), None);
    none.build_str();
    assert_eq!(none.get_output(), "");
}

#[test]
fn types_by_sort() {
    let int = Type::Int;
    let void = Type::Void;
    let func = Type::Func(Func::new(vec![Type::Int], Type::Void));
    let mut arr = ArrayStruct::new(Type::Int);
    arr.insert_dim(2);
    arr.insert_dim(3);
    assert_eq!(arr.get_dim_size(), 2);
    assert_eq!(arr.dim_nos, vec![0, 1]);
    assert_eq!(arr.tpl_size, vec![(0, 2), (1, 3)]);
    assert!(arr.get_item_type().is_int());
    let array = Type::Array(arr);
    assert!(int.is_int() && void.is_void() && func.is_func() && array.is_array());
    assert!(int.is_same_type(&Type::Int));
    assert!(!int.is_same_type(&void));
    assert!(array.is_same_type(&Type::Array(ArrayStruct::new(Type::Int))));
}

fn scope_with(name: &str, ty: Type) -> Scope {
    let mut s = Scope::default();
    s.insert(name.to_string(), ty);
    s
}

#[test]
fn nearest_definition_wins() {
    let mut stack = ScopeStack::default();
    stack.update(ScopeKey::Global, scope_with("x", Type::Int));
    assert!(stack.contains("x"));
    assert!(!stack.contains("y"));
    stack.push(ScopeKey::Ident("main".to_string()));
    assert_eq!(stack.get_current_scope_key(), Some("main".to_string()));
    stack.push(ScopeKey::InnerBlock);
    assert_eq!(stack.get_current_scope_key(), None);
    stack.update(ScopeKey::InnerBlock, scope_with("x", Type::Void));
    assert!(stack.get("x").unwrap().is_void());
    assert!(stack.get_current_scope().unwrap().contains("x".to_string()));
    stack.pop();
    assert!(stack.get("x").unwrap().is_int());
    stack.pop();
    assert!(stack.get("x").unwrap().is_int());
    assert!(stack.get("y").is_none());
    assert!(stack.get_scope(&ScopeKey::InnerBlock).is_none());
}

#[test]
fn scopes_replace_earlier_definitions() {
    let mut s = Scope::default();
    s.insert("a".to_string(), Type::Int);
    s.insert("a".to_string(), Type::Void);
    assert!(s.contains("a".to_string()));
    assert!(s.get("a".to_string()).unwrap().is_void());
    assert!(s.get("b".to_string()).is_none());
}

#[test]
fn blank_lines_stay_only_between_definitions() {
    let f = Formatter::new(0, "");
    let input = "fn foo() {}\n\nfn bar() {}\n\n";
    let output = f.clean_extra_blank_lines(input);
    assert!(output.ends_with("fn bar() {}"));
    assert_eq!(output, "fn foo() {}\nfn bar() {}");
    assert_eq!(
        f.clean_extra_blank_lines("int a() {\n}\n\nint b() {\n  x = 1;\n\n  return x;\n}\n\n\n"),
        "int a() {\n}\n\nint b() {\n  x = 1;\n  return x;\n}"
    );
    assert_eq!(f.clean_extra_blank_lines("}\r\n  \r\nconst int N = 1;\r\n"), "}\n  \nconst int N = 1;");
    assert_eq!(f.clean_extra_blank_lines(""), "");
    assert_eq!(f.clean_extra_blank_lines("\n\n"), "");
}

#[test]
fn should_keep_blank_line_between_a_brace_and_a_definition() {
    let f = Formatter::new(1, "int main() {}");
    let lines = ["}", "", "  ", "void f() {", "", "x = 1;"];
    assert!(f.should_keep_blank_line(&lines, 1));
    assert!(f.should_keep_blank_line(&lines, 2));
    assert!(!f.should_keep_blank_line(&lines, 4));
    assert!(!f.should_keep_blank_line(&lines, 6));
    assert_eq!(f.get_output(), "");
}

#[test]
fn check_error_takes_the_variant_of_its_kind() {
    let r = CheckError::new(ErrorKind::UnlegalFuncCall, Some("foo".to_string()));
    assert!(matches!(r, CheckError::UnlegalFuncCall(ErrorKind::UnlegalFuncCall, _, _)));
    assert_eq!(r.get_kind().code(), 10);
    assert_eq!(r.get_msg(), "Not a function");
    assert_eq!(r.get_tip(), Some("foo".to_string()));
}
