use xylo::token::{Token, TokenKind, Type};
use xylo::tokenizer::tokenize;
use xylo::validate::{is_lambda, is_procedure, is_variable, validate, validate_code};
use xylo::program::Program;

fn lex(src: &[u8]) -> Vec<Token> {
    tokenize(src).expect("clean scan")
}

fn children(t: &Token) -> &Vec<Token> {
    t.sexpr().expect("expected a group")
}

fn is_unknown_type(t: &Token) -> bool {
    matches!(t.kind, TokenKind::TypeExpr(Type::Unknown))
}

#[test]
fn let_normalizes_and_registers() {
    let mut program = Program::new();
    let id = program.new_module("main".to_string(), lex(b"{let x 5}"));
    let errors = validate(&mut program);
    assert_eq!(errors.len(), 0);
    let module = program.get_module_by_id(id).unwrap();
    let c = children(&module.code[0]);
    assert_eq!(c.len(), 4);
    assert!(c[0].match_identifier("let"));
    assert!(c[1].match_identifier("x"));
    assert!(is_unknown_type(&c[2]));
    assert!(matches!(c[3].kind, TokenKind::UInt(5)));
    assert_eq!(module.variables.get(&"x".to_string()), Some(0));
    assert_eq!(module.procedures.get(&"x".to_string()), None);
}

#[test]
fn function_rewrites_to_let_bound_lambda() {
    let mut program = Program::new();
    let id = program.new_module("main".to_string(), lex(b"{function f {a b} a}"));
    let errors = validate(&mut program);
    assert_eq!(errors.len(), 0);
    let module = program.get_module_by_id(id).unwrap();
    let c = children(&module.code[0]);
    assert_eq!(c.len(), 4);
    assert!(c[0].match_identifier("let"));
    assert!(c[1].match_identifier("f"));
    assert!(is_unknown_type(&c[2]));
    let lambda = children(&c[3]);
    assert_eq!(lambda.len(), 3);
    assert!(lambda[0].match_identifier("fun"));
    let params = children(&lambda[1]);
    assert!(params[0].match_identifier("a"));
    assert!(params[1].match_identifier("b"));
    assert!(lambda[2].match_identifier("a"));
    // functions and variables share one namespace
    assert_eq!(module.variables.get(&"f".to_string()), Some(0));
}

#[test]
fn function_body_order_preserved() {
    let mut code = lex(b"{function f {a} {print a} a}");
    let errors = validate_code(&mut code);
    assert_eq!(errors.len(), 0);
    let c = children(&code[0]);
    let lambda = children(&c[3]);
    assert_eq!(lambda.len(), 4);
    assert!(lambda[0].match_identifier("fun"));
    let first_body = children(&lambda[2]);
    assert!(first_body[0].match_identifier("print"));
    assert!(lambda[3].match_identifier("a"));
}

#[test]
fn lambda_bad_parameter() {
    let mut code = lex(b"{fun {1} x}");
    let errors = validate_code(&mut code);
    assert_eq!(errors.len(), 1);
    assert_eq!(errors[0].message, "Parameters need to be valid identifiers");
}

#[test]
fn lambda_missing_parameter_list() {
    let mut code = lex(b"{fun x}");
    let errors = validate_code(&mut code);
    // the body check runs regardless of the parameter failure: the single
    // `x` sits where the parameter list belongs, so no body form follows
    assert_eq!(errors.len(), 2);
    assert_eq!(errors[0].message, "Lambda functions require a parameter list");
    assert_eq!(errors[1].message, "Lambda functions require at least one expression in them");
}

#[test]
fn lambda_missing_body() {
    let mut code = lex(b"{fun {a}}");
    let errors = validate_code(&mut code);
    assert_eq!(errors.len(), 1);
    assert_eq!(errors[0].message, "Lambda functions require at least one expression in them");
}

#[test]
fn procedure_with_empty_body_registers() {
    let mut program = Program::new();
    let id = program.new_module("main".to_string(), lex(b"{procedure p}"));
    let errors = validate(&mut program);
    assert_eq!(errors.len(), 0);
    let module = program.get_module_by_id(id).unwrap();
    let c = children(&module.code[0]);
    assert_eq!(c.len(), 3);
    assert!(c[0].match_identifier("procedure"));
    assert!(c[1].match_identifier("p"));
    assert!(is_unknown_type(&c[2]));
    assert_eq!(module.procedures.get(&"p".to_string()), Some(0));
    assert_eq!(module.variables.get(&"p".to_string()), None);
}

#[test]
fn revalidation_inserts_no_second_placeholder() {
    let mut code = lex(b"{let x 5}");
    assert_eq!(validate_code(&mut code).len(), 0);
    assert_eq!(children(&code[0]).len(), 4);
    // the form now carries an explicit annotation; validating again
    // changes nothing
    assert_eq!(validate_code(&mut code).len(), 0);
    let c = children(&code[0]);
    assert_eq!(c.len(), 4);
    assert!(is_unknown_type(&c[2]));
}

#[test]
fn let_without_name_or_value() {
    let mut code = lex(b"{let}");
    let errors = validate_code(&mut code);
    assert_eq!(errors.len(), 2);
    assert_eq!(errors[0].message, "Variables require a name");
    assert_eq!(errors[1].message, "Variables require an initial value");
}

#[test]
fn function_without_parameters_still_normalized() {
    let mut code = lex(b"{function f}");
    let errors = validate_code(&mut code);
    assert_eq!(errors.len(), 1);
    assert_eq!(errors[0].message, "Functions are required to have at least one parameter");
    let c = children(&code[0]);
    // no rewrite, but the type placeholder went in
    assert_eq!(c.len(), 3);
    assert!(c[0].match_identifier("function"));
    assert!(is_unknown_type(&c[2]));
}

#[test]
fn function_bad_parameters() {
    let mut code = lex(b"{function f {a 1} a}");
    let errors = validate_code(&mut code);
    assert_eq!(errors.len(), 1);
    assert_eq!(errors[0].message, "Function parameters have to be identifiers");
    assert!(children(&code[0])[0].match_identifier("function"));
}

#[test]
fn call_arguments_validated_recursively() {
    let mut code = lex(b"{print {let} x}");
    let errors = validate_code(&mut code);
    assert_eq!(errors.len(), 2);
    assert_eq!(errors[0].message, "Variables require a name");
}

#[test]
fn call_head_never_validated() {
    let mut code = lex(b"{5 x}");
    let errors = validate_code(&mut code);
    assert_eq!(errors.len(), 0);
}

#[test]
fn failing_form_not_registered() {
    let mut program = Program::new();
    let id = program.new_module("main".to_string(), lex(b"{let x} {let y 2}"));
    let errors = validate(&mut program);
    assert_eq!(errors.len(), 1);
    let module = program.get_module_by_id(id).unwrap();
    assert_eq!(module.variables.get(&"x".to_string()), None);
    assert_eq!(module.variables.get(&"y".to_string()), Some(1));
}

#[test]
fn later_binding_overwrites_earlier() {
    let mut program = Program::new();
    let id = program.new_module("main".to_string(), lex(b"{let x 1} {let x 2}"));
    let errors = validate(&mut program);
    assert_eq!(errors.len(), 0);
    let module = program.get_module_by_id(id).unwrap();
    assert_eq!(module.variables.get(&"x".to_string()), Some(1));
}

#[test]
fn bare_expression_recorded_not_rejected() {
    let mut program = Program::new();
    let bare = Token {
        kind: TokenKind::UInt(7),
        si: xylo::source_info::SourceInfo::new(1, 1, 0),
    };
    let id = program.new_module("repl".to_string(), vec![bare]);
    let errors = validate(&mut program);
    assert_eq!(errors.len(), 0);
    let module = program.get_module_by_id(id).unwrap();
    assert_eq!(module.expressions.as_slice(), &[0]);
}

#[test]
fn form_classifiers() {
    let code = lex(b"{let x 1} {procedure p} {fun {a} a} {f x}");
    assert!(is_variable(&code[0]));
    assert!(!is_procedure(&code[0]));
    assert!(is_procedure(&code[1]));
    assert!(is_lambda(&code[2]));
    assert!(!is_variable(&code[3]));
    assert!(!is_procedure(&code[3]));
    assert!(!is_lambda(&code[3]));
}
