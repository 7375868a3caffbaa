use xylo::errors::Error;
use xylo::program::{Module, NameMap, Program};
use xylo::source_info::SourceInfo;
use xylo::token::{NumberKind, Token, TokenKind};
use xylo::tokenizer::tokenize;

fn ident(name: &str) -> Token {
    Token { kind: TokenKind::Identifier(name.to_string()), si: SourceInfo::new(1, 1, 0) }
}

fn group(children: Vec<Token>) -> Token {
    Token { kind: TokenKind::SExpr(children), si: SourceInfo::new(1, 1, 0) }
}

#[test]
fn name_map_last_write_wins() {
    let mut map = NameMap::new();
    assert_eq!(map.get(&"a".to_string()), None);
    map.insert("a".to_string(), 0);
    map.insert("b".to_string(), 1);
    map.insert("a".to_string(), 2);
    assert_eq!(map.get(&"a".to_string()), Some(2));
    assert_eq!(map.get(&"b".to_string()), Some(1));
    assert_eq!(map.get(&"c".to_string()), None);
}

#[test]
fn program_assigns_monotonic_ids() {
    let mut program = Program::new();
    let a = program.new_module("a".to_string(), Vec::new());
    let b = program.new_module("b".to_string(), Vec::new());
    assert_eq!(a, 0);
    assert_eq!(b, 1);
    let ids = program.get_ids();
    assert_eq!((ids.start, ids.end), (0, 2));
    assert_eq!(program.get_modules().len(), 2);
    assert_eq!(program.get_module_id(&"a".to_string()), Some(0));
    assert_eq!(program.get_module_id(&"missing".to_string()), None);
    assert_eq!(program.get_module_by_name(&"b".to_string()).unwrap().id, 1);
    assert!(program.get_module_by_id(2).is_none());
    assert_eq!(program.get_module_by_id(0).unwrap().name, "a");
}

#[test]
fn program_rebinding_module_name() {
    let mut program = Program::new();
    program.new_module("m".to_string(), Vec::new());
    let second = program.new_module("m".to_string(), Vec::new());
    assert_eq!(program.get_module_id(&"m".to_string()), Some(second));
    assert_eq!(program.get_modules().len(), 2);
}

#[test]
fn module_accumulates_symbols() {
    let mut module = Module::new(0, "repl".to_string(), Vec::new());
    let binding = group(vec![ident("let"), ident("x"), ident("v")]);
    module.add_variable(binding);
    assert_eq!(module.variables.get(&"x".to_string()), Some(0));
    let proc = group(vec![ident("procedure"), ident("p")]);
    module.add_procedure(proc);
    assert_eq!(module.procedures.get(&"p".to_string()), Some(1));
    let expr = Token { kind: TokenKind::UInt(3), si: SourceInfo::new(1, 1, 0) };
    module.add_expression(expr);
    assert_eq!(module.expressions.as_slice(), &[2]);
    assert_eq!(module.code.len(), 3);
}

#[test]
fn module_via_mutable_lookup() {
    let mut program = Program::new();
    program.new_module("repl".to_string(), Vec::new());
    let module = program.get_module_by_name_mut(&"repl".to_string()).unwrap();
    module.add_expression(Token { kind: TokenKind::UInt(1), si: SourceInfo::new(1, 1, 0) });
    assert_eq!(program.get_module_by_name(&"repl".to_string()).unwrap().code.len(), 1);
}

#[test]
fn error_rendering() {
    let e = Error::new("boom".to_string(), SourceInfo::new(3, 7, 12));
    assert_eq!(e.to_string("repl"), "ERROR::repl(3:7) boom");
    let neg = Error::new("odd".to_string(), SourceInfo::new(-2, 0, 0));
    assert_eq!(neg.to_string("f"), "ERROR::f(-2:0) odd");
}

#[test]
fn source_info_default_is_synthetic() {
    let si = SourceInfo::default();
    assert_eq!((si.line, si.column, si.index), (0, 0, 0));
}

#[test]
fn token_inspectors() {
    let tokens = tokenize(b"{head arg}").unwrap();
    let t = &tokens[0];
    assert!(t.is_sexpr());
    assert!(!t.is_identifier());
    assert!(!t.is_type());
    assert!(t.match_first_identifier("head"));
    assert!(t.match_n_identifier("arg", 1));
    assert!(!t.match_n_identifier("arg", 0));
    let c = t.sexpr().unwrap();
    assert!(c[0].is_identifier());
    assert_eq!(c[0].identifier().unwrap(), "head");
    assert!(c[0].match_identifier("head"));
    assert!(!c[0].match_identifier("tail"));
}

#[test]
fn number_kind_radix() {
    assert_eq!(NumberKind::Decimal.radix(), 10);
    assert_eq!(NumberKind::Base2.radix(), 2);
    assert_eq!(NumberKind::Base8.radix(), 8);
    assert_eq!(NumberKind::Base10.radix(), 10);
    assert_eq!(NumberKind::Base16.radix(), 16);
}

#[test]
fn sexpr_mut_edits_in_place() {
    let mut t = group(vec![ident("head")]);
    match t.sexpr_mut() {
        Some(children) => children.push(ident("tail")),
        None => panic!("expected a group"),
    }
    let c = t.sexpr().unwrap();
    assert_eq!(c.len(), 2);
    assert!(c[1].match_identifier("tail"));
    let mut leaf = ident("x");
    assert!(leaf.sexpr_mut().is_none());
}
