use redditlang::ast::{Ident, Number, Term, Type};
use redditlang::errors::CompileError;
use redditlang::types::ValidType;

fn ty(name: &str) -> Type {
    Type { generics: vec![], root_type: Ident(String::from(name)) }
}

fn ty1(name: &str, inner: Type) -> Type {
    Type { generics: vec![inner], root_type: Ident(String::from(name)) }
}

fn num(x: f64) -> Number {
    Number { bits: x.to_bits() }
}

#[test]
fn resolve_primitive_types() {
    assert!(matches!(ValidType::resolve(&ty("Number")), Ok(ValidType::Number)));
    assert!(matches!(ValidType::resolve(&ty("Boolean")), Ok(ValidType::Boolean)));
    assert!(matches!(ValidType::resolve(&ty("String")), Ok(ValidType::String)));
}

#[test]
fn resolve_array_type() {
    match ValidType::resolve(&ty1("Array", ty("Number"))) {
        Ok(ValidType::Array(inner)) => assert!(matches!(*inner, ValidType::Number)),
        other => panic!("expected Array<Number>, got {:?}", other),
    }
}

#[test]
fn resolve_nested_array_type() {
    match ValidType::resolve(&ty1("Array", ty1("Array", ty("String")))) {
        Ok(ValidType::Array(inner)) => match *inner {
            ValidType::Array(inner2) => assert!(matches!(*inner2, ValidType::String)),
            other => panic!("expected Array<String>, got {:?}", other),
        },
        other => panic!("expected Array<Array<String>>, got {:?}", other),
    }
}

#[test]
fn resolve_null_is_rejected() {
    assert_eq!(ValidType::resolve(&ty("Null")), Err(CompileError::NullIsNotAType));
}

#[test]
fn resolve_unknown_type() {
    assert_eq!(
        ValidType::resolve(&ty("Foolean")),
        Err(CompileError::UnknownType(String::from("Foolean")))
    );
}

#[test]
fn resolve_array_without_argument() {
    assert_eq!(
        ValidType::resolve(&ty("Array")),
        Err(CompileError::UnknownType(String::from("Array")))
    );
}

#[test]
fn resolve_array_of_unknown_fails() {
    assert_eq!(
        ValidType::resolve(&ty1("Array", ty("Wat"))),
        Err(CompileError::UnknownType(String::from("Wat")))
    );
}

#[test]
fn term_matches_by_kind() {
    assert_eq!(ValidType::Number.same_as_term(&Term::Number(num(1.0))), Ok(true));
    assert_eq!(ValidType::Number.same_as_term(&Term::String(String::from("x"))), Ok(false));
    assert_eq!(ValidType::String.same_as_term(&Term::String(String::from("x"))), Ok(true));
    assert_eq!(ValidType::Boolean.same_as_term(&Term::Boolean(true)), Ok(true));
    assert_eq!(ValidType::Boolean.same_as_term(&Term::Number(num(0.0))), Ok(false));
    assert_eq!(
        ValidType::Array(Box::new(ValidType::Number)).same_as_term(&Term::Array(vec![])),
        Ok(true)
    );
}

#[test]
fn term_ident_is_unknowable() {
    assert_eq!(
        ValidType::Number.same_as_term(&Term::Ident(Ident(String::from("x")))),
        Err(CompileError::UnknowableIdentType)
    );
}

#[test]
fn term_null_has_no_type() {
    assert_eq!(ValidType::Number.same_as_term(&Term::Null), Err(CompileError::NullHasNoType));
}

#[test]
fn type_equality_is_structural() {
    let a = ValidType::Array(Box::new(ValidType::Number));
    let b = ValidType::Array(Box::new(ValidType::Number));
    let c = ValidType::Array(Box::new(ValidType::String));
    assert!(a.same_as(&b));
    assert!(!a.same_as(&c));
    assert!(!a.same_as(&ValidType::Number));
    assert!(ValidType::Boolean.same_as(&ValidType::Boolean));
}
