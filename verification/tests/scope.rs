use redditlang::ir::InstrId;
use redditlang::scope::Scope;
use redditlang::types::ValidType;

fn slot(block: usize, idx: usize) -> InstrId {
    InstrId { block, idx }
}

#[test]
fn declare_then_lookup() {
    let mut scope = Scope::new();
    scope.declare(String::from("x"), slot(0, 0), ValidType::Number);
    let v = scope.lookup(&String::from("x")).expect("x must be bound");
    assert_eq!(v.ptr, slot(0, 0));
    assert!(matches!(v.ty, ValidType::Number));
}

#[test]
fn lookup_undeclared_is_none() {
    let scope = Scope::new();
    assert!(scope.lookup(&String::from("ghostvar")).is_none());
}

#[test]
fn shadowing_second_declaration_wins() {
    let mut scope = Scope::new();
    scope.declare(String::from("x"), slot(0, 0), ValidType::Number);
    scope.declare(String::from("x"), slot(0, 7), ValidType::String);
    let v = scope.lookup(&String::from("x")).expect("x must be bound");
    assert_eq!(v.ptr, slot(0, 7));
    assert!(matches!(v.ty, ValidType::String));
}

#[test]
fn shadowing_keeps_other_bindings() {
    let mut scope = Scope::new();
    scope.declare(String::from("x"), slot(0, 0), ValidType::Number);
    scope.declare(String::from("y"), slot(0, 2), ValidType::Boolean);
    scope.declare(String::from("x"), slot(0, 4), ValidType::String);
    let x = scope.lookup(&String::from("x")).expect("x must be bound");
    assert_eq!(x.ptr, slot(0, 4));
    let y = scope.lookup(&String::from("y")).expect("y must be bound");
    assert_eq!(y.ptr, slot(0, 2));
    assert!(matches!(y.ty, ValidType::Boolean));
}
