use redditlang::ast::{Declaration, Expr, Ident, Import, Node, Number, Term, Type, Variable};
use redditlang::errors::CompileError;
use redditlang::ir::{verify_unit, Block, CompilationUnit, Terminator};
use redditlang::project::{Project, ProjectConfiguration};
use redditlang::resolver::{ModulePath, ModuleSource};
use redditlang::unit::{compile_unit, compile_program, link};
use redditlang::utils::is_unique;

fn num(x: f64) -> Number {
    Number { bits: x.to_bits() }
}

fn declare(name: &str, tyname: &str, value: Term) -> Node {
    Node::Variable(Variable {
        modifiers: vec![],
        declaration: Declaration {
            ident: Ident(String::from(name)),
            ty: Type { generics: vec![], root_type: Ident(String::from(tyname)) },
        },
        value: Expr::Term(value),
    })
}

fn path(components: &[&str]) -> ModulePath {
    ModulePath { components: components.iter().map(|c| String::from(*c)).collect() }
}

#[test]
fn two_modules_compile_and_link() {
    let root_tree = vec![
        Node::Import(Import(String::from("utilsA"))),
        declare("x", "Number", Term::Number(num(5.0))),
    ];
    let sources = vec![ModuleSource {
        path: path(&["utilsA"]),
        tree: vec![declare("y", "Boolean", Term::Boolean(true))],
    }];
    let lu = compile_program(&root_tree, &sources).expect("program must compile");
    assert_eq!(lu.units.len(), 2);
    assert_eq!(lu.units[0].entry, String::from("main"));
    assert_eq!(lu.units[1].entry, String::from("utilsA.main"));
    assert_eq!(lu.units[1].name, String::from("utilsA"));
    // The merged symbol table unions the tables without duplicates: the
    // two standard-library declarations merge, the entries stay apart.
    let mut names: Vec<String> = lu.functions.clone();
    names.sort();
    assert_eq!(
        names,
        vec![
            String::from("coitusinterruptus"),
            String::from("main"),
            String::from("nums"),
            String::from("utilsA.main"),
        ]
    );
}

#[test]
fn unit_declares_stdlib_and_entry() {
    let unit = compile_unit(&path(&["main"]), &vec![]).expect("empty module must compile");
    assert_eq!(unit.name, String::from("main"));
    assert_eq!(unit.entry, String::from("main"));
    assert_eq!(
        unit.functions,
        vec![
            String::from("coitusinterruptus"),
            String::from("nums"),
            String::from("main"),
        ]
    );
    assert!(verify_unit(&unit));
}

#[test]
fn submodule_entry_is_dot_qualified() {
    let unit = compile_unit(&path(&["utils", "math"]), &vec![]).expect("must compile");
    assert_eq!(unit.name, String::from("utils.math"));
    assert_eq!(unit.entry, String::from("utils.math.main"));
}

#[test]
fn link_rejects_duplicate_entry_points() {
    let a = compile_unit(&path(&["dup"]), &vec![]).expect("must compile");
    let b = compile_unit(&path(&["dup"]), &vec![]).expect("must compile");
    let r = link(vec![a, b]);
    assert_eq!(r.unwrap_err(), CompileError::DuplicateSymbol(String::from("dup.main")));
}

#[test]
fn link_of_one_unit_keeps_its_table() {
    let a = compile_unit(&path(&["main"]), &vec![]).expect("must compile");
    let lu = link(vec![a]).expect("must link");
    assert_eq!(lu.functions.len(), 3);
    assert_eq!(lu.units.len(), 1);
}

#[test]
fn verify_unit_rejects_open_and_stray_blocks() {
    let open_block = CompilationUnit {
        name: String::from("bad"),
        functions: vec![],
        entry: String::from("bad.main"),
        blocks: vec![Block { instrs: vec![], terminator: None }],
        globals: vec![],
    };
    assert!(!verify_unit(&open_block));
    let stray_jump = CompilationUnit {
        name: String::from("bad"),
        functions: vec![],
        entry: String::from("bad.main"),
        blocks: vec![Block { instrs: vec![], terminator: Some(Terminator::Jump(7)) }],
        globals: vec![],
    };
    assert!(!verify_unit(&stray_jump));
    let fine = CompilationUnit {
        name: String::from("ok"),
        functions: vec![],
        entry: String::from("ok.main"),
        blocks: vec![Block { instrs: vec![], terminator: Some(Terminator::Ret) }],
        globals: vec![],
    };
    assert!(verify_unit(&fine));
}

#[test]
fn program_error_propagates_from_module() {
    let root_tree = vec![Node::Import(Import(String::from("broken")))];
    let sources = vec![ModuleSource {
        path: path(&["broken"]),
        tree: vec![declare("x", "Wat", Term::Null)],
    }];
    let r = compile_program(&root_tree, &sources);
    assert_eq!(r.unwrap_err(), CompileError::UnknownType(String::from("Wat")));
}

#[test]
fn program_error_propagates_from_resolution() {
    let root_tree = vec![Node::Import(Import(String::from("nowhere")))];
    let sources: Vec<ModuleSource> = vec![];
    let r = compile_program(&root_tree, &sources);
    assert_eq!(r.unwrap_err(), CompileError::ModuleNotFound(String::from("nowhere")));
}

#[test]
fn call_argument_failure_carries_its_own_error() {
    // The callee exists, but its argument names an undeclared variable:
    // the call fails with that argument's own error, not a callee error.
    let tree = vec![Node::Call(redditlang::ast::Call {
        ident: Ident(String::from("coitusinterruptus")),
        args: vec![Expr::Term(Term::Ident(Ident(String::from("ghostly"))))],
    })];
    let r = compile_unit(&path(&["main"]), &tree);
    assert_eq!(r.unwrap_err(), CompileError::UndefinedVariable(String::from("ghostly")));
}

#[test]
fn unique_names_are_detected() {
    assert!(is_unique(&vec![String::from("a"), String::from("b"), String::from("c")]));
    assert!(!is_unique(&vec![String::from("a"), String::from("b"), String::from("a")]));
    assert!(is_unique(&vec![]));
}

#[test]
fn internal_errors_are_the_bug_tier() {
    assert!(CompileError::InvalidOperand.is_internal());
    assert!(CompileError::CorruptFunction(String::from("f")).is_internal());
    assert!(CompileError::MalformedUnit.is_internal());
    assert!(!CompileError::TypeMismatch.is_internal());
    assert!(!CompileError::BreakOutsideLoop.is_internal());
}

#[test]
fn project_carries_configuration() {
    let project = Project {
        path: String::from("/tmp/demo"),
        config: ProjectConfiguration {
            name: String::from("demo"),
            version: String::from("0.0.1"),
        },
    };
    assert_eq!(project.config.name, String::from("demo"));
    assert_eq!(project.config.version, String::from("0.0.1"));
}
