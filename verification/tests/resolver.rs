use redditlang::ast::{Import, Node, Tree};
use redditlang::errors::CompileError;
use redditlang::resolver::{resolve_with_sources, ModulePath, ModuleRef, ModuleSource};

fn import(target: &str) -> Node {
    Node::Import(Import(String::from(target)))
}

fn path(components: &[&str]) -> ModulePath {
    ModulePath { components: components.iter().map(|c| String::from(*c)).collect() }
}

fn source(components: &[&str], tree: Tree) -> ModuleSource {
    ModuleSource { path: path(components), tree }
}

#[test]
fn scenario_import_cycle_resolves_each_module_once() {
    // `main` imports `utilsA`, and `utilsA` imports `main` back: the
    // cycle terminates and yields exactly one entry per distinct path.
    let root_tree = vec![import("utilsA")];
    let sources = vec![source(&["utilsA"], vec![import("main")])];
    let rs = resolve_with_sources(&root_tree, &sources).expect("cycle must resolve");
    assert_eq!(rs.len(), 2);
    assert!(rs[0].path.same_as(&path(&["main"])));
    assert_eq!(rs[0].source, ModuleRef::Root);
    assert!(rs[1].path.same_as(&path(&["utilsA"])));
    assert_eq!(rs[1].source, ModuleRef::Source(0));
}

#[test]
fn diamond_import_is_scheduled_once() {
    let root_tree = vec![import("a"), import("b")];
    let sources = vec![
        source(&["a"], vec![import("c")]),
        source(&["b"], vec![import("c")]),
        source(&["c"], vec![]),
    ];
    let rs = resolve_with_sources(&root_tree, &sources).expect("diamond must resolve");
    assert_eq!(rs.len(), 4);
    let c = path(&["c"]);
    let c_entries = rs.iter().filter(|r| r.path.same_as(&c)).count();
    assert_eq!(c_entries, 1);
}

#[test]
fn missing_module_fails() {
    let root_tree = vec![import("nowhere")];
    let sources: Vec<ModuleSource> = vec![];
    let r = resolve_with_sources(&root_tree, &sources);
    assert_eq!(r.unwrap_err(), CompileError::ModuleNotFound(String::from("nowhere")));
}

#[test]
fn root_importing_itself_resolves_to_root_alone() {
    let root_tree = vec![import("main")];
    let sources: Vec<ModuleSource> = vec![];
    let rs = resolve_with_sources(&root_tree, &sources).expect("self import must resolve");
    assert_eq!(rs.len(), 1);
    assert_eq!(rs[0].source, ModuleRef::Root);
}

#[test]
fn repeated_import_is_scheduled_once() {
    let root_tree = vec![import("a"), import("a")];
    let sources = vec![source(&["a"], vec![])];
    let rs = resolve_with_sources(&root_tree, &sources).expect("must resolve");
    assert_eq!(rs.len(), 2);
}

#[test]
fn resolving_twice_yields_equal_schedules() {
    // Resolution is deterministic and idempotent: two runs over the same
    // unchanged tree and sources yield the same schedule.
    let make_sources = || {
        vec![
            source(&["a"], vec![import("c"), import("main")]),
            source(&["b"], vec![import("c")]),
            source(&["c"], vec![]),
        ]
    };
    let root_tree = vec![import("a"), import("b")];
    let rs1 = resolve_with_sources(&root_tree, &make_sources()).expect("must resolve");
    let rs2 = resolve_with_sources(&root_tree, &make_sources()).expect("must resolve");
    assert_eq!(rs1.len(), rs2.len());
    for (e1, e2) in rs1.iter().zip(rs2.iter()) {
        assert!(e1.path.same_as(&e2.path));
        assert_eq!(e1.source, e2.source);
    }
}

#[test]
fn child_paths_name_root_level_modules() {
    let root = ModulePath::root();
    assert!(root.child(&String::from("a")).same_as(&path(&["a"])));
    // The module namespace is flat: an import from inside a module still
    // names a module directly under the source root...
    let a = path(&["a"]);
    assert!(a.child(&String::from("b")).same_as(&path(&["b"])));
    // ...and the reserved name denotes the root module itself.
    assert!(a.child(&String::from("main")).same_as(&path(&["main"])));
}

#[test]
fn dotted_joins_components() {
    assert_eq!(path(&["main"]).dotted(), String::from("main"));
    assert_eq!(path(&["utils", "math"]).dotted(), String::from("utils.math"));
}
