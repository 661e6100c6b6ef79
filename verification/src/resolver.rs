//! The module resolver: walks the import directives of a parsed tree,
//! finds each imported module among the available sources, and schedules
//! every distinct module path exactly once, however the import graph is
//! shaped. A cycle simply finds its target already scheduled and stops:
//! resolution is cycle-safe by construction, and the verifier's
//! termination check proves it.

use vstd::prelude::*;

use crate::ast::{Node, Tree};
use crate::errors::CompileError;

verus! {

/// A canonical module path: the components of the module's position in
/// the import hierarchy. The root module is reserved the path `main`.
#[derive(Debug)]
pub struct ModulePath {
    pub components: Vec<String>,
}

impl View for ModulePath {
    type V = Seq<Seq<char>>;

    open spec fn view(&self) -> Seq<Seq<char>> {
        self.components@.map_values(|s: String| s@)
    }
}

/// The path of the root module.
pub open spec fn spec_root_path() -> Seq<Seq<char>> {
    seq!["main"@]
}

/// The path an import gives the imported module. The module namespace
/// is flat: every import target names a module directly under the
/// source root, whichever module does the importing, and the reserved
/// name `main` therefore denotes the root module itself — which is how
/// an import cycle back to the root closes, and how a diamond of
/// imports meets in one shared module.
pub open spec fn spec_child_path(parent: Seq<Seq<char>>, target: Seq<char>) -> Seq<Seq<char>> {
    seq![target]
}

impl ModulePath {
    /// The reserved path of the root module.
    pub fn root() -> (r: ModulePath)
        ensures
            r@ == spec_root_path(),
    {
        let mut components: Vec<String> = Vec::new();
        components.push(String::from_str("main"));
        let r = ModulePath { components };
        proof {
            assert(r@ =~= spec_root_path());
        }
        r
    }

    /// An identical, independently owned path.
    pub fn duplicate(&self) -> (r: ModulePath)
        ensures
            r@ == self@,
    {
        let n = self.components.len();
        let mut components: Vec<String> = Vec::new();
        let mut i: usize = 0;
        while i < n
            invariant
                i <= n,
                n == self.components@.len(),
                components@.len() == i,
                forall|k: int| 0 <= k < i ==> (#[trigger] components@[k])@ == self.components@[k]@,
            decreases n - i,
        {
            components.push(self.components[i].clone());
            i = i + 1;
        }
        let r = ModulePath { components };
        proof {
            assert(r@ =~= self@);
        }
        r
    }

    /// Whether two paths name the same module.
    pub fn same_as(&self, other: &ModulePath) -> (r: bool)
        ensures
            r == (self@ == other@),
    {
        let n = self.components.len();
        if n != other.components.len() {
            proof {
                assert(self@.len() != other@.len());
            }
            return false;
        }
        let mut i: usize = 0;
        while i < n
            invariant
                i <= n,
                n == self.components@.len(),
                n == other.components@.len(),
                forall|k: int| 0 <= k < i ==> self@[k] == other@[k],
            decreases n - i,
        {
            if !(self.components[i] == other.components[i]) {
                proof {
                    assert(self@[i as int] != other@[i as int]);
                }
                return false;
            }
            i = i + 1;
        }
        proof {
            assert(self@ =~= other@);
        }
        true
    }

    /// The path an import of `target` from this module resolves to:
    /// the target as a path of its own, directly under the source root.
    pub fn child(&self, target: &String) -> (r: ModulePath)
        ensures
            r@ == spec_child_path(self@, target@),
    {
        let mut components: Vec<String> = Vec::new();
        components.push(target.clone());
        let r = ModulePath { components };
        proof {
            assert(r@ =~= spec_child_path(self@, target@));
        }
        r
    }

    /// The path's components joined with dots: the unit name this module
    /// compiles under.
    pub fn dotted(&self) -> (r: String)
        ensures
            r@ == spec_dotted(self@),
    {
        let n = self.components.len();
        let mut out = String::new();
        let mut i: usize = 0;
        while i < n
            invariant
                i <= n,
                n == self.components@.len(),
                out@ == spec_dotted_prefix(self@, i as int),
            decreases n - i,
        {
            if i > 0 {
                out.append(".");
            }
            out.append(self.components[i].as_str());
            i = i + 1;
        }
        out
    }
}

/// The first `i` components joined with dots.
pub open spec fn spec_dotted_prefix(p: Seq<Seq<char>>, i: int) -> Seq<char>
    decreases i,
{
    if i <= 0 {
        Seq::<char>::empty()
    } else if i == 1 {
        p[0]
    } else {
        spec_dotted_prefix(p, i - 1) + "."@ + p[i - 1]
    }
}

/// All components joined with dots.
pub open spec fn spec_dotted(p: Seq<Seq<char>>) -> Seq<char> {
    spec_dotted_prefix(p, p.len() as int)
}

/// One module source handed to the resolver: its canonical path and its
/// already parsed tree.
#[derive(Debug)]
pub struct ModuleSource {
    pub path: ModulePath,
    pub tree: Tree,
}

/// Which tree a scheduled module compiles from: the root tree itself, or
/// one of the available sources.
#[derive(Debug, Clone, Copy, PartialEq, Eq, Structural)]
pub enum ModuleRef {
    Root,
    Source(usize),
}

/// One scheduled module: its canonical path and where its tree lives.
#[derive(Debug)]
pub struct ResolvedModule {
    pub path: ModulePath,
    pub source: ModuleRef,
}

/// A path stands among these paths.
pub open spec fn spec_path_in(paths: Seq<Seq<Seq<char>>>, p: Seq<Seq<char>>) -> bool {
    exists|i: int| 0 <= i < paths.len() && paths[i] == p
}

/// The paths of a schedule.
pub open spec fn spec_res_paths(rs: Seq<ResolvedModule>) -> Seq<Seq<Seq<char>>> {
    rs.map_values(|r: ResolvedModule| r.path@)
}

/// The paths of the available sources.
pub open spec fn spec_src_paths(ss: Seq<ModuleSource>) -> Seq<Seq<Seq<char>>> {
    ss.map_values(|s: ModuleSource| s.path@)
}

/// How many of the given source paths are already scheduled.
pub open spec fn spec_count_resolved(srcs: Seq<Seq<Seq<char>>>, res: Seq<Seq<Seq<char>>>) -> int
    decreases srcs.len(),
{
    if srcs.len() == 0 {
        0
    } else {
        spec_count_resolved(srcs.drop_last(), res) + if spec_path_in(res, srcs.last()) {
            1int
        } else {
            0int
        }
    }
}

proof fn lemma_count_bounds(srcs: Seq<Seq<Seq<char>>>, res: Seq<Seq<Seq<char>>>)
    ensures
        0 <= spec_count_resolved(srcs, res) <= srcs.len(),
    decreases srcs.len(),
{
    if srcs.len() > 0 {
        lemma_count_bounds(srcs.drop_last(), res);
    }
}

proof fn lemma_count_monotone(
    srcs: Seq<Seq<Seq<char>>>,
    res1: Seq<Seq<Seq<char>>>,
    res2: Seq<Seq<Seq<char>>>,
)
    requires
        forall|p: Seq<Seq<char>>| spec_path_in(res1, p) ==> spec_path_in(res2, p),
    ensures
        spec_count_resolved(srcs, res1) <= spec_count_resolved(srcs, res2),
    decreases srcs.len(),
{
    if srcs.len() > 0 {
        lemma_count_monotone(srcs.drop_last(), res1, res2);
    }
}

proof fn lemma_count_insert(
    srcs: Seq<Seq<Seq<char>>>,
    res1: Seq<Seq<Seq<char>>>,
    res2: Seq<Seq<Seq<char>>>,
    p: Seq<Seq<char>>,
)
    requires
        spec_path_in(srcs, p),
        !spec_path_in(res1, p),
        spec_path_in(res2, p),
        forall|q: Seq<Seq<char>>| spec_path_in(res1, q) ==> spec_path_in(res2, q),
    ensures
        spec_count_resolved(srcs, res1) < spec_count_resolved(srcs, res2),
    decreases srcs.len(),
{
    if srcs.len() > 0 {
        if srcs.last() == p {
            lemma_count_monotone(srcs.drop_last(), res1, res2);
        } else {
            assert(spec_path_in(srcs.drop_last(), p)) by {
                let i = choose|i: int| 0 <= i < srcs.len() && srcs[i] == p;
                assert(srcs.drop_last()[i] == p);
            }
            lemma_count_insert(srcs.drop_last(), res1, res2, p);
        }
    }
}

/// A path stays scheduled as the schedule grows.
proof fn lemma_path_in_grow(a: Seq<Seq<Seq<char>>>, b: Seq<Seq<Seq<char>>>, p: Seq<Seq<char>>)
    requires
        a.len() <= b.len(),
        forall|i: int| 0 <= i < a.len() ==> a[i] == b[i],
        spec_path_in(a, p),
    ensures
        spec_path_in(b, p),
{
    let i = choose|i: int| 0 <= i < a.len() && a[i] == p;
    assert(b[i] == p);
}

/// Whether this node is an import, and of what.
pub open spec fn spec_import_target(n: Node) -> Option<Seq<char>> {
    match n {
        Node::Import(t) => Some(t.0@),
        _ => None,
    }
}

/// The tree a schedule entry compiles from.
pub open spec fn spec_tree_of(root: Seq<Node>, sources: Seq<ModuleSource>, r: ModuleRef) -> Seq<
    Node,
> {
    match r {
        ModuleRef::Root => root,
        ModuleRef::Source(i) => sources[i as int].tree@,
    }
}

/// Every schedule entry is sound: the root entry carries the reserved
/// path, and a source entry carries exactly its source's path.
pub open spec fn spec_entries_sound(sources: Seq<ModuleSource>, rs: Seq<ResolvedModule>) -> bool {
    forall|k: int|
        0 <= k < rs.len() ==> match (#[trigger] rs[k]).source {
            ModuleRef::Root => rs[k].path@ == spec_root_path(),
            ModuleRef::Source(i) => i < sources.len() && sources[i as int].path@ == rs[k].path@,
        }
}

/// No module path is scheduled twice.
pub open spec fn spec_paths_distinct(rs: Seq<ResolvedModule>) -> bool {
    forall|a: int, b: int| 0 <= a < b < rs.len() ==> (#[trigger] rs[a]).path@ != (#[trigger] rs[b]).path@
}

/// The schedule is closed under imports: whatever any scheduled module
/// imports is scheduled as well.
pub open spec fn spec_closed(
    root: Seq<Node>,
    sources: Seq<ModuleSource>,
    rs: Seq<ResolvedModule>,
) -> bool {
    forall|k: int, j: int|
        0 <= k < rs.len() && 0 <= j < spec_tree_of(root, sources, (#[trigger] rs[k]).source).len()
            ==> match spec_import_target(
            #[trigger] spec_tree_of(root, sources, rs[k].source)[j],
        ) {
            Some(t) => spec_path_in(spec_res_paths(rs), spec_child_path(rs[k].path@, t)),
            None => true,
        }
}

/// Whether a schedule already holds a path.
fn schedule_contains(resolved: &Vec<ResolvedModule>, p: &ModulePath) -> (r: bool)
    ensures
        r == spec_path_in(spec_res_paths(resolved@), p@),
{
    let n = resolved.len();
    let mut i: usize = 0;
    while i < n
        invariant
            i <= n,
            n == resolved@.len(),
            forall|k: int| 0 <= k < i ==> (#[trigger] resolved@[k]).path@ != p@,
        decreases n - i,
    {
        if resolved[i].path.same_as(p) {
            proof {
                assert(spec_res_paths(resolved@)[i as int] == p@);
            }
            return true;
        }
        i = i + 1;
    }
    proof {
        assert forall|k: int| 0 <= k < spec_res_paths(resolved@).len() implies spec_res_paths(
            resolved@,
        )[k] != p@ by {
            assert(spec_res_paths(resolved@)[k] == resolved@[k].path@);
        }
    }
    false
}

/// Find a path among the available sources.
fn find_source(sources: &Vec<ModuleSource>, p: &ModulePath) -> (r: Option<usize>)
    ensures
        match r {
            Some(i) => i < sources@.len() && sources@[i as int].path@ == p@,
            None => !spec_path_in(spec_src_paths(sources@), p@),
        },
{
    let n = sources.len();
    let mut i: usize = 0;
    while i < n
        invariant
            i <= n,
            n == sources@.len(),
            forall|k: int| 0 <= k < i ==> (#[trigger] sources@[k]).path@ != p@,
        decreases n - i,
    {
        if sources[i].path.same_as(p) {
            return Some(i);
        }
        i = i + 1;
    }
    proof {
        assert forall|k: int| 0 <= k < spec_src_paths(sources@).len() implies spec_src_paths(
            sources@,
        )[k] != p@ by {
            assert(spec_src_paths(sources@)[k] == sources@[k].path@);
        }
    }
    None
}


/// A scheduled module other than the root has every import of its own
/// source tree scheduled too.
pub open spec fn spec_entry_closed(
    sources: Seq<ModuleSource>,
    rs: Seq<ResolvedModule>,
    k: int,
) -> bool {
    match rs[k].source {
        ModuleRef::Source(i) => forall|j: int|
            0 <= j < sources[i as int].tree@.len() ==> match spec_import_target(
                #[trigger] sources[i as int].tree@[j],
            ) {
                Some(t) => spec_path_in(spec_res_paths(rs), spec_child_path(rs[k].path@, t)),
                None => true,
            },
        ModuleRef::Root => true,
    }
}

/// The tree holds an import of this target.
pub open spec fn spec_has_import(tree: Seq<Node>, t: Seq<char>) -> bool {
    exists|j: int| 0 <= j < tree.len() && spec_import_target(#[trigger] tree[j]) == Some(t)
}

/// An import of this target is resolvable: in the flat module namespace
/// its path names the reserved root module or stands among the available
/// sources.
pub open spec fn spec_import_available(sources: Seq<ModuleSource>, t: Seq<char>) -> bool {
    ||| seq![t] == spec_root_path()
    ||| spec_path_in(spec_src_paths(sources), seq![t])
}

/// Every import written anywhere among the root tree and the available
/// sources is resolvable. Resolution touches no other trees, so under
/// this condition it is owed success.
pub open spec fn spec_all_imports_available(root: Seq<Node>, sources: Seq<ModuleSource>) -> bool {
    forall|t: Seq<char>|
        (spec_has_import(root, t) || exists|i: int|
            0 <= i < sources.len() && spec_has_import((#[trigger] sources[i]).tree@, t))
            ==> #[trigger] spec_import_available(sources, t)
}

/// Exactly how resolution fails: some import target, written in the root
/// tree or in an available source, is not resolvable, and the error
/// carries that target.
pub open spec fn spec_resolve_err(
    root: Seq<Node>,
    sources: Seq<ModuleSource>,
    e: CompileError,
) -> bool {
    e matches CompileError::ModuleNotFound(t) && !spec_import_available(sources, t@) && (
    spec_has_import(root, t@) || exists|i: int|
        0 <= i < sources.len() && spec_has_import((#[trigger] sources[i]).tree@, t@))
}

/// Schedule entry `k` is the import of a strictly earlier entry: some
/// import in an earlier entry's tree resolves to entry `k`'s path. With
/// the root standing first this pins the schedule to the modules the
/// root's import graph actually reaches: following the earlier-entry
/// links from any entry is a strictly descending walk that can only end
/// at the root.
pub open spec fn spec_imported_earlier(
    root: Seq<Node>,
    sources: Seq<ModuleSource>,
    rs: Seq<ResolvedModule>,
    k: int,
) -> bool {
    exists|k2: int, j: int|
        0 <= k2 < k && 0 <= j < spec_tree_of(root, sources, rs[k2].source).len()
            && match spec_import_target(
            #[trigger] spec_tree_of(root, sources, rs[k2].source)[j],
        ) {
            Some(t) => rs[k].path@ == spec_child_path(rs[k2].path@, t),
            None => false,
        }
}

/// Everything a successful resolution promises of its schedule: the root
/// stands first under the reserved path; every entry names its own
/// source; no path is scheduled twice; the schedule is closed under
/// imports; and every entry beyond the root is the import of an earlier
/// entry, so only modules the root's import graph reaches are scheduled.
pub open spec fn spec_resolve_ok(
    root: Seq<Node>,
    sources: Seq<ModuleSource>,
    rs: Seq<ResolvedModule>,
) -> bool {
    &&& rs.len() >= 1
    &&& rs[0].source == ModuleRef::Root
    &&& rs[0].path@ == spec_root_path()
    &&& spec_entries_sound(sources, rs)
    &&& spec_paths_distinct(rs)
    &&& spec_closed(root, sources, rs)
    &&& forall|k: int| 1 <= k < rs.len() ==> spec_imported_earlier(root, sources, rs, k)
}

/// A module path names one module: entries of two admissible schedules
/// that carry the same path compile from the same tree, provided the
/// source paths are distinct.
pub proof fn lemma_same_path_same_tree(
    root: Seq<Node>,
    sources: Seq<ModuleSource>,
    rs1: Seq<ResolvedModule>,
    rs2: Seq<ResolvedModule>,
    k1: int,
    k2: int,
)
    requires
        spec_resolve_ok(root, sources, rs1),
        spec_resolve_ok(root, sources, rs2),
        forall|a: int, b: int|
            0 <= a < b < sources.len() ==> (#[trigger] sources[a]).path@ != (
            #[trigger] sources[b]).path@,
        0 <= k1 < rs1.len(),
        0 <= k2 < rs2.len(),
        rs1[k1].path@ == rs2[k2].path@,
    ensures
        spec_tree_of(root, sources, rs1[k1].source) == spec_tree_of(root, sources, rs2[k2].source),
{
    match rs1[k1].source {
        ModuleRef::Root => {
            assert(rs1[k1].path@ == spec_root_path());
            assert(k2 == 0) by {
                if k2 != 0 {
                    assert(rs2[0].path@ != rs2[k2].path@);
                }
            }
            assert(rs2[0].source == ModuleRef::Root);
        },
        ModuleRef::Source(i1) => {
            assert(k1 != 0) by {
                if k1 == 0 {
                    assert(rs1[0].source == ModuleRef::Root);
                }
            }
            assert(rs1[k1].path@ != spec_root_path()) by {
                assert(rs1[0].path@ != rs1[k1].path@);
            }
            match rs2[k2].source {
                ModuleRef::Root => {
                    assert(rs2[k2].path@ == spec_root_path());
                    assert(false);
                },
                ModuleRef::Source(i2) => {
                    assert(sources[i1 as int].path@ == rs1[k1].path@);
                    assert(sources[i2 as int].path@ == rs2[k2].path@);
                    assert(i1 == i2) by {
                        if i1 < i2 {
                            assert(sources[i1 as int].path@ != sources[i2 as int].path@);
                        }
                        if i2 < i1 {
                            assert(sources[i2 as int].path@ != sources[i1 as int].path@);
                        }
                    }
                },
            }
        },
    }
}

/// Every path of one admissible schedule stands in any other: the walk
/// back along earlier-entry import links ends at the shared root, and
/// the other schedule, closed under imports, follows the same links
/// forward.
proof fn lemma_entry_path_in_other(
    root: Seq<Node>,
    sources: Seq<ModuleSource>,
    rs1: Seq<ResolvedModule>,
    rs2: Seq<ResolvedModule>,
    k: int,
)
    requires
        spec_resolve_ok(root, sources, rs1),
        spec_resolve_ok(root, sources, rs2),
        forall|a: int, b: int|
            0 <= a < b < sources.len() ==> (#[trigger] sources[a]).path@ != (
            #[trigger] sources[b]).path@,
        0 <= k < rs1.len(),
    ensures
        spec_path_in(spec_res_paths(rs2), rs1[k].path@),
    decreases k,
{
    if k == 0 {
        assert(rs1[0].path@ == spec_root_path());
        assert(spec_res_paths(rs2)[0] == rs2[0].path@);
        assert(spec_path_in(spec_res_paths(rs2), spec_root_path()));
    } else {
        assert(spec_imported_earlier(root, sources, rs1, k));
        let (k2, j): (int, int) = choose|k2: int, j: int|
            0 <= k2 < k && 0 <= j < spec_tree_of(root, sources, rs1[k2].source).len()
                && match spec_import_target(
                #[trigger] spec_tree_of(root, sources, rs1[k2].source)[j],
            ) {
                Some(t) => rs1[k].path@ == spec_child_path(rs1[k2].path@, t),
                None => false,
            };
        lemma_entry_path_in_other(root, sources, rs1, rs2, k2);
        let m = choose|m: int|
            0 <= m < spec_res_paths(rs2).len() && spec_res_paths(rs2)[m] == rs1[k2].path@;
        assert(rs2[m].path@ == rs1[k2].path@);
        lemma_same_path_same_tree(root, sources, rs1, rs2, k2, m);
        match spec_import_target(spec_tree_of(root, sources, rs1[k2].source)[j]) {
            Some(t) => {
                assert(spec_tree_of(root, sources, rs2[m].source)[j] == spec_tree_of(
                    root,
                    sources,
                    rs1[k2].source,
                )[j]);
                assert(spec_path_in(spec_res_paths(rs2), spec_child_path(rs2[m].path@, t)));
                assert(spec_child_path(rs2[m].path@, t) =~= spec_child_path(rs1[k2].path@, t));
            },
            None => {
                assert(false);
            },
        }
    }
}

/// Resolution is deterministic up to schedule order, and therefore
/// idempotent: any two schedules the resolution contract admits for the
/// same root tree and the same sources hold exactly the same module
/// paths — and, by `lemma_same_path_same_tree`, the same tree for each —
/// provided the source paths are distinct. With a duplicated source path
/// two admissible schedules can differ, one per copy of the source.
pub proof fn lemma_resolution_paths_unique(
    root: Seq<Node>,
    sources: Seq<ModuleSource>,
    rs1: Seq<ResolvedModule>,
    rs2: Seq<ResolvedModule>,
)
    requires
        spec_resolve_ok(root, sources, rs1),
        spec_resolve_ok(root, sources, rs2),
        forall|a: int, b: int|
            0 <= a < b < sources.len() ==> (#[trigger] sources[a]).path@ != (
            #[trigger] sources[b]).path@,
    ensures
        forall|p: Seq<Seq<char>>|
            spec_path_in(spec_res_paths(rs1), p) <==> spec_path_in(spec_res_paths(rs2), p),
{
    assert forall|p: Seq<Seq<char>>|
        spec_path_in(spec_res_paths(rs1), p) implies spec_path_in(spec_res_paths(rs2), p) by {
        let k = choose|k: int| 0 <= k < spec_res_paths(rs1).len() && spec_res_paths(rs1)[k] == p;
        assert(rs1[k].path@ == p);
        lemma_entry_path_in_other(root, sources, rs1, rs2, k);
    }
    assert forall|p: Seq<Seq<char>>|
        spec_path_in(spec_res_paths(rs2), p) implies spec_path_in(spec_res_paths(rs1), p) by {
        let k = choose|k: int| 0 <= k < spec_res_paths(rs2).len() && spec_res_paths(rs2)[k] == p;
        assert(rs2[k].path@ == p);
        lemma_entry_path_in_other(root, sources, rs2, rs1, k);
    }
}

/// An entry imported by an earlier one carries a single-component path:
/// import targets resolve in the flat module namespace.
pub proof fn lemma_imported_path_len(
    root: Seq<Node>,
    sources: Seq<ModuleSource>,
    rs: Seq<ResolvedModule>,
    k: int,
)
    requires
        0 <= k < rs.len(),
        spec_imported_earlier(root, sources, rs, k),
    ensures
        rs[k].path@.len() == 1,
{
    let (k2, j): (int, int) = choose|k2: int, j: int|
        0 <= k2 < k && 0 <= j < spec_tree_of(root, sources, rs[k2].source).len()
            && match spec_import_target(
            #[trigger] spec_tree_of(root, sources, rs[k2].source)[j],
        ) {
            Some(t) => rs[k].path@ == spec_child_path(rs[k2].path@, t),
            None => false,
        };
    match spec_import_target(spec_tree_of(root, sources, rs[k2].source)[j]) {
        Some(t) => {
            assert(rs[k].path@ == spec_child_path(rs[k2].path@, t));
        },
        None => {
            assert(false);
        },
    }
}

/// An entry imported by an earlier one stays so as the schedule grows.
proof fn lemma_imported_earlier_grow(
    root: Seq<Node>,
    sources: Seq<ModuleSource>,
    rs1: Seq<ResolvedModule>,
    rs2: Seq<ResolvedModule>,
    k: int,
)
    requires
        rs1.len() <= rs2.len(),
        forall|i: int| 0 <= i < rs1.len() ==> rs1[i] == rs2[i],
        0 <= k < rs1.len(),
        spec_imported_earlier(root, sources, rs1, k),
    ensures
        spec_imported_earlier(root, sources, rs2, k),
{
    let (k2, j): (int, int) = choose|k2: int, j: int|
        0 <= k2 < k && 0 <= j < spec_tree_of(root, sources, rs1[k2].source).len()
            && match spec_import_target(
            #[trigger] spec_tree_of(root, sources, rs1[k2].source)[j],
        ) {
            Some(t) => rs1[k].path@ == spec_child_path(rs1[k2].path@, t),
            None => false,
        };
    assert(rs2[k2] == rs1[k2]);
    assert(rs2[k] == rs1[k]);
    assert(spec_tree_of(root, sources, rs2[k2].source)[j] == spec_tree_of(
        root,
        sources,
        rs1[k2].source,
    )[j]);
}

/// Schedule the imports of one tree, depth first. An import's path is
/// the target joined onto the importing module's own path; a path
/// already scheduled is left alone, which both shares diamond imports
/// and ends import cycles; a new one must exist among the sources, is
/// scheduled, and its own imports are then resolved in turn. The
/// verifier's termination measure is the number of sources not yet
/// scheduled, which every recursion strictly shrinks: resolution
/// terminates on any import graph.
fn resolve_into(
    sources: &Vec<ModuleSource>,
    parent: &ModulePath,
    tree: &Tree,
    resolved: &mut Vec<ResolvedModule>,
    root: Ghost<Seq<Node>>,
) -> (r: Result<(), CompileError>)
    requires
        spec_entries_sound(sources@, old(resolved)@),
        spec_paths_distinct(old(resolved)@),
        spec_path_in(spec_res_paths(old(resolved)@), spec_root_path()),
        exists|kp: int|
            0 <= kp < old(resolved)@.len() && (#[trigger] old(resolved)@[kp]).path@ == parent@
                && spec_tree_of(root@, sources@, old(resolved)@[kp].source) == tree@,
    ensures
        old(resolved)@.len() <= final(resolved)@.len(),
        forall|i: int| 0 <= i < old(resolved)@.len() ==> final(resolved)@[i] == old(resolved)@[i],
        spec_entries_sound(sources@, final(resolved)@),
        spec_paths_distinct(final(resolved)@),
        r is Ok ==> forall|j: int|
            0 <= j < tree@.len() ==> match spec_import_target(#[trigger] tree@[j]) {
                Some(t) => spec_path_in(
                    spec_res_paths(final(resolved)@),
                    spec_child_path(parent@, t),
                ),
                None => true,
            },
        r is Ok ==> forall|k: int|
            old(resolved)@.len() <= k < final(resolved)@.len() ==> spec_entry_closed(
                sources@,
                final(resolved)@,
                k,
            ),
        forall|k: int|
            old(resolved)@.len() <= k < final(resolved)@.len() ==> spec_imported_earlier(
                root@,
                sources@,
                final(resolved)@,
                k,
            ),
        r matches Err(e) ==> (e matches CompileError::ModuleNotFound(t)
            && !spec_import_available(sources@, t@) && (spec_has_import(tree@, t@) || exists|i: int|
            0 <= i < sources@.len() && spec_has_import((#[trigger] sources@[i]).tree@, t@))),
    decreases sources@.len() - spec_count_resolved(
        spec_src_paths(sources@),
        spec_res_paths(old(resolved)@),
    ),
{
    proof {
        lemma_count_bounds(spec_src_paths(sources@), spec_res_paths(resolved@));
    }
    let n = tree.len();
    let mut j: usize = 0;
    while j < n
        invariant
            j <= n,
            n == tree@.len(),
            spec_entries_sound(sources@, resolved@),
            spec_paths_distinct(resolved@),
            old(resolved)@.len() <= resolved@.len(),
            forall|i: int| 0 <= i < old(resolved)@.len() ==> resolved@[i] == old(resolved)@[i],
            forall|jj: int|
                0 <= jj < j ==> match spec_import_target(#[trigger] tree@[jj]) {
                    Some(t) => spec_path_in(
                        spec_res_paths(resolved@),
                        spec_child_path(parent@, t),
                    ),
                    None => true,
                },
            forall|k: int|
                old(resolved)@.len() <= k < resolved@.len() ==> spec_entry_closed(
                    sources@,
                    resolved@,
                    k,
                ),
            forall|k: int|
                old(resolved)@.len() <= k < resolved@.len() ==> spec_imported_earlier(
                    root@,
                    sources@,
                    resolved@,
                    k,
                ),
            spec_path_in(spec_res_paths(old(resolved)@), spec_root_path()),
            exists|kp: int|
                0 <= kp < old(resolved)@.len() && (#[trigger] old(resolved)@[kp]).path@ == parent@
                    && spec_tree_of(root@, sources@, old(resolved)@[kp].source) == tree@,
            spec_count_resolved(spec_src_paths(sources@), spec_res_paths(old(resolved)@))
                <= spec_count_resolved(spec_src_paths(sources@), spec_res_paths(resolved@)),
        decreases n - j,
    {
        let ghost res_iter_start = resolved@;
        match &tree[j] {
            Node::Import(imp) => {
                let child = parent.child(&imp.0);
                if !schedule_contains(resolved, &child) {
                    match find_source(sources, &child) {
                        None => {
                            proof {
                                assert(spec_import_target(tree@[j as int]) == Some(imp.0@));
                                assert(spec_has_import(tree@, imp.0@));
                                assert(child@ =~= seq![imp.0@]);
                                assert(spec_path_in(spec_res_paths(resolved@), spec_root_path()))
                                    by {
                                    assert forall|a: int|
                                        0 <= a < spec_res_paths(old(resolved)@).len() implies spec_res_paths(
                                        old(resolved)@,
                                    )[a] == spec_res_paths(resolved@)[a] by {
                                        assert(old(resolved)@[a] == resolved@[a]);
                                    }
                                    lemma_path_in_grow(
                                        spec_res_paths(old(resolved)@),
                                        spec_res_paths(resolved@),
                                        spec_root_path(),
                                    );
                                }
                                assert(seq![imp.0@] != spec_root_path());
                                assert(!spec_import_available(sources@, imp.0@));
                            }
                            return Err(CompileError::ModuleNotFound(imp.0.clone()));
                        },
                        Some(i) => {
                            let ghost res_before = resolved@;
                            let ghost child_v = child@;
                            resolved.push(
                                ResolvedModule { path: child, source: ModuleRef::Source(i) },
                            );
                            let ghost res_pushed = resolved@;
                            proof {
                                assert(spec_res_paths(res_pushed) =~= spec_res_paths(
                                    res_before,
                                ).push(child_v));
                                assert forall|a: int, b: int|
                                    0 <= a < b < res_pushed.len() implies (
                                #[trigger] res_pushed[a]).path@ != (
                                #[trigger] res_pushed[b]).path@ by {
                                    if b == res_pushed.len() - 1 {
                                        assert(!spec_path_in(spec_res_paths(res_before), child_v));
                                        assert(spec_res_paths(res_before)[a]
                                            == res_before[a].path@);
                                    }
                                }
                                assert(spec_path_in(
                                    spec_src_paths(sources@),
                                    res_pushed.last().path@,
                                )) by {
                                    assert(spec_src_paths(sources@)[i as int]
                                        == sources@[i as int].path@);
                                }
                                assert(spec_path_in(spec_res_paths(res_pushed), child_v)) by {
                                    assert(spec_res_paths(res_pushed).last() == child_v);
                                }
                                assert forall|q: Seq<Seq<char>>|
                                    spec_path_in(spec_res_paths(res_before), q) implies spec_path_in(
                                    spec_res_paths(res_pushed),
                                    q,
                                ) by {
                                    lemma_path_in_grow(
                                        spec_res_paths(res_before),
                                        spec_res_paths(res_pushed),
                                        q,
                                    );
                                }
                                assert forall|q: Seq<Seq<char>>|
                                    spec_path_in(
                                        spec_res_paths(old(resolved)@),
                                        q,
                                    ) implies spec_path_in(spec_res_paths(res_before), q) by {
                                    lemma_path_in_grow(
                                        spec_res_paths(old(resolved)@),
                                        spec_res_paths(res_before),
                                        q,
                                    );
                                }
                                assert(!spec_path_in(spec_res_paths(old(resolved)@), child_v));
                                lemma_count_insert(
                                    spec_src_paths(sources@),
                                    spec_res_paths(old(resolved)@),
                                    spec_res_paths(res_pushed),
                                    child_v,
                                );
                                lemma_count_bounds(
                                    spec_src_paths(sources@),
                                    spec_res_paths(res_pushed),
                                );
                                assert(spec_path_in(
                                    spec_res_paths(res_pushed),
                                    spec_root_path(),
                                )) by {
                                    assert forall|a: int|
                                        0 <= a < spec_res_paths(old(resolved)@).len() implies spec_res_paths(
                                        old(resolved)@,
                                    )[a] == spec_res_paths(res_pushed)[a] by {
                                        assert(res_pushed[a] == res_before[a]);
                                        assert(old(resolved)@[a] == res_pushed[a]);
                                    }
                                    lemma_path_in_grow(
                                        spec_res_paths(old(resolved)@),
                                        spec_res_paths(res_pushed),
                                        spec_root_path(),
                                    );
                                }
                                assert(res_pushed[res_before.len() as int].path@
                                    == sources@[i as int].path@);
                                assert(spec_tree_of(
                                    root@,
                                    sources@,
                                    res_pushed[res_before.len() as int].source,
                                ) == sources@[i as int].tree@);
                            }
                            let rr = resolve_into(sources, &sources[i].path, &sources[i].tree, resolved, root);
                            proof {
                                assert forall|q: Seq<Seq<char>>|
                                    spec_path_in(spec_res_paths(res_pushed), q) implies spec_path_in(
                                    spec_res_paths(resolved@),
                                    q,
                                ) by {
                                    assert forall|a: int|
                                        0 <= a < spec_res_paths(res_pushed).len() implies spec_res_paths(
                                        res_pushed,
                                    )[a] == spec_res_paths(resolved@)[a] by {
                                        assert(res_pushed[a] == resolved@[a]);
                                    }
                                    lemma_path_in_grow(
                                        spec_res_paths(res_pushed),
                                        spec_res_paths(resolved@),
                                        q,
                                    );
                                }
                                lemma_count_monotone(
                                    spec_src_paths(sources@),
                                    spec_res_paths(res_pushed),
                                    spec_res_paths(resolved@),
                                );
                                let kp = choose|kp: int|
                                    0 <= kp < old(resolved)@.len() && (
                                    #[trigger] old(resolved)@[kp]).path@ == parent@ && spec_tree_of(
                                        root@,
                                        sources@,
                                        old(resolved)@[kp].source,
                                    ) == tree@;
                                assert forall|k: int|
                                    old(resolved)@.len() <= k
                                        < resolved@.len() implies spec_imported_earlier(
                                    root@,
                                    sources@,
                                    resolved@,
                                    k,
                                ) by {
                                    if k < res_before.len() {
                                        assert forall|a: int|
                                            0 <= a < res_before.len() implies res_before[a]
                                            == resolved@[a] by {
                                            assert(res_pushed[a] == res_before[a]);
                                            assert(resolved@[a] == res_pushed[a]);
                                        }
                                        assert(spec_imported_earlier(
                                            root@,
                                            sources@,
                                            res_before,
                                            k,
                                        ));
                                        lemma_imported_earlier_grow(
                                            root@,
                                            sources@,
                                            res_before,
                                            resolved@,
                                            k,
                                        );
                                    } else if k == res_before.len() {
                                        assert(resolved@[kp] == old(resolved)@[kp]) by {
                                            assert(res_pushed[kp] == res_before[kp]);
                                            assert(resolved@[kp] == res_pushed[kp]);
                                        }
                                        assert(resolved@[k] == res_pushed[k]);
                                        assert(resolved@[k].path@ == child_v);
                                        assert(spec_tree_of(root@, sources@, resolved@[kp].source)
                                            == tree@);
                                        assert(spec_import_target(
                                            spec_tree_of(
                                                root@,
                                                sources@,
                                                resolved@[kp].source,
                                            )[j as int],
                                        ) == Some(imp.0@));
                                        assert(resolved@[k].path@ == spec_child_path(
                                            resolved@[kp].path@,
                                            imp.0@,
                                        )) by {
                                            assert(child_v =~= spec_child_path(
                                                resolved@[kp].path@,
                                                imp.0@,
                                            ));
                                        }
                                        assert(spec_imported_earlier(root@, sources@, resolved@, k));
                                    }
                                }
                            }
                            match rr {
                                Err(e) => {
                                    proof {
                                        let t = e->ModuleNotFound_0;
                                        if spec_has_import(sources@[i as int].tree@, t@) {
                                            assert(exists|ii: int|
                                                0 <= ii < sources@.len() && spec_has_import(
                                                    (#[trigger] sources@[ii]).tree@,
                                                    t@,
                                                )) by {
                                                assert(spec_has_import(
                                                    sources@[i as int].tree@,
                                                    t@,
                                                ));
                                            }
                                        }
                                    }
                                    return Err(e);
                                },
                                Ok(()) => {},
                            }
                            proof {
                                let kp = res_before.len() as int;
                                assert(spec_entry_closed(sources@, resolved@, kp)) by {
                                    assert(resolved@[kp] == res_pushed[kp]);
                                    assert(resolved@[kp].source == ModuleRef::Source(i));
                                    assert(resolved@[kp].path@ == child_v);
                                    assert(sources@[i as int].path@ == child_v);
                                }
                            }
                        },
                    }
                }
                proof {
                    assert(spec_path_in(
                        spec_res_paths(resolved@),
                        spec_child_path(parent@, imp.0@),
                    ));
                }
            },
            _ => {},
        }
        proof {
            assert forall|jj: int| 0 <= jj < j + 1 implies match spec_import_target(
                #[trigger] tree@[jj],
            ) {
                Some(t) => spec_path_in(spec_res_paths(resolved@), spec_child_path(parent@, t)),
                None => true,
            } by {
                if jj < j {
                    match spec_import_target(tree@[jj]) {
                        Some(t) => {
                            assert(spec_path_in(
                                spec_res_paths(res_iter_start),
                                spec_child_path(parent@, t),
                            ));
                            assert forall|a: int|
                                0 <= a < spec_res_paths(res_iter_start).len() implies spec_res_paths(
                                res_iter_start,
                            )[a] == spec_res_paths(resolved@)[a] by {
                                assert(res_iter_start[a] == resolved@[a]);
                            }
                            lemma_path_in_grow(
                                spec_res_paths(res_iter_start),
                                spec_res_paths(resolved@),
                                spec_child_path(parent@, t),
                            );
                        },
                        None => {},
                    }
                }
            }
            assert forall|k: int|
                old(resolved)@.len() <= k < resolved@.len() implies spec_entry_closed(
                sources@,
                resolved@,
                k,
            ) by {
                if k < res_iter_start.len() {
                    assert(spec_entry_closed(sources@, res_iter_start, k));
                    assert(res_iter_start[k] == resolved@[k]);
                    match resolved@[k].source {
                        ModuleRef::Source(i) => {
                            assert forall|jx: int|
                                0 <= jx < sources@[i as int].tree@.len() implies match spec_import_target(
                                #[trigger] sources@[i as int].tree@[jx],
                            ) {
                                Some(t) => spec_path_in(
                                    spec_res_paths(resolved@),
                                    spec_child_path(resolved@[k].path@, t),
                                ),
                                None => true,
                            } by {
                                match spec_import_target(sources@[i as int].tree@[jx]) {
                                    Some(t) => {
                                        assert(spec_path_in(
                                            spec_res_paths(res_iter_start),
                                            spec_child_path(res_iter_start[k].path@, t),
                                        ));
                                        assert forall|a: int|
                                            0 <= a < spec_res_paths(res_iter_start).len() implies spec_res_paths(
                                            res_iter_start,
                                        )[a] == spec_res_paths(resolved@)[a] by {
                                            assert(res_iter_start[a] == resolved@[a]);
                                        }
                                        lemma_path_in_grow(
                                            spec_res_paths(res_iter_start),
                                            spec_res_paths(resolved@),
                                            spec_child_path(resolved@[k].path@, t),
                                        );
                                    },
                                    None => {},
                                }
                            }
                        },
                        ModuleRef::Root => {},
                    }
                }
            }
        }
        j = j + 1;
    }
    Ok(())
}

/// Resolve a whole program: the root tree is scheduled first under the
/// reserved path, then every module its import graph reaches, each
/// exactly once however often it is imported and even when imports form
/// a cycle — and nothing else: every entry beyond the root is the import
/// of an earlier entry. The schedule that comes back is sound (each
/// entry names its own source), duplicate-free, and closed under
/// imports. Resolution fails exactly when it meets an import it cannot
/// resolve, with that target's name; when every import written in the
/// root tree and the sources is resolvable, it is owed success.
pub fn resolve_with_sources(root_tree: &Tree, sources: &Vec<ModuleSource>) -> (r: Result<
    Vec<ResolvedModule>,
    CompileError,
>)
    ensures
        ({
            match r {
                Ok(rs) => spec_resolve_ok(root_tree@, sources@, rs@),
                Err(e) => spec_resolve_err(root_tree@, sources@, e),
            }
        }),
        spec_all_imports_available(root_tree@, sources@) ==> r is Ok,
{
    let mut resolved: Vec<ResolvedModule> = Vec::new();
    let root_path = ModulePath::root();
    resolved.push(ResolvedModule { path: root_path, source: ModuleRef::Root });
    let parent = ModulePath::root();
    let ghost seeded = resolved@;
    proof {
        assert(spec_res_paths(seeded)[0] == seeded[0].path@);
        assert(spec_path_in(spec_res_paths(seeded), spec_root_path()));
        assert(spec_tree_of(root_tree@, sources@, seeded[0].source) == root_tree@);
    }
    match resolve_into(sources, &parent, root_tree, &mut resolved, Ghost(root_tree@)) {
        Err(e) => {
            proof {
                let t = e->ModuleNotFound_0;
                assert(!spec_all_imports_available(root_tree@, sources@)) by {
                    if spec_all_imports_available(root_tree@, sources@) {
                        assert(spec_import_available(sources@, t@));
                    }
                }
            }
            Err(e)
        },
        Ok(()) => {
            proof {
                assert(resolved@[0] == seeded[0]);
                assert forall|k: int, jx: int|
                    0 <= k < resolved@.len() && 0 <= jx < spec_tree_of(
                        root_tree@,
                        sources@,
                        (#[trigger] resolved@[k]).source,
                    ).len() implies match spec_import_target(
                    #[trigger] spec_tree_of(root_tree@, sources@, resolved@[k].source)[jx],
                ) {
                    Some(t) => spec_path_in(
                        spec_res_paths(resolved@),
                        spec_child_path(resolved@[k].path@, t),
                    ),
                    None => true,
                } by {
                    match resolved@[k].source {
                        ModuleRef::Root => {
                            assert(k == 0 || resolved@[k].path@ != spec_root_path());
                            assert(k == 0);
                        },
                        ModuleRef::Source(i) => {
                            assert(k >= 1) by {
                                assert(resolved@[0].source == ModuleRef::Root);
                            }
                            assert(spec_entry_closed(sources@, resolved@, k));
                        },
                    }
                }
                assert forall|k: int|
                    1 <= k < resolved@.len() implies spec_imported_earlier(
                    root_tree@,
                    sources@,
                    resolved@,
                    k,
                ) by {
                    assert(seeded.len() <= k);
                }
            }
            Ok(resolved)
        },
    }
}

} // verus!
