//! The unit compiler and linker: each resolved module becomes one
//! compilation unit with a namespaced entry function, lowered from its
//! tree and checked for internal well-formedness; the units are then
//! folded into one linked unit by merging their function symbol tables.

use vstd::prelude::*;

use crate::ast::{Node, Tree};
use crate::errors::CompileError;
use crate::ir::{spec_unit_wf, verify_unit, Block, CompilationUnit, Instr, Terminator};
use crate::lower::{
    compile, spec_contains_fn, spec_low_wf, spec_mid_state, spec_open_at, spec_tree_post,
    table_contains, CompileMetadata, Compiler, LoopMetadata,
};
use crate::resolver::{
    lemma_imported_path_len, resolve_with_sources, spec_dotted, spec_imported_earlier,
    spec_resolve_err, spec_resolve_ok, spec_tree_of, ModulePath, ModuleRef, ModuleSource,
    ResolvedModule,
};
use crate::scope::{Scope, ScopeVariable};
use crate::types::text_is;

verus! {

/// The name of a module's synthetic entry function: plain `main` for the
/// root module, and the dot-qualified `<module>.main` otherwise, so that
/// every module's entry point is independently callable in one flat
/// symbol namespace.
pub open spec fn spec_entry_name(p: Seq<Seq<char>>) -> Seq<char> {
    if spec_dotted(p) == "main"@ {
        "main"@
    } else {
        spec_dotted(p) + ".main"@
    }
}

/// Declare the standard-library surface every unit can call before any
/// lowering begins: a print-like function taking a byte pointer, and a
/// numeric formatter taking a double and returning a byte pointer.
pub fn define_libstd(unit: &mut CompilationUnit)
    ensures
        final(unit).name == old(unit).name,
        final(unit).entry == old(unit).entry,
        final(unit).blocks == old(unit).blocks,
        final(unit).globals == old(unit).globals,
        final(unit).functions@.len() == old(unit).functions@.len() + 2,
        forall|i: int|
            0 <= i < old(unit).functions@.len() ==> final(unit).functions@[i] == old(
                unit,
            ).functions@[i],
        final(unit).functions@[old(unit).functions@.len() as int]@ == "coitusinterruptus"@,
        final(unit).functions@[old(unit).functions@.len() as int + 1]@ == "nums"@,
{
    unit.functions.push(String::from_str("coitusinterruptus"));
    unit.functions.push(String::from_str("nums"));
}

/// The fresh lowering state a module's unit compilation starts from: the
/// builder on the single empty open block, no active loop, an empty
/// scope, no string constants yet, and the symbol table holding exactly
/// the two standard-library symbols and the module's own entry function.
pub open spec fn spec_fresh_state(c: Compiler, m: CompileMetadata, p: Seq<Seq<char>>) -> bool {
    &&& c.current == 0
    &&& c.unit.name@ == spec_dotted(p)
    &&& c.unit.entry@ == spec_entry_name(p)
    &&& c.unit.functions@.len() == 3
    &&& c.unit.functions@[0]@ == "coitusinterruptus"@
    &&& c.unit.functions@[1]@ == "nums"@
    &&& c.unit.functions@[2]@ == spec_entry_name(p)
    &&& c.unit.globals@ == Seq::<String>::empty()
    &&& c.unit.blocks@.len() == 1
    &&& c.unit.blocks@[0].instrs@ == Seq::<Instr>::empty()
    &&& c.unit.blocks@[0].terminator is None
    &&& m.loops@ == Seq::<LoopMetadata>::empty()
    &&& m.function_scope.as_map() == Map::<Seq<char>, ScopeVariable>::empty()
}

/// Lowering the module's tree from the fresh state fails, and this is
/// the first error it meets.
pub open spec fn spec_module_fails(p: Seq<Seq<char>>, tree: Seq<Node>, e: CompileError) -> bool {
    exists|c0: Compiler, m0: CompileMetadata, mb: CompileMetadata, cb: Compiler|
        #![trigger spec_mid_state(m0, c0), spec_mid_state(mb, cb)]
        {
            &&& spec_mid_state(m0, c0)
            &&& spec_mid_state(mb, cb)
            &&& spec_fresh_state(c0, m0, p)
            &&& spec_tree_post(tree, m0, mb, c0, cb, Err(e))
        }
}

/// Lowering the module's tree from the fresh state succeeds.
pub open spec fn spec_module_lowers(p: Seq<Seq<char>>, tree: Seq<Node>) -> bool {
    exists|c0: Compiler, m0: CompileMetadata, mb: CompileMetadata, cb: Compiler|
        #![trigger spec_mid_state(m0, c0), spec_mid_state(mb, cb)]
        {
            &&& spec_mid_state(m0, c0)
            &&& spec_mid_state(mb, cb)
            &&& spec_fresh_state(c0, m0, p)
            &&& spec_tree_post(tree, m0, mb, c0, cb, Ok(()))
        }
}

/// The unit is the module's tree lowered from the fresh state, with the
/// block the lowering left open sealed by the default success return.
pub open spec fn spec_unit_of_tree(p: Seq<Seq<char>>, tree: Seq<Node>, u: CompilationUnit) -> bool {
    exists|c0: Compiler, m0: CompileMetadata, mb: CompileMetadata, cb: Compiler|
        #![trigger spec_mid_state(m0, c0), spec_mid_state(mb, cb)]
        {
            &&& spec_mid_state(m0, c0)
            &&& spec_mid_state(mb, cb)
            &&& spec_fresh_state(c0, m0, p)
            &&& spec_tree_post(tree, m0, mb, c0, cb, Ok(()))
            &&& cb.current < cb.unit.blocks@.len()
            &&& u.name == cb.unit.name
            &&& u.functions == cb.unit.functions
            &&& u.entry == cb.unit.entry
            &&& u.globals == cb.unit.globals
            &&& u.blocks@.len() == cb.unit.blocks@.len()
            &&& forall|i: int|
                0 <= i < u.blocks@.len() && i != cb.current ==> u.blocks@[i] == cb.unit.blocks@[i]
            &&& u.blocks@[cb.current as int].instrs == cb.unit.blocks@[cb.current as int].instrs
            &&& u.blocks@[cb.current as int].terminator == Some(Terminator::Ret)
        }
}

/// The units are exactly the compiled units of the schedule, in
/// schedule order.
pub open spec fn spec_schedule_units(
    root: Seq<Node>,
    sources: Seq<ModuleSource>,
    rs: Seq<ResolvedModule>,
    us: Seq<CompilationUnit>,
) -> bool {
    &&& us.len() == rs.len()
    &&& forall|k: int|
        0 <= k < rs.len() ==> spec_unit_of_tree(
            (#[trigger] rs[k]).path@,
            spec_tree_of(root, sources, rs[k].source),
            us[k],
        )
}

/// A unit compiled from a tree witnesses that the tree lowers.
proof fn lemma_unit_of_tree_lowers(p: Seq<Seq<char>>, tree: Seq<Node>, u: CompilationUnit)
    requires
        spec_unit_of_tree(p, tree, u),
    ensures
        spec_module_lowers(p, tree),
{
    let (c0, m0, mb, cb): (Compiler, CompileMetadata, CompileMetadata, Compiler) = choose|
        c0: Compiler,
        m0: CompileMetadata,
        mb: CompileMetadata,
        cb: Compiler,
    |
        #![trigger spec_mid_state(m0, c0), spec_mid_state(mb, cb)]
        {
            &&& spec_mid_state(m0, c0)
            &&& spec_mid_state(mb, cb)
            &&& spec_fresh_state(c0, m0, p)
            &&& spec_tree_post(tree, m0, mb, c0, cb, Ok(()))
        };
    assert(spec_mid_state(m0, c0) && spec_mid_state(mb, cb));
    assert(spec_fresh_state(c0, m0, p));
    assert(spec_tree_post(tree, m0, mb, c0, cb, Ok(())));
}

/// Compile one resolved module into its own unit: name the unit by the
/// dotted module path, declare the standard-library surface and the
/// module's entry function, lower the tree with a fresh scope and no
/// active loop, close the entry function with the default success
/// return, and check the finished unit's internal well-formedness —
/// which lowering guarantees by construction, so the check's failure
/// path is the compiler-bug tier. On success the unit is exactly the
/// tree's lowering from the fresh state with the open block sealed by
/// `Ret`; on failure the error is the tree's own first lowering error.
pub fn compile_unit(path: &ModulePath, tree: &Tree) -> (r: Result<CompilationUnit, CompileError>)
    ensures
        ({
            match r {
                Ok(u) => {
                    &&& spec_unit_wf(u)
                    &&& u.name@ == spec_dotted(path@)
                    &&& u.entry@ == spec_entry_name(path@)
                    &&& u.functions@.len() == 3
                    &&& u.functions@[0]@ == "coitusinterruptus"@
                    &&& u.functions@[1]@ == "nums"@
                    &&& u.functions@[2]@ == spec_entry_name(path@)
                    &&& u.blocks@.len() >= 1
                    &&& spec_unit_of_tree(path@, tree@, u)
                },
                Err(e) => spec_module_fails(path@, tree@, e),
            }
        }),
{
    let name = path.dotted();
    let entry = if text_is(&name, "main") {
        String::from_str("main")
    } else {
        name.clone().concat(".main")
    };
    let mut blocks: Vec<Block> = Vec::new();
    blocks.push(Block { instrs: Vec::new(), terminator: None });
    let mut unit = CompilationUnit {
        name,
        functions: Vec::new(),
        entry: entry.clone(),
        blocks,
        globals: Vec::new(),
    };
    define_libstd(&mut unit);
    unit.functions.push(entry);
    let mut compiler = Compiler { unit, current: 0 };
    let mut compile_meta = CompileMetadata { loops: Vec::new(), function_scope: Scope::new() };
    proof {
        assert(spec_low_wf(compiler, compile_meta)) by {
            assert forall|i: int| 0 <= i < compiler.unit.blocks@.len() implies ((
            #[trigger] compiler.unit.blocks@[i]).terminator is None <==> spec_open_at(
                compiler,
                compile_meta,
                i,
            )) by {
                assert(i == 0);
            }
        }
        assert(compiler.unit.globals@ =~= Seq::<String>::empty());
        assert(compiler.unit.blocks@[0].instrs@ =~= Seq::<Instr>::empty());
        assert(compile_meta.loops@ =~= Seq::<LoopMetadata>::empty());
        assert(spec_fresh_state(compiler, compile_meta, path@));
    }
    let ghost c0 = compiler;
    let ghost m0 = compile_meta;
    let cres = compile(&mut compiler, tree, &mut compile_meta);
    let ghost cres_g = cres;
    match cres {
        Err(e) => {
            proof {
                let mb = compile_meta;
                let cb = compiler;
                assert(spec_mid_state(m0, c0) && spec_mid_state(mb, cb));
                assert(cres_g == Err::<(), CompileError>(e));
                assert(spec_tree_post(tree@, m0, mb, c0, cb, Err(e)));
                assert(spec_module_fails(path@, tree@, e));
            }
            return Err(e);
        },
        Ok(()) => {},
    }
    let ghost cb = compiler;
    let ghost mb = compile_meta;
    compiler.set_terminator(Terminator::Ret);
    proof {
        assert(spec_mid_state(m0, c0) && spec_mid_state(mb, cb));
        assert(cres_g is Ok);
        assert(cres_g->Ok_0 == ());
        assert(cres_g == Ok::<(), CompileError>(()));
        assert(spec_tree_post(tree@, m0, mb, c0, cb, Ok(())));
        assert(spec_unit_of_tree(path@, tree@, compiler.unit));
    }
    proof {
        assert(spec_unit_wf(compiler.unit)) by {
            assert forall|i: int| 0 <= i < compiler.unit.blocks@.len() implies crate::ir::spec_block_wf(
                #[trigger] compiler.unit.blocks@[i],
                compiler.unit.blocks@.len(),
            ) by {
                if i != compiler.current {
                    assert(compiler.unit.blocks@[i].terminator is Some) by {
                        if compiler.unit.blocks@[i].terminator is None {
                            assert(spec_open_at(compiler, compile_meta, i));
                        }
                    }
                }
            }
        }
    }
    if !verify_unit(&compiler.unit) {
        proof {
            assert(false);
        }
        return Err(CompileError::MalformedUnit);
    }
    Ok(compiler.unit)
}

/// All units combined: the merged, duplicate-free function symbol table
/// and the folded units themselves, ready for backend emission.
#[derive(Debug)]
pub struct LinkedUnit {
    pub functions: Vec<String>,
    pub units: Vec<CompilationUnit>,
}

/// A symbol stands in one of the units' tables before position
/// (`k_lim`, `j_lim`) in the fold order.
pub open spec fn spec_in_tables_upto(
    units: Seq<CompilationUnit>,
    k_lim: int,
    j_lim: int,
    nm: Seq<char>,
) -> bool {
    exists|k: int, l: int|
        0 <= k < units.len() && 0 <= l < units[k].functions@.len() && (k < k_lim || (k == k_lim && l
            < j_lim)) && (#[trigger] units[k].functions@[l])@ == nm
}

/// A symbol stands in some unit's table.
pub open spec fn spec_in_tables(units: Seq<CompilationUnit>, nm: Seq<char>) -> bool {
    exists|k: int| 0 <= k < units.len() && spec_contains_fn((#[trigger] units[k]).functions@, nm)
}

/// Fold all verified units into one linked unit. Every function symbol
/// of every unit enters the merged table exactly once, however many
/// units declare it; two units defining the same entry point collide and
/// linking fails with that symbol, and succeeds exactly when all entry
/// points are distinct. The fold order does not affect which symbols the
/// result holds, only their order.
pub fn link(units: Vec<CompilationUnit>) -> (r: Result<LinkedUnit, CompileError>)
    ensures
        r is Ok <==> (forall|a: int, b: int|
            0 <= a < b < units@.len() ==> (#[trigger] units@[a]).entry@ != (
            #[trigger] units@[b]).entry@),
        ({
            match r {
                Ok(lu) => {
                    &&& lu.units == units
                    &&& forall|nm: Seq<char>|
                        spec_contains_fn(lu.functions@, nm) <==> spec_in_tables(units@, nm)
                    &&& forall|a: int, b: int|
                        0 <= a < b < lu.functions@.len() ==> (#[trigger] lu.functions@[a])@ != (
                        #[trigger] lu.functions@[b])@
                },
                Err(e) => e is DuplicateSymbol,
            }
        }),
{
    let n = units.len();
    let mut i: usize = 0;
    while i < n
        invariant
            i <= n,
            n == units@.len(),
            forall|a: int, b: int|
                0 <= a < b < i ==> (#[trigger] units@[a]).entry@ != (#[trigger] units@[b]).entry@,
        decreases n - i,
    {
        let mut j: usize = 0;
        while j < i
            invariant
                j <= i < n,
                n == units@.len(),
                forall|b: int| 0 <= b < j ==> (#[trigger] units@[b]).entry@ != units@[i as int].entry@,
            decreases i - j,
        {
            if units[j].entry == units[i].entry {
                return Err(CompileError::DuplicateSymbol(units[i].entry.clone()));
            }
            j = j + 1;
        }
        proof {
            assert forall|b: int| 0 <= b < i implies (#[trigger] units@[b]).entry@
                != units@[i as int].entry@ by {}
        }
        i = i + 1;
    }
    let mut functions: Vec<String> = Vec::new();
    let mut k: usize = 0;
    while k < n
        invariant
            k <= n,
            n == units@.len(),
            forall|nm: Seq<char>|
                spec_contains_fn(functions@, nm) <==> spec_in_tables_upto(units@, k as int, 0, nm),
            forall|a: int, b: int|
                0 <= a < b < functions@.len() ==> (#[trigger] functions@[a])@ != (
                #[trigger] functions@[b])@,
        decreases n - k,
    {
        let m = units[k].functions.len();
        let mut l: usize = 0;
        while l < m
            invariant
                l <= m,
                k < n,
                n == units@.len(),
                m == units@[k as int].functions@.len(),
                forall|nm: Seq<char>|
                    spec_contains_fn(functions@, nm) <==> spec_in_tables_upto(
                        units@,
                        k as int,
                        l as int,
                        nm,
                    ),
                forall|a: int, b: int|
                    0 <= a < b < functions@.len() ==> (#[trigger] functions@[a])@ != (
                    #[trigger] functions@[b])@,
            decreases m - l,
        {
            let nm = &units[k].functions[l];
            let ghost pre = functions@;
            if !table_contains(&functions, nm) {
                functions.push(nm.clone());
                proof {
                    assert forall|q: Seq<char>| spec_contains_fn(functions@, q) implies spec_in_tables_upto(
                        units@,
                        k as int,
                        l + 1,
                        q,
                    ) by {
                        let x = choose|x: int|
                            0 <= x < functions@.len() && (#[trigger] functions@[x])@ == q;
                        if x < pre.len() {
                            assert(pre[x]@ == q);
                            assert(spec_contains_fn(pre, q));
                        } else {
                            assert(units@[k as int].functions@[l as int]@ == q);
                        }
                    }
                    assert forall|q: Seq<char>|
                        spec_in_tables_upto(units@, k as int, l + 1, q) implies spec_contains_fn(
                        functions@,
                        q,
                    ) by {
                        let (x, y): (int, int) = choose|x: int, y: int|
                            0 <= x < units@.len() && 0 <= y < units@[x].functions@.len() && (x < k
                                || (x == k && y < l + 1)) && (#[trigger] units@[x].functions@[y])@
                                == q;
                        if x < k || (x == k && y < l) {
                            assert(spec_in_tables_upto(units@, k as int, l as int, q));
                            assert(spec_contains_fn(pre, q));
                            let z = choose|z: int| 0 <= z < pre.len() && (#[trigger] pre[z])@ == q;
                            assert(functions@[z]@ == q);
                        } else {
                            assert(functions@.last()@ == q);
                        }
                    }
                }
            } else {
                proof {
                    assert forall|q: Seq<char>|
                        spec_in_tables_upto(units@, k as int, l + 1, q) implies spec_contains_fn(
                        functions@,
                        q,
                    ) by {
                        let (x, y): (int, int) = choose|x: int, y: int|
                            0 <= x < units@.len() && 0 <= y < units@[x].functions@.len() && (x < k
                                || (x == k && y < l + 1)) && (#[trigger] units@[x].functions@[y])@
                                == q;
                        if x < k || (x == k && y < l) {
                            assert(spec_in_tables_upto(units@, k as int, l as int, q));
                        } else {
                            assert(units@[k as int].functions@[l as int]@ == q);
                            assert(spec_contains_fn(functions@, units@[k as int].functions@[l as int]@));
                        }
                    }
                }
            }
            l = l + 1;
        }
        proof {
            assert forall|q: Seq<char>|
                spec_in_tables_upto(units@, k + 1, 0, q) implies spec_in_tables_upto(
                units@,
                k as int,
                m as int,
                q,
            ) by {
                let (x, y): (int, int) = choose|x: int, y: int|
                    0 <= x < units@.len() && 0 <= y < units@[x].functions@.len() && (x < k + 1 || (x
                        == k + 1 && y < 0)) && (#[trigger] units@[x].functions@[y])@ == q;
                assert(x < k || (x == k && y < m));
            }
        }
        k = k + 1;
    }
    proof {
        assert forall|q: Seq<char>| spec_contains_fn(functions@, q) <==> spec_in_tables(
            units@,
            q,
        ) by {
            if spec_contains_fn(functions@, q) {
                assert(spec_in_tables_upto(units@, n as int, 0, q));
                let (x, y): (int, int) = choose|x: int, y: int|
                    0 <= x < units@.len() && 0 <= y < units@[x].functions@.len() && (x < n || (x == n
                        && y < 0)) && (#[trigger] units@[x].functions@[y])@ == q;
                assert(spec_contains_fn(units@[x].functions@, q));
            }
            if spec_in_tables(units@, q) {
                let x = choose|x: int|
                    0 <= x < units@.len() && spec_contains_fn((#[trigger] units@[x]).functions@, q);
                let y = choose|y: int|
                    0 <= y < units@[x].functions@.len() && (#[trigger] units@[x].functions@[y])@
                        == q;
                assert(spec_in_tables_upto(units@, n as int, 0, q));
            }
        }
    }
    Ok(LinkedUnit { functions, units })
}

/// Two distinct single-component module paths get distinct entry names:
/// appending the entry suffix to distinct names cannot make them
/// collide, and the reserved plain name is shorter than any suffixed
/// one.
proof fn lemma_entry_name_injective(p1: Seq<Seq<char>>, p2: Seq<Seq<char>>)
    requires
        p1.len() == 1,
        p2.len() == 1,
        p1 != p2,
    ensures
        spec_entry_name(p1) != spec_entry_name(p2),
{
    assert(p1[0] != p2[0]) by {
        if p1[0] == p2[0] {
            assert(p1 =~= p2);
        }
    }
    let d1 = p1[0];
    let d2 = p2[0];
    let s = ".main"@;
    reveal_strlit("main");
    reveal_strlit(".main");
    assert(spec_dotted(p1) == d1);
    assert(spec_dotted(p2) == d2);
    if spec_dotted(p1) == "main"@ {
        if spec_dotted(p2) != "main"@ {
            assert(spec_entry_name(p1).len() == 4);
            assert(spec_entry_name(p2).len() == d2.len() + 5);
        }
    } else if spec_dotted(p2) == "main"@ {
        assert(spec_entry_name(p1).len() == d1.len() + 5);
        assert(spec_entry_name(p2).len() == 4);
    } else {
        if spec_entry_name(p1) == spec_entry_name(p2) {
            assert((d1 + s).len() == d1.len() + 5);
            assert((d2 + s).len() == d2.len() + 5);
            assert(d1.len() == d2.len());
            assert(d1 =~= (d1 + s).subrange(0, d1.len() as int));
            assert(d2 =~= (d2 + s).subrange(0, d2.len() as int));
            assert(false);
        }
    }
}

/// Compile a whole program: resolve the import graph from the root tree,
/// compile every scheduled module into its own unit — each well-formed
/// by construction — and fold the units into one linked unit. The root
/// module's unit comes first and carries the plain `main` entry point;
/// the k-th unit is the compiled unit of the k-th scheduled module; and
/// the error that comes back is the resolution failure or the first
/// scheduled module's lowering failure. The fold itself cannot fail
/// here: scheduled paths are distinct and single-component, so entry
/// names never collide.
pub fn compile_program(root_tree: &Tree, sources: &Vec<ModuleSource>) -> (r: Result<
    LinkedUnit,
    CompileError,
>)
    ensures
        ({
            match r {
                Ok(lu) => {
                    &&& lu.units@.len() >= 1
                    &&& forall|k: int| 0 <= k < lu.units@.len() ==> spec_unit_wf(#[trigger] lu.units@[k])
                    &&& lu.units@[0].entry@ == "main"@
                    &&& forall|a: int, b: int|
                        0 <= a < b < lu.units@.len() ==> (#[trigger] lu.units@[a]).entry@ != (
                        #[trigger] lu.units@[b]).entry@
                    &&& exists|rs: Seq<ResolvedModule>|
                        #[trigger] spec_resolve_ok(root_tree@, sources@, rs) && spec_schedule_units(
                            root_tree@,
                            sources@,
                            rs,
                            lu.units@,
                        )
                    &&& forall|nm: Seq<char>|
                        spec_contains_fn(lu.functions@, nm) <==> spec_in_tables(lu.units@, nm)
                    &&& forall|a: int, b: int|
                        0 <= a < b < lu.functions@.len() ==> (#[trigger] lu.functions@[a])@ != (
                        #[trigger] lu.functions@[b])@
                },
                Err(e) => spec_resolve_err(root_tree@, sources@, e) || (exists|
                    rs: Seq<ResolvedModule>,
                    k: int,
                |
                    {
                        &&& #[trigger] spec_resolve_ok(root_tree@, sources@, rs)
                        &&& 0 <= k < rs.len()
                        &&& #[trigger] spec_module_fails(
                            rs[k].path@,
                            spec_tree_of(root_tree@, sources@, rs[k].source),
                            e,
                        )
                        &&& forall|j: int|
                            0 <= j < k ==> spec_module_lowers(
                                (#[trigger] rs[j]).path@,
                                spec_tree_of(root_tree@, sources@, rs[j].source),
                            )
                    }),
            }
        }),
{
    let resolved = match resolve_with_sources(root_tree, sources) {
        Ok(rs) => rs,
        Err(e) => {
            return Err(e);
        },
    };
    let rn = resolved.len();
    let mut units: Vec<CompilationUnit> = Vec::new();
    let mut i: usize = 0;
    while i < rn
        invariant
            i <= rn,
            rn == resolved@.len(),
            units@.len() == i,
            spec_resolve_ok(root_tree@, sources@, resolved@),
            forall|k: int| 0 <= k < i ==> spec_unit_wf(#[trigger] units@[k]),
            forall|k: int|
                0 <= k < i ==> (#[trigger] units@[k]).entry@ == spec_entry_name(
                    resolved@[k].path@,
                ),
            forall|k: int|
                0 <= k < i ==> spec_unit_of_tree(
                    (#[trigger] resolved@[k]).path@,
                    spec_tree_of(root_tree@, sources@, resolved@[k].source),
                    units@[k],
                ),
        decreases rn - i,
    {
        let unit = match &resolved[i].source {
            ModuleRef::Root => compile_unit(&resolved[i].path, root_tree),
            ModuleRef::Source(s) => compile_unit(&resolved[i].path, &sources[*s].tree),
        };
        match unit {
            Ok(u) => {
                proof {
                    assert(spec_unit_of_tree(
                        resolved@[i as int].path@,
                        spec_tree_of(root_tree@, sources@, resolved@[i as int].source),
                        u,
                    ));
                }
                units.push(u);
            },
            Err(e) => {
                proof {
                    assert(spec_module_fails(
                        resolved@[i as int].path@,
                        spec_tree_of(root_tree@, sources@, resolved@[i as int].source),
                        e,
                    ));
                    assert forall|j: int|
                        0 <= j < i as int implies spec_module_lowers(
                        (#[trigger] resolved@[j]).path@,
                        spec_tree_of(root_tree@, sources@, resolved@[j].source),
                    ) by {
                        lemma_unit_of_tree_lowers(
                            resolved@[j].path@,
                            spec_tree_of(root_tree@, sources@, resolved@[j].source),
                            units@[j],
                        );
                    }
                }
                return Err(e);
            },
        }
        i = i + 1;
    }
    let ghost units_g = units@;
    let ghost resolved_g = resolved@;
    proof {
        assert forall|k: int|
            0 <= k < resolved_g.len() implies (#[trigger] resolved_g[k]).path@.len() == 1 by {
            if k == 0 {
                assert(resolved_g[0].path@ == crate::resolver::spec_root_path());
            } else {
                lemma_imported_path_len(root_tree@, sources@, resolved_g, k);
            }
        }
        assert forall|a: int, b: int|
            0 <= a < b < units_g.len() implies (#[trigger] units_g[a]).entry@ != (
        #[trigger] units_g[b]).entry@ by {
            assert(resolved_g[a].path@ != resolved_g[b].path@);
            assert(resolved_g[a].path@.len() == 1);
            assert(resolved_g[b].path@.len() == 1);
            lemma_entry_name_injective(resolved_g[a].path@, resolved_g[b].path@);
        }
    }
    match link(units) {
        Ok(lu) => {
            proof {
                assert(lu.units@ == units_g);
                assert(spec_dotted(resolved_g[0].path@) == "main"@) by {
                    assert(crate::resolver::spec_root_path()[0] == "main"@);
                }
                assert(spec_schedule_units(root_tree@, sources@, resolved_g, lu.units@));
                assert(spec_resolve_ok(root_tree@, sources@, resolved_g));
            }
            Ok(lu)
        },
        Err(e) => {
            proof {
                assert(false);
            }
            Err(e)
        },
    }
}

} // verus!
