//! The scope store: the per-function-body mapping from identifier to
//! storage handle and validated type. The scope is flat (loops share the
//! function body's scope) and re-declaring a name overwrites its binding,
//! which is how shadowing works.

use vstd::prelude::*;

use crate::ir::InstrId;
use crate::types::ValidType;

verus! {

/// One variable binding: the handle of its mutable storage slot and its
/// validated type. The slot lives as long as the enclosing function body;
/// a shadowed binding's slot stays valid, it merely becomes unreachable
/// by name.
#[derive(Debug)]
pub struct ScopeVariable {
    pub ptr: InstrId,
    pub ty: ValidType,
}

/// The mathematical content of a binding list: later entries win, though
/// the store keeps its keys unique so the question never arises.
pub open spec fn spec_entries_map(s: Seq<(String, ScopeVariable)>) -> Map<Seq<char>, ScopeVariable>
    decreases s.len(),
{
    if s.len() == 0 {
        Map::empty()
    } else {
        spec_entries_map(s.drop_last()).insert(s.last().0@, s.last().1)
    }
}

/// A mapping from identifier to its current binding; keys are unique at
/// any instant.
#[derive(Debug)]
pub struct Scope {
    pub variables: Vec<(String, ScopeVariable)>,
}

proof fn lemma_entries_map_absent(s: Seq<(String, ScopeVariable)>, k: Seq<char>)
    requires
        forall|i: int| 0 <= i < s.len() ==> (#[trigger] s[i]).0@ != k,
    ensures
        !spec_entries_map(s).dom().contains(k),
    decreases s.len(),
{
    if s.len() > 0 {
        lemma_entries_map_absent(s.drop_last(), k);
    }
}

proof fn lemma_entries_map_get(s: Seq<(String, ScopeVariable)>, i: int)
    requires
        0 <= i < s.len(),
        forall|a: int, b: int|
            0 <= a < b < s.len() ==> (#[trigger] s[a]).0@ != (#[trigger] s[b]).0@,
    ensures
        spec_entries_map(s).dom().contains(s[i].0@),
        spec_entries_map(s)[s[i].0@] == s[i].1,
    decreases s.len(),
{
    if i < s.len() - 1 {
        lemma_entries_map_get(s.drop_last(), i);
        assert(s.drop_last()[i] == s[i]);
    }
}

proof fn lemma_entries_map_update(s: Seq<(String, ScopeVariable)>, i: int, e: (String, ScopeVariable))
    requires
        0 <= i < s.len(),
        forall|a: int, b: int|
            0 <= a < b < s.len() ==> (#[trigger] s[a]).0@ != (#[trigger] s[b]).0@,
        s[i].0@ == e.0@,
    ensures
        spec_entries_map(s.update(i, e)) == spec_entries_map(s).insert(e.0@, e.1),
    decreases s.len(),
{
    let t = s.update(i, e);
    if i == s.len() - 1 {
        assert(t.drop_last() =~= s.drop_last());
        assert(spec_entries_map(t) =~= spec_entries_map(s).insert(e.0@, e.1));
    } else {
        assert(t.drop_last() =~= s.drop_last().update(i, e));
        lemma_entries_map_update(s.drop_last(), i, e);
        assert(s.drop_last()[i] == s[i]);
        assert(t.last() == s.last());
        assert(spec_entries_map(t) =~= spec_entries_map(s).insert(e.0@, e.1));
    }
}

impl Scope {
    /// Keys are pairwise distinct.
    pub open spec fn wf(self) -> bool {
        forall|a: int, b: int|
            0 <= a < b < self.variables@.len() ==> (#[trigger] self.variables@[a]).0@ != (
            #[trigger] self.variables@[b]).0@
    }

    /// The mapping this store currently represents.
    pub open spec fn as_map(self) -> Map<Seq<char>, ScopeVariable> {
        spec_entries_map(self.variables@)
    }

    /// An empty scope, as handed to each fresh function body.
    pub fn new() -> (r: Scope)
        ensures
            r.wf(),
            r.as_map() == Map::<Seq<char>, ScopeVariable>::empty(),
    {
        Scope { variables: Vec::new() }
    }

    /// Bind an identifier to a storage slot and type. A name already
    /// bound is overwritten: the new binding shadows the old one.
    pub fn declare(&mut self, ident: String, ptr: InstrId, ty: ValidType)
        requires
            old(self).wf(),
        ensures
            final(self).wf(),
            final(self).as_map() == old(self).as_map().insert(
                ident@,
                ScopeVariable { ptr, ty },
            ),
    {
        let ghost pre = self.variables@;
        let entry = (ident, ScopeVariable { ptr, ty });
        let n = self.variables.len();
        let mut i: usize = 0;
        while i < n
            invariant
                i <= n,
                n == self.variables@.len(),
                self.variables@ == pre,
                pre == old(self).variables@,
                entry.0@ == ident@,
                entry.1 == (ScopeVariable { ptr, ty }),
                forall|a: int, b: int|
                    0 <= a < b < pre.len() ==> (#[trigger] pre[a]).0@ != (#[trigger] pre[b]).0@,
                forall|k: int| 0 <= k < i ==> (#[trigger] pre[k]).0@ != entry.0@,
            decreases n - i,
        {
            if self.variables[i].0 == entry.0 {
                proof {
                    lemma_entries_map_update(pre, i as int, entry);
                }
                self.variables[i] = entry;
                proof {
                    let post = pre.update(i as int, entry);
                    assert(self.variables@ == post);
                    assert forall|a: int, b: int|
                        0 <= a < b < post.len() implies (#[trigger] post[a]).0@ != (
                    #[trigger] post[b]).0@ by {
                        if a == i {
                            assert(pre[i as int].0@ != pre[b].0@);
                        } else if b == i {
                            assert(pre[a].0@ != pre[i as int].0@);
                        } else {
                            assert(pre[a].0@ != pre[b].0@);
                        }
                    }
                }
                return ;
            }
            i = i + 1;
        }
        proof {
            lemma_entries_map_absent(pre, entry.0@);
            assert(pre.push(entry).drop_last() =~= pre);
        }
        self.variables.push(entry);
    }

    /// Look an identifier up; `None` exactly when it was never declared
    /// (or every declaration of it has been shadowed away, which cannot
    /// happen: shadowing rebinds the same name).
    pub fn lookup(&self, ident: &String) -> (r: Option<&ScopeVariable>)
        requires
            self.wf(),
        ensures
            match r {
                Some(v) => self.as_map().dom().contains(ident@) && *v == self.as_map()[ident@],
                None => !self.as_map().dom().contains(ident@),
            },
    {
        let n = self.variables.len();
        let mut i: usize = 0;
        while i < n
            invariant
                i <= n,
                n == self.variables@.len(),
                self.wf(),
                forall|k: int| 0 <= k < i ==> (#[trigger] self.variables@[k]).0@ != ident@,
            decreases n - i,
        {
            if self.variables[i].0 == *ident {
                proof {
                    lemma_entries_map_get(self.variables@, i as int);
                }
                return Some(&self.variables[i].1);
            }
            i = i + 1;
        }
        proof {
            lemma_entries_map_absent(self.variables@, ident@);
        }
        None
    }
}

/// Shadowing: after declaring the same identifier twice in one scope, the
/// second declaration's binding is the one a lookup sees, and the first
/// binding is no longer reachable by that name.
pub proof fn lemma_shadowing(
    m: Map<Seq<char>, ScopeVariable>,
    ident: Seq<char>,
    first: ScopeVariable,
    second: ScopeVariable,
)
    ensures
        m.insert(ident, first).insert(ident, second) == m.insert(ident, second),
        m.insert(ident, first).insert(ident, second)[ident] == second,
{
    assert(m.insert(ident, first).insert(ident, second) =~= m.insert(ident, second));
}

} // verus!
