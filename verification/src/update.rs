//! The update planner: classifies file-system events, repairs missing
//! dependencies, diffs dependency lists, and applies remove / modify /
//! add phases to the module graph, producing a change set.
//!
//! The phases that parse or resolve files are driven from outside: the
//! driver hands in what the compiler and resolver returned, and the
//! planner applies it to the graph.

use vstd::prelude::*;

use crate::module_graph::{dep_eq, edge_present, is_dependant_upto, recorded, Dependency, Module,
    ModuleGraph, ModuleGraphEdge, ModuleId};
use crate::text::{seq_contains, seq_ends_with, str_ends_with};

verus! {

/// How one file-system event is classified.
#[derive(Debug, Clone, Copy, PartialEq, Eq, Structural)]
pub enum UpdateType {
    Add,
    Remove,
    Modify,
}

/// No two ids of `a` and `b` share a view.
pub open spec fn ids_disjoint(a: Seq<ModuleId>, b: Seq<ModuleId>) -> bool {
    forall|i: int, j: int|
        0 <= i < a.len() && 0 <= j < b.len() ==> (#[trigger] a[i]).id@ != (#[trigger] b[j]).id@
}

/// The change set one update produces.
#[derive(Debug)]
pub struct UpdateResult {
    pub added: Vec<ModuleId>,
    pub removed: Vec<ModuleId>,
    pub modified: Vec<ModuleId>,
}

impl UpdateResult {
    /// Each constituent set is duplicate-free.
    pub open spec fn wf(&self) -> bool {
        &&& forall|i: int, j: int|
            0 <= i < j < self.added@.len() ==> self.added@[i].id@ != self.added@[j].id@
        &&& forall|i: int, j: int|
            0 <= i < j < self.removed@.len() ==> self.removed@[i].id@ != self.removed@[j].id@
        &&& forall|i: int, j: int|
            0 <= i < j < self.modified@.len() ==> self.modified@[i].id@ != self.modified@[j].id@
    }

    /// Nothing both leaves and stays: `added` and `modified` are
    /// disjoint from `removed`.
    pub open spec fn sets_disjoint(&self) -> bool {
        ids_disjoint(self.added@, self.removed@) && ids_disjoint(self.modified@, self.removed@)
    }

    pub fn new() -> (r: UpdateResult)
        ensures
            r.wf(),
            r.sets_disjoint(),
            r.added@.len() == 0,
            r.removed@.len() == 0,
            r.modified@.len() == 0,
    {
        UpdateResult { added: Vec::new(), removed: Vec::new(), modified: Vec::new() }
    }

    /// The modules whose chunks must be re-transformed after this
    /// update: everything added, then everything modified.
    pub fn changed_modules(&self) -> (r: Vec<ModuleId>)
        ensures
            r@.len() == self.added@.len() + self.modified@.len(),
            forall|k: int| 0 <= k < self.added@.len() ==> (#[trigger] r@[k]) == self.added@[k],
            forall|k: int|
                self.added@.len() <= k < r@.len() ==> (#[trigger] r@[k]) == self.modified@[k
                    - self.added@.len()],
    {
        let mut changes: Vec<ModuleId> = Vec::new();
        let n = self.added.len();
        let mut i: usize = 0;
        while i < n
            invariant
                0 <= i <= n,
                n == self.added@.len(),
                changes@.len() == i,
                forall|k: int| 0 <= k < i ==> (#[trigger] changes@[k]) == self.added@[k],
            decreases n - i,
        {
            changes.push(self.added[i].duplicate());
            i = i + 1;
        }
        let m = self.modified.len();
        let mut j: usize = 0;
        while j < m
            invariant
                0 <= j <= m,
                m == self.modified@.len(),
                n == self.added@.len(),
                changes@.len() == n + j,
                forall|k: int| 0 <= k < n ==> (#[trigger] changes@[k]) == self.added@[k],
                forall|k: int|
                    n <= k < n + j ==> (#[trigger] changes@[k]) == self.modified@[k - n],
            decreases m - j,
        {
            changes.push(self.modified[j].duplicate());
            j = j + 1;
        }
        changes
    }

    /// Whether the update changed anything.
    pub fn is_updated(&self) -> (r: bool)
        ensures
            r == (self.modified@.len() > 0 || self.added@.len() > 0 || self.removed@.len() > 0),
    {
        self.modified.len() > 0 || self.added.len() > 0 || self.removed.len() > 0
    }
}

/// Appends `id` unless an equal id is already present.
pub fn push_unique_id(v: &mut Vec<ModuleId>, id: &ModuleId)
    requires
        forall|i: int, j: int|
            0 <= i < j < old(v)@.len() ==> old(v)@[i].id@ != old(v)@[j].id@,
    ensures
        forall|i: int, j: int|
            0 <= i < j < final(v)@.len() ==> final(v)@[i].id@ != final(v)@[j].id@,
        forall|x: Seq<char>|
            recorded(final(v)@, x) == (recorded(old(v)@, x) || x == id.id@),
{
    let n = v.len();
    let mut i: usize = 0;
    while i < n
        invariant
            0 <= i <= n,
            n == v@.len(),
            v@ == old(v)@,
            forall|p: int, q: int| 0 <= p < q < v@.len() ==> v@[p].id@ != v@[q].id@,
            forall|k: int| 0 <= k < i ==> (#[trigger] v@[k]).id@ != id.id@,
        decreases n - i,
    {
        if v[i] == *id {
            proof {
                assert(recorded(v@, id.id@));
                assert forall|x: Seq<char>|
                    recorded(final(v)@, x) == (recorded(old(v)@, x) || x == id.id@) by {
                    if x == id.id@ {
                        assert(v@[i as int].id@ == x);
                    }
                };
            }
            return;
        }
        i = i + 1;
    }
    let ghost prev = v@;
    v.push(id.duplicate());
    proof {
        assert(forall|k: int| 0 <= k < prev.len() ==> final(v)@[k] == prev[k]);
        assert(final(v)@[prev.len() as int].id@ == id.id@);
        assert forall|x: Seq<char>|
            recorded(final(v)@, x) == (recorded(prev, x) || x == id.id@) by {
            if recorded(final(v)@, x) {
                let k = choose|k: int|
                    0 <= k < final(v)@.len() && (#[trigger] final(v)@[k]).id@ == x;
                if k < prev.len() {
                    assert(prev[k].id@ == x);
                }
            }
            if recorded(prev, x) {
                let k = choose|k: int| 0 <= k < prev.len() && (#[trigger] prev[k]).id@ == x;
                assert(final(v)@[k].id@ == x);
            }
            if x == id.id@ {
                assert(final(v)@[prev.len() as int].id@ == x);
            }
        };
    }
}

/// Removes the id with view `id` from a duplicate-free list.
pub fn remove_id(v: &mut Vec<ModuleId>, id: &ModuleId)
    requires
        forall|i: int, j: int|
            0 <= i < j < old(v)@.len() ==> old(v)@[i].id@ != old(v)@[j].id@,
    ensures
        forall|i: int, j: int|
            0 <= i < j < final(v)@.len() ==> final(v)@[i].id@ != final(v)@[j].id@,
        forall|x: Seq<char>|
            recorded(final(v)@, x) == (recorded(old(v)@, x) && x != id.id@),
{
    let n = v.len();
    let mut i: usize = 0;
    while i < n
        invariant
            0 <= i <= n,
            n == v@.len(),
            v@ == old(v)@,
            forall|p: int, q: int| 0 <= p < q < v@.len() ==> v@[p].id@ != v@[q].id@,
            forall|k: int| 0 <= k < i ==> (#[trigger] v@[k]).id@ != id.id@,
        decreases n - i,
    {
        if v[i] == *id {
            let ghost prev = v@;
            v.remove(i);
            proof {
                assert(forall|k: int|
                    0 <= k < final(v)@.len() ==> final(v)@[k] == (if k < i {
                        prev[k]
                    } else {
                        prev[k + 1]
                    }));
                assert forall|x: Seq<char>|
                    recorded(final(v)@, x) == (recorded(prev, x) && x != id.id@) by {
                    if recorded(final(v)@, x) {
                        let k = choose|k: int|
                            0 <= k < final(v)@.len() && (#[trigger] final(v)@[k]).id@ == x;
                        if k < i {
                            assert(prev[k].id@ == x);
                        } else {
                            assert(prev[k + 1].id@ == x);
                        }
                        assert(x != id.id@);
                    }
                    if recorded(prev, x) && x != id.id@ {
                        let k = choose|k: int|
                            0 <= k < prev.len() && (#[trigger] prev[k]).id@ == x;
                        assert(k != i);
                        if k < i {
                            assert(final(v)@[k].id@ == x);
                        } else {
                            assert(final(v)@[k - 1].id@ == x);
                        }
                    }
                };
            }
            return;
        }
        i = i + 1;
    }
    proof {
        assert forall|x: Seq<char>|
            recorded(final(v)@, x) == (recorded(old(v)@, x) && x != id.id@) by {
            if recorded(final(v)@, x) && x == id.id@ {
                let k = choose|k: int|
                    0 <= k < final(v)@.len() && (#[trigger] final(v)@[k]).id@ == x;
            }
        };
    }
}

/// Phase A: how one path classifies, given whether the file exists on
/// disk. A path known to the graph (plainly or as a `?asmodule`
/// virtual module) is a modify; an unknown existing path is an add; a
/// vanished path is a remove.
pub open spec fn classify_spec(g: ModuleGraph, path: Seq<char>, exists_on_disk: bool) -> UpdateType {
    if exists_on_disk {
        if g.spec_has_module(path) || g.spec_has_module(path + "?asmodule"@) {
            UpdateType::Modify
        } else {
            UpdateType::Add
        }
    } else {
        UpdateType::Remove
    }
}

/// Phase A: classifies each `(path, exists-on-disk)` event.
pub fn classify_paths(g: &ModuleGraph, paths: &Vec<(String, bool)>) -> (r: Vec<
    (String, UpdateType),
>)
    ensures
        r@.len() == paths@.len(),
        forall|k: int|
            0 <= k < r@.len() ==> (#[trigger] r@[k]).0@ == paths@[k].0@ && r@[k].1 == classify_spec(
                *g,
                paths@[k].0@,
                paths@[k].1,
            ),
{
    let n = paths.len();
    let mut r: Vec<(String, UpdateType)> = Vec::new();
    let mut i: usize = 0;
    while i < n
        invariant
            0 <= i <= n,
            n == paths@.len(),
            r@.len() == i,
            forall|k: int|
                0 <= k < i ==> (#[trigger] r@[k]).0@ == paths@[k].0@ && r@[k].1 == classify_spec(
                    *g,
                    paths@[k].0@,
                    paths@[k].1,
                ),
        decreases n - i,
    {
        let ghost prevr = r@;
        let path = paths[i].0.clone();
        let exists_on_disk = paths[i].1;
        let update_type = if exists_on_disk {
            let with_as_module = path.clone().concat("?asmodule");
            if g.has_module(&ModuleId::new(path.clone())) || g.has_module(
                &ModuleId::new(with_as_module),
            ) {
                UpdateType::Modify
            } else {
                UpdateType::Add
            }
        } else {
            UpdateType::Remove
        };
        r.push((path, update_type));
        proof {
            assert(forall|k: int| 0 <= k < prevr.len() ==> r@[k] == prevr[k]);
        }
        i = i + 1;
    }
    r
}

/// Whether the path names a style source.
pub open spec fn spec_is_css_path(p: Seq<char>) -> bool {
    seq_ends_with(p, ".css"@) || seq_ends_with(p, ".sass"@) || seq_ends_with(p, ".scss"@)
        || seq_ends_with(p, ".less"@)
}

pub fn is_css_path(p: &str) -> (r: bool)
    ensures
        r == spec_is_css_path(p@),
{
    str_ends_with(p, ".css") || str_ends_with(p, ".sass") || str_ends_with(p, ".scss")
        || str_ends_with(p, ".less")
}

/// Phase C: what the filter keeps of the first `i` classified events.
/// A path stays when the graph knows it; a CSS path whose `?asmodule`
/// twin the graph knows contributes an extra event for the twin.
pub open spec fn filtered_upto(
    g: ModuleGraph,
    paths: Seq<(String, UpdateType)>,
    i: int,
) -> Seq<(Seq<char>, UpdateType)>
    decreases i,
{
    if i <= 0 || i > paths.len() {
        Seq::empty()
    } else {
        let p = paths[i - 1].0@;
        let t = paths[i - 1].1;
        let kept = if g.spec_has_module(p) {
            seq![(p, t)]
        } else {
            Seq::empty()
        };
        let twin = if spec_is_css_path(p) && g.spec_has_module(p + "?asmodule"@) {
            seq![(p + "?asmodule"@, t)]
        } else {
            Seq::empty()
        };
        filtered_upto(g, paths, i - 1) + kept + twin
    }
}

/// Phase C: drops events whose path the graph does not know, and adds
/// the `?asmodule` twin event for known CSS paths.
pub fn filter_paths(g: &ModuleGraph, paths: &Vec<(String, UpdateType)>) -> (r: Vec<
    (String, UpdateType),
>)
    ensures
        r@.len() == filtered_upto(*g, paths@, paths@.len() as int).len(),
        forall|k: int|
            0 <= k < r@.len() ==> {
                let f = filtered_upto(*g, paths@, paths@.len() as int)[k];
                (#[trigger] r@[k]).0@ == f.0 && r@[k].1 == f.1
            },
{
    let n = paths.len();
    let mut r: Vec<(String, UpdateType)> = Vec::new();
    let mut i: usize = 0;
    while i < n
        invariant
            0 <= i <= n,
            n == paths@.len(),
            r@.len() == filtered_upto(*g, paths@, i as int).len(),
            forall|k: int|
                0 <= k < r@.len() ==> {
                    let f = filtered_upto(*g, paths@, i as int)[k];
                    (#[trigger] r@[k]).0@ == f.0 && r@[k].1 == f.1
                },
        decreases n - i,
    {
        let ghost prevr = r@;
        let p = paths[i].0.clone();
        let t = paths[i].1;
        if g.has_module(&ModuleId::new(p.clone())) {
            r.push((p.clone(), t));
        }
        proof {
            assert(forall|k: int| 0 <= k < prevr.len() ==> r@[k] == prevr[k]);
        }
        let ghost midr = r@;
        let with_as_module = p.clone().concat("?asmodule");
        if is_css_path(p.as_str()) && g.has_module(&ModuleId::new(with_as_module.clone())) {
            r.push((with_as_module, t));
        }
        proof {
            assert(forall|k: int| 0 <= k < midr.len() ==> r@[k] == midr[k]);
        }
        i = i + 1;
    }
    r
}

/// P2: the tracked missing-deps set agrees with the graph. An id in
/// the set that still names a module names one with unresolved deps,
/// and every module with unresolved deps is in the set.
pub open spec fn missing_set_consistent(g: ModuleGraph, missing: Seq<ModuleId>) -> bool {
    &&& forall|i: int, j: int| 0 <= i < j < missing.len() ==> missing[i].id@ != missing[j].id@
    &&& forall|i: int|
        0 <= i < missing.len() && g.spec_has_module((#[trigger] missing[i]).id@)
            ==> g.spec_get_module(missing[i].id@).spec_has_missing_deps()
    &&& forall|x: Seq<char>|
        g.spec_has_module(x) && (#[trigger] g.spec_get_module(x)).spec_has_missing_deps()
            ==> recorded(missing, x)
}

/// Shrinking or preserving the graph's modules preserves consistency
/// of the missing-deps set.
pub proof fn lemma_missing_consistent_shrink(g0: ModuleGraph, g1: ModuleGraph, missing: Seq<ModuleId>)
    requires
        missing_set_consistent(g0, missing),
        forall|x: Seq<char>|
            #[trigger] g1.spec_has_module(x) ==> g0.spec_has_module(x) && g1.spec_get_module(x)
                == g0.spec_get_module(x),
    ensures
        missing_set_consistent(g1, missing),
{
}

/// Whether `entry` occurs among the first `bound` entries under a key
/// other than `key`.
pub open spec fn entry_from(
    deps: Seq<(String, Dependency)>,
    bound: int,
    key: Seq<char>,
    entry: (String, Dependency),
) -> bool {
    exists|w: int|
        0 <= w < bound && w < deps.len() && (#[trigger] deps[w]) == entry && deps[w].0@ != key
}

/// A larger bound keeps every entry.
pub proof fn lemma_entry_from_widen(
    deps: Seq<(String, Dependency)>,
    bound: int,
    key: Seq<char>,
    entry: (String, Dependency),
)
    requires
        entry_from(deps, bound, key, entry),
    ensures
        entry_from(deps, bound + 1, key, entry),
{
    let w = choose|w: int|
        0 <= w < bound && w < deps.len() && (#[trigger] deps[w]) == entry && deps[w].0@ != key;
    assert(0 <= w < bound + 1 && w < deps.len() && deps[w] == entry && deps[w].0@ != key);
}

/// Whether `p` is the id of some resolved entry.
pub open spec fn promoted_from(resolved: Seq<(ModuleId, String)>, p: Seq<char>) -> bool {
    exists|j: int| 0 <= j < resolved.len() && (#[trigger] resolved[j]).0.id@ == p
}

/// Whether `key` is among the missing-dep specifiers.
pub open spec fn has_missing_key(deps: Seq<(String, Dependency)>, key: Seq<char>) -> bool {
    exists|i: int| 0 <= i < deps.len() && (#[trigger] deps[i]).0@ == key
}

/// The missing-dep entries with `key` removed.
fn missing_without(deps: &Vec<(String, Dependency)>, key: &str) -> (r: Vec<(String, Dependency)>)
    requires
        forall|i: int, j: int| 0 <= i < j < deps@.len() ==> deps@[i].0@ != deps@[j].0@,
    ensures
        forall|i: int, j: int| 0 <= i < j < r@.len() ==> r@[i].0@ != r@[j].0@,
        forall|x: Seq<char>|
            has_missing_key(r@, x) == (has_missing_key(deps@, x) && x != key@),
        r@.len() == deps@.len() - (if has_missing_key(deps@, key@) {
            1int
        } else {
            0int
        }),
{
    let n = deps.len();
    let mut r: Vec<(String, Dependency)> = Vec::new();
    let mut i: usize = 0;
    while i < n
        invariant
            0 <= i <= n,
            n == deps@.len(),
            forall|p: int, q: int| 0 <= p < q < deps@.len() ==> deps@[p].0@ != deps@[q].0@,
            forall|k: int|
                0 <= k < r@.len() ==> entry_from(deps@, i as int, key@, #[trigger] r@[k]),
            forall|w: int|
                0 <= w < i && (#[trigger] deps@[w]).0@ != key@ ==> has_missing_key(
                    r@,
                    deps@[w].0@,
                ),
            forall|p: int, q: int| 0 <= p < q < r@.len() ==> r@[p].0@ != r@[q].0@,
            r@.len() == i - (if has_missing_key(deps@.subrange(0, i as int), key@) {
                1int
            } else {
                0int
            }),
        decreases n - i,
    {
        let ghost prevr = r@;
        let ghost sub0 = deps@.subrange(0, i as int);
        let ghost sub1 = deps@.subrange(0, i as int + 1);
        proof {
            assert(forall|k: int| 0 <= k < sub0.len() ==> sub1[k] == sub0[k]);
            assert(sub1[i as int] == deps@[i as int]);
            assert forall|x: Seq<char>| has_missing_key(sub1, x) implies has_missing_key(sub0, x)
                || x == deps@[i as int].0@ by {
                let w = choose|w: int| 0 <= w < sub1.len() && (#[trigger] sub1[w]).0@ == x;
                if w < sub0.len() {
                    assert(sub0[w].0@ == x);
                }
            };
            assert forall|x: Seq<char>|
                has_missing_key(sub0, x) || (x == deps@[i as int].0@) implies has_missing_key(
                sub1,
                x,
            ) by {
                if has_missing_key(sub0, x) {
                    let w = choose|w: int| 0 <= w < sub0.len() && (#[trigger] sub0[w]).0@ == x;
                    assert(sub1[w].0@ == x);
                } else {
                    assert(sub1[i as int].0@ == x);
                }
            };
        }
        let keep = !crate::ident::str_eq(deps[i].0.as_str(), key);
        if keep {
            r.push((deps[i].0.clone(), deps[i].1.duplicate()));
            proof {
                assert(forall|k: int| 0 <= k < prevr.len() ==> r@[k] == prevr[k]);
                assert(r@[prevr.len() as int] == deps@[i as int]);
                assert forall|p: int, q: int| 0 <= p < q < r@.len() implies r@[p].0@ != r@[q].0@
                    by {
                    if q == prevr.len() {
                        assert(entry_from(deps@, i as int, key@, prevr[p]));
                        let w = choose|w: int|
                            0 <= w < i && w < deps@.len() && (#[trigger] deps@[w]) == prevr[p]
                                && deps@[w].0@ != key@;
                        assert(deps@[w].0@ != deps@[i as int].0@);
                    }
                };
                assert(!has_missing_key(sub0, key@) ==> !has_missing_key(sub1, key@));
            }
        } else {
            proof {
                assert(has_missing_key(sub1, key@));
                assert(!has_missing_key(sub0, key@)) by {
                    if has_missing_key(sub0, key@) {
                        let w = choose|w: int|
                            0 <= w < sub0.len() && (#[trigger] sub0[w]).0@ == key@;
                        assert(deps@[w].0@ != deps@[i as int].0@);
                    }
                };
            }
        }
        proof {
            assert forall|k: int| 0 <= k < r@.len() implies entry_from(
                deps@,
                i as int + 1,
                key@,
                #[trigger] r@[k],
            ) by {
                if k < prevr.len() {
                    assert(r@[k] == prevr[k]);
                    assert(entry_from(deps@, i as int, key@, prevr[k]));
                    lemma_entry_from_widen(deps@, i as int, key@, prevr[k]);
                } else {
                    assert(keep);
                    assert(r@[k] == deps@[i as int]);
                    assert(0 <= i < i + 1 && deps@[i as int] == r@[k] && deps@[i as int].0@
                        != key@);
                    assert(entry_from(deps@, i as int + 1, key@, r@[k]));
                }
            };
            assert forall|w: int|
                0 <= w < i + 1 && (#[trigger] deps@[w]).0@ != key@ implies has_missing_key(
                r@,
                deps@[w].0@,
            ) by {
                if w < i {
                    assert(has_missing_key(prevr, deps@[w].0@));
                    let k = choose|k: int|
                        0 <= k < prevr.len() && (#[trigger] prevr[k]).0@ == deps@[w].0@;
                    assert(r@[k].0@ == deps@[w].0@);
                } else {
                    assert(keep);
                    assert(r@[r@.len() - 1].0@ == deps@[w].0@);
                }
            };
        }
        i = i + 1;
    }
    proof {
        assert(deps@.subrange(0, n as int) =~= deps@);
        assert forall|x: Seq<char>|
            has_missing_key(r@, x) == (has_missing_key(deps@, x) && x != key@) by {
            if has_missing_key(r@, x) {
                let k = choose|k: int| 0 <= k < r@.len() && (#[trigger] r@[k]).0@ == x;
                assert(entry_from(deps@, n as int, key@, r@[k]));
                let w = choose|w: int|
                    0 <= w < n && w < deps@.len() && (#[trigger] deps@[w]) == r@[k]
                        && deps@[w].0@ != key@;
                assert(deps@[w].0@ == x);
            }
            if has_missing_key(deps@, x) && x != key@ {
                let w = choose|w: int| 0 <= w < deps@.len() && (#[trigger] deps@[w]).0@ == x;
            }
        };
    }
    r
}

/// `m` with the missing dependency for `source` resolved away; every
/// other field is preserved.
fn module_with_missing_removed(m: &Module, source: &str) -> (r: Module)
    requires
        m.wf(),
        m.info is Some,
    ensures
        r.wf(),
        r.id.id@ == m.id.id@,
        r.is_entry == m.is_entry,
        r.side_effects == m.side_effects,
        r.info is Some,
        ({
            let info = m.info->Some_0;
            let rinfo = r.info->Some_0;
            &&& rinfo.ast == info.ast
            &&& rinfo.path@ == info.path@
            &&& rinfo.raw_hash == info.raw_hash
            &&& rinfo.top_level_await == info.top_level_await
            &&& rinfo.is_async == info.is_async
            &&& rinfo.ignored_deps@ == info.ignored_deps@
            &&& forall|x: Seq<char>|
                has_missing_key(rinfo.missing_deps@, x) == (has_missing_key(
                    info.missing_deps@,
                    x,
                ) && x != source@)
            &&& rinfo.missing_deps@.len() == info.missing_deps@.len() - (if has_missing_key(
                info.missing_deps@,
                source@,
            ) {
                1int
            } else {
                0int
            })
        }),
{
    let info = m.info.as_ref().unwrap();
    let missing_deps = missing_without(&info.missing_deps, source);
    let mut ignored_deps: Vec<String> = Vec::new();
    let n = info.ignored_deps.len();
    let mut i: usize = 0;
    while i < n
        invariant
            0 <= i <= n,
            n == info.ignored_deps@.len(),
            ignored_deps@.len() == i,
            forall|k: int| 0 <= k < i ==> (#[trigger] ignored_deps@[k]) == info.ignored_deps@[k],
        decreases n - i,
    {
        ignored_deps.push(info.ignored_deps[i].clone());
        i = i + 1;
    }
    proof {
        assert(ignored_deps@ =~= info.ignored_deps@);
    }
    Module {
        id: m.id.duplicate(),
        is_entry: m.is_entry,
        info: Some(
            crate::module_graph::ModuleInfo {
                ast: info.ast,
                path: info.path.clone(),
                raw_hash: info.raw_hash,
                missing_deps,
                ignored_deps,
                top_level_await: info.top_level_await,
                is_async: info.is_async,
            },
        ),
        side_effects: m.side_effects,
    }
}

/// Whether some of the first `bound` resolver outcomes resolves the
/// dependency `(x, k)`.
pub open spec fn resolved_covers(
    resolved: Seq<(ModuleId, String)>,
    bound: int,
    x: Seq<char>,
    k: Seq<char>,
) -> bool {
    exists|j: int|
        0 <= j < bound && j < resolved.len() && (#[trigger] resolved[j]).0.id@ == x
            && resolved[j].1@ == k
}

/// Whether some of the first `bound` resolver outcomes names module
/// `x`.
pub open spec fn resolved_targets(resolved: Seq<(ModuleId, String)>, bound: int, x: Seq<char>) -> bool {
    exists|j: int|
        0 <= j < bound && j < resolved.len() && (#[trigger] resolved[j]).0.id@ == x
}

/// Field-for-field agreement of two module records, the missing-deps
/// map excepted.
pub open spec fn module_like_except_missing(a: Module, b: Module) -> bool {
    &&& a.id.id@ == b.id.id@
    &&& a.is_entry == b.is_entry
    &&& a.side_effects == b.side_effects
    &&& (a.info is Some) == (b.info is Some)
    &&& (a.info matches Some(ai) ==> (b.info matches Some(bi) ==> ai.ast == bi.ast && ai.path@
        == bi.path@ && ai.raw_hash == bi.raw_hash && ai.top_level_await == bi.top_level_await
        && ai.is_async == bi.is_async && ai.ignored_deps@ == bi.ignored_deps@))
}

/// Phase B: applies the resolver outcomes for previously missing
/// dependencies. Each `(module, source)` pair names a dependency that
/// now resolves: it is erased from the module's missing-deps map, the
/// module is promoted to the modify queue, and it leaves the tracked
/// set once its map is empty.
#[verifier::rlimit(100)]
pub fn repair_missing_deps(
    g: &mut ModuleGraph,
    missing: &mut Vec<ModuleId>,
    resolved: &Vec<(ModuleId, String)>,
) -> (promoted: Vec<String>)
    requires
        old(g).wf(),
        missing_set_consistent(*old(g), old(missing)@),
    ensures
        final(g).wf(),
        missing_set_consistent(*final(g), final(missing)@),
        final(g).edges@ == old(g).edges@,
        forall|x: Seq<char>| final(g).spec_has_module(x) == old(g).spec_has_module(x),
        // modules no outcome names, and modules without parsed info,
        // are untouched
        forall|x: Seq<char>|
            #[trigger] old(g).spec_has_module(x) && !resolved_targets(
                resolved@,
                resolved@.len() as int,
                x,
            ) ==> final(g).spec_get_module(x) == old(g).spec_get_module(x),
        forall|x: Seq<char>|
            #[trigger] old(g).spec_has_module(x) && old(g).spec_get_module(x).info is None
                ==> final(g).spec_get_module(x) == old(g).spec_get_module(x),
        // a module with parsed info keeps every field but its missing
        // map, which drops exactly the resolved specifiers
        forall|x: Seq<char>|
            #[trigger] old(g).spec_has_module(x) && old(g).spec_get_module(x).info is Some ==> {
                let m0 = old(g).spec_get_module(x);
                let m1 = final(g).spec_get_module(x);
                &&& module_like_except_missing(m1, m0)
                &&& m1.info is Some
                &&& (forall|k: Seq<char>|
                    #![trigger has_missing_key((m1.info->Some_0).missing_deps@, k)]
                    has_missing_key((m1.info->Some_0).missing_deps@, k) == (has_missing_key(
                        (m0.info->Some_0).missing_deps@,
                        k,
                    ) && !resolved_covers(resolved@, resolved@.len() as int, x, k)))
            },
        // each applicable outcome promotes its module to the modify
        // queue
        forall|j: int|
            0 <= j < resolved@.len() && old(g).spec_has_module((#[trigger] resolved@[j]).0.id@)
                && old(g).spec_get_module(resolved@[j].0.id@).info is Some
                ==> crate::idents::seq_has(promoted@, resolved@[j].0.id@),
        forall|k: int|
            0 <= k < promoted@.len() ==> promoted_from(resolved@, (#[trigger] promoted@[k])@),
        // an id leaves the tracked set exactly when its module's map
        // emptied
        forall|x: Seq<char>|
            recorded(final(missing)@, x) == (recorded(old(missing)@, x) && !(old(g).spec_has_module(
                x,
            ) && old(g).spec_get_module(x).info is Some && resolved_targets(
                resolved@,
                resolved@.len() as int,
                x,
            ) && (final(g).spec_get_module(x).info->Some_0).missing_deps@.len() == 0)),
{
    let n = resolved.len();
    let mut promoted: Vec<String> = Vec::new();
    let mut i: usize = 0;
    while i < n
        invariant
            0 <= i <= n,
            n == resolved@.len(),
            g.wf(),
            missing_set_consistent(*g, missing@),
            g.edges@ == old(g).edges@,
            forall|x: Seq<char>| g.spec_has_module(x) == old(g).spec_has_module(x),
            forall|x: Seq<char>|
                #[trigger] old(g).spec_has_module(x) && !resolved_targets(resolved@, i as int, x)
                    ==> g.spec_get_module(x) == old(g).spec_get_module(x),
            forall|x: Seq<char>|
                #[trigger] old(g).spec_has_module(x) && old(g).spec_get_module(x).info is None
                    ==> g.spec_get_module(x) == old(g).spec_get_module(x),
            forall|x: Seq<char>|
                #[trigger] old(g).spec_has_module(x) && old(g).spec_get_module(x).info is Some
                    ==> {
                    let m0 = old(g).spec_get_module(x);
                    let m1 = g.spec_get_module(x);
                    &&& module_like_except_missing(m1, m0)
                    &&& m1.info is Some
                    &&& (forall|k: Seq<char>|
                        #![trigger has_missing_key((m1.info->Some_0).missing_deps@, k)]
                        has_missing_key((m1.info->Some_0).missing_deps@, k) == (has_missing_key(
                            (m0.info->Some_0).missing_deps@,
                            k,
                        ) && !resolved_covers(resolved@, i as int, x, k)))
                },
            forall|j: int|
                0 <= j < i && old(g).spec_has_module((#[trigger] resolved@[j]).0.id@)
                    && old(g).spec_get_module(resolved@[j].0.id@).info is Some
                    ==> crate::idents::seq_has(promoted@, resolved@[j].0.id@),
            forall|k: int|
                0 <= k < promoted@.len() ==> promoted_from(resolved@, (#[trigger] promoted@[k])@),
            forall|x: Seq<char>|
                recorded(missing@, x) == (recorded(old(missing)@, x) && !(old(g).spec_has_module(
                    x,
                ) && old(g).spec_get_module(x).info is Some && resolved_targets(
                    resolved@,
                    i as int,
                    x,
                ) && (g.spec_get_module(x).info->Some_0).missing_deps@.len() == 0)),
        decreases n - i,
    {
        let ghost prevp = promoted@;
        let ghost g0 = *g;
        let ghost m0 = missing@;
        let id = &resolved[i].0;
        let source = &resolved[i].1;
        let ghost target = id.id@;
        proof {
            // a larger prefix of outcomes covers everything the shorter
            // one does, plus this entry
            assert forall|x: Seq<char>, k: Seq<char>|
                resolved_covers(resolved@, i as int + 1, x, k) == (resolved_covers(
                    resolved@,
                    i as int,
                    x,
                    k,
                ) || (x == target && k == resolved@[i as int].1@)) by {
                if resolved_covers(resolved@, i as int + 1, x, k) {
                    let j = choose|j: int|
                        0 <= j < i + 1 && j < resolved@.len() && (#[trigger] resolved@[j]).0.id@
                            == x && resolved@[j].1@ == k;
                    if j < i {
                        assert(resolved_covers(resolved@, i as int, x, k));
                    }
                }
                if resolved_covers(resolved@, i as int, x, k) {
                    let j = choose|j: int|
                        0 <= j < i && j < resolved@.len() && (#[trigger] resolved@[j]).0.id@ == x
                            && resolved@[j].1@ == k;
                    assert(0 <= j < i + 1 && resolved@[j].0.id@ == x && resolved@[j].1@ == k);
                }
                if x == target && k == resolved@[i as int].1@ {
                    assert(0 <= i < i + 1 && resolved@[i as int].0.id@ == x
                        && resolved@[i as int].1@ == k);
                }
            };
            assert forall|x: Seq<char>|
                resolved_targets(resolved@, i as int + 1, x) == (resolved_targets(
                    resolved@,
                    i as int,
                    x,
                ) || x == target) by {
                if resolved_targets(resolved@, i as int + 1, x) {
                    let j = choose|j: int|
                        0 <= j < i + 1 && j < resolved@.len() && (#[trigger] resolved@[j]).0.id@
                            == x;
                    if j < i {
                        assert(resolved_targets(resolved@, i as int, x));
                    }
                }
                if resolved_targets(resolved@, i as int, x) {
                    let j = choose|j: int|
                        0 <= j < i && j < resolved@.len() && (#[trigger] resolved@[j]).0.id@ == x;
                    assert(0 <= j < i + 1 && resolved@[j].0.id@ == x);
                }
                if x == target {
                    assert(resolved@[i as int].0.id@ == x);
                }
            };
        }
        if g.has_module(id) {
            let has_info = g.get_module(id).info.is_some();
            if has_info {
                let rebuilt = module_with_missing_removed(g.get_module(id), source.as_str());
                let still_missing = rebuilt.has_missing_deps();
                proof {
                    assert(g0.spec_get_module(target).info is Some);
                    assert(old(g).spec_get_module(target).info is Some);
                }
                g.replace_module(rebuilt);
                if !still_missing {
                    remove_id(missing, id);
                }
                promoted.push(id.id.clone());
                proof {
                    assert(forall|k: int| 0 <= k < prevp.len() ==> promoted@[k] == prevp[k]);
                    assert(promoted@[prevp.len() as int]@ == resolved@[i as int].0.id@);
                    assert forall|k: int| 0 <= k < promoted@.len() implies promoted_from(
                        resolved@,
                        (#[trigger] promoted@[k])@,
                    ) by {
                        if k < prevp.len() {
                            assert(promoted@[k] == prevp[k]);
                            assert(promoted_from(resolved@, prevp[k]@));
                        } else {
                            assert(resolved@[i as int].0.id@ == promoted@[k]@);
                            assert(promoted_from(resolved@, promoted@[k]@));
                        }
                    };
                    assert forall|j: int|
                        0 <= j < i + 1 && old(g).spec_has_module((#[trigger] resolved@[j]).0.id@)
                            && old(g).spec_get_module(resolved@[j].0.id@).info is Some implies
                        crate::idents::seq_has(promoted@, resolved@[j].0.id@) by {
                        if j < i {
                            assert(crate::idents::seq_has(prevp, resolved@[j].0.id@));
                            let k2 = choose|k2: int|
                                0 <= k2 < prevp.len() && (#[trigger] prevp[k2])@
                                    == resolved@[j].0.id@;
                            assert(promoted@[k2]@ == resolved@[j].0.id@);
                        } else {
                            assert(promoted@[prevp.len() as int]@ == resolved@[j].0.id@);
                        }
                    };
                    // the per-module characterizations compose with one
                    // more resolved entry
                    assert forall|x: Seq<char>|
                        #[trigger] old(g).spec_has_module(x) && old(g).spec_get_module(x).info
                            is Some implies {
                        let mm0 = old(g).spec_get_module(x);
                        let mm1 = g.spec_get_module(x);
                        &&& module_like_except_missing(mm1, mm0)
                        &&& mm1.info is Some
                        &&& (forall|k: Seq<char>|
                            #![trigger has_missing_key((mm1.info->Some_0).missing_deps@, k)]
                            has_missing_key((mm1.info->Some_0).missing_deps@, k) == (
                            has_missing_key((mm0.info->Some_0).missing_deps@, k)
                                && !resolved_covers(resolved@, i as int + 1, x, k)))
                    } by {
                        if x == target {
                            assert(g.spec_get_module(x) == rebuilt);
                            assert(g0.spec_get_module(x).info is Some);
                        } else {
                            assert(g.spec_get_module(x) == g0.spec_get_module(x));
                        }
                    };
                    // the tracked set stays consistent with the graph
                    assert forall|ii: int|
                        0 <= ii < missing@.len() && g.spec_has_module(
                            (#[trigger] missing@[ii]).id@,
                        ) implies g.spec_get_module(missing@[ii].id@).spec_has_missing_deps() by {
                        let x = missing@[ii].id@;
                        assert(recorded(missing@, x));
                        if x == target {
                            assert(still_missing);
                            assert(g.spec_get_module(x) == rebuilt);
                        } else {
                            assert(recorded(m0, x));
                            let k = choose|k: int|
                                0 <= k < m0.len() && (#[trigger] m0[k]).id@ == x;
                            assert(g0.spec_has_module(x));
                            assert(g0.spec_get_module(x).spec_has_missing_deps());
                            assert(g.spec_get_module(x) == g0.spec_get_module(x));
                        }
                    };
                    assert forall|x: Seq<char>|
                        g.spec_has_module(x) && (
                        #[trigger] g.spec_get_module(x)).spec_has_missing_deps() implies recorded(
                        missing@,
                        x,
                    ) by {
                        if x == target {
                            assert(g.spec_get_module(x) == rebuilt);
                            assert(still_missing);
                            assert(g0.spec_get_module(x).spec_has_missing_deps());
                            assert(recorded(m0, x));
                        } else {
                            assert(g.spec_get_module(x) == g0.spec_get_module(x));
                            assert(recorded(m0, x));
                        }
                    };
                    // membership characterization advances by one entry
                    assert forall|x: Seq<char>|
                        recorded(missing@, x) == (recorded(old(missing)@, x) && !(old(
                            g,
                        ).spec_has_module(x) && old(g).spec_get_module(x).info is Some
                            && resolved_targets(resolved@, i as int + 1, x) && (g.spec_get_module(
                            x,
                        ).info->Some_0).missing_deps@.len() == 0)) by {
                        if x == target {
                            assert(g.spec_get_module(x) == rebuilt);
                            if still_missing {
                                assert(recorded(missing@, x) == recorded(m0, x));
                            } else {
                                assert(!recorded(missing@, x));
                            }
                        } else {
                            if old(g).spec_has_module(x) {
                                assert(g0.spec_has_module(x));
                                assert(g.spec_get_module(x) == g0.spec_get_module(x));
                            }
                        }
                    };
                }
            } else {
                proof {
                    assert(old(g).spec_get_module(target).info is None) by {
                        if old(g).spec_get_module(target).info is Some {
                            assert(g.spec_get_module(target).info is Some);
                        }
                    };
                }
            }
        } else {
            proof {
                assert(!old(g).spec_has_module(target));
            }
        }
        proof {
            // entries that named an absent or info-less module change
            // nothing; restate the prefix facts at the longer bound
            assert forall|x: Seq<char>|
                #[trigger] old(g).spec_has_module(x) && !resolved_targets(
                    resolved@,
                    i as int + 1,
                    x,
                ) implies g.spec_get_module(x) == old(g).spec_get_module(x) by {
                assert(!resolved_targets(resolved@, i as int, x));
            };
            assert forall|x: Seq<char>|
                #[trigger] old(g).spec_has_module(x) && old(g).spec_get_module(x).info is Some
                    implies {
                let mm0 = old(g).spec_get_module(x);
                let mm1 = g.spec_get_module(x);
                &&& module_like_except_missing(mm1, mm0)
                &&& mm1.info is Some
                &&& (forall|k: Seq<char>|
                    #![trigger has_missing_key((mm1.info->Some_0).missing_deps@, k)]
                    has_missing_key((mm1.info->Some_0).missing_deps@, k) == (has_missing_key(
                        (mm0.info->Some_0).missing_deps@,
                        k,
                    ) && !resolved_covers(resolved@, i as int + 1, x, k)))
            } by {
                if x == target && (!old(g).spec_has_module(target)
                    || old(g).spec_get_module(target).info is None) {
                }
            };
            assert forall|x: Seq<char>|
                recorded(missing@, x) == (recorded(old(missing)@, x) && !(old(g).spec_has_module(
                    x,
                ) && old(g).spec_get_module(x).info is Some && resolved_targets(
                    resolved@,
                    i as int + 1,
                    x,
                ) && (g.spec_get_module(x).info->Some_0).missing_deps@.len() == 0)) by {};
        }
        i = i + 1;
    }
    promoted
}

/// Whether some removed module had an edge from `x` pointing at it.
pub open spec fn affected_witness(
    edges: Seq<ModuleGraphEdge>,
    removed: Seq<ModuleId>,
    x: Seq<char>,
) -> bool {
    exists|j: int|
        0 <= j < removed.len() && is_dependant_upto(
            edges,
            (#[trigger] removed[j]).id@,
            x,
            edges.len() as int,
        )
}

/// Phase D: removes each listed module with its incident edges,
/// collecting the removed ids and the dependants that must be
/// re-analyzed because an edge target disappeared.
#[verifier::rlimit(80)]
pub fn build_by_remove(g: &mut ModuleGraph, removed: &Vec<ModuleId>) -> (r: (
    Vec<ModuleId>,
    Vec<ModuleId>,
))
    requires
        old(g).wf(),
    ensures
        final(g).wf(),
        forall|i: int|
            0 <= i < removed@.len() ==> !final(g).spec_has_module((#[trigger] removed@[i]).id@),
        forall|x: Seq<char>|
            final(g).spec_has_module(x) == (old(g).spec_has_module(x) && !recorded(removed@, x)),
        forall|x: Seq<char>|
            #[trigger] final(g).spec_has_module(x) ==> final(g).spec_get_module(x) == old(
                g,
            ).spec_get_module(x),
        forall|e: int|
            0 <= e < final(g).edges@.len() ==> edge_present(
                old(g).edges@,
                (#[trigger] final(g).edges@[e]),
            ),
        forall|i: int, j: int| 0 <= i < j < r.0@.len() ==> r.0@[i].id@ != r.0@[j].id@,
        forall|x: Seq<char>| recorded(r.0@, x) == recorded(removed@, x),
        forall|i: int, j: int| 0 <= i < j < r.1@.len() ==> r.1@[i].id@ != r.1@[j].id@,
        forall|x: Seq<char>|
            #[trigger] recorded(r.1@, x) ==> affected_witness(old(g).edges@, removed@, x),
        // completeness: every edge into a removed module contributes
        // its source, unless that source was itself removed
        forall|w: int|
            0 <= w < old(g).edges@.len() && recorded(
                removed@,
                (#[trigger] old(g).edges@[w]).to.id@,
            ) ==> recorded(r.1@, old(g).edges@[w].from.id@) || recorded(
                removed@,
                old(g).edges@[w].from.id@,
            ),
        // an edge with no removed endpoint survives
        forall|w: int|
            0 <= w < old(g).edges@.len() && !recorded(
                removed@,
                (#[trigger] old(g).edges@[w]).from.id@,
            ) && !recorded(removed@, old(g).edges@[w].to.id@) ==> edge_present(
                final(g).edges@,
                old(g).edges@[w],
            ),
{
    let n = removed.len();
    let mut removed_module_ids: Vec<ModuleId> = Vec::new();
    let mut affected_module_ids: Vec<ModuleId> = Vec::new();
    let mut i: usize = 0;
    while i < n
        invariant
            0 <= i <= n,
            n == removed@.len(),
            g.wf(),
            forall|x: Seq<char>|
                g.spec_has_module(x) == (old(g).spec_has_module(x) && !recorded(
                    removed@.subrange(0, i as int),
                    x,
                )),
            forall|x: Seq<char>|
                #[trigger] g.spec_has_module(x) ==> g.spec_get_module(x) == old(
                    g,
                ).spec_get_module(x),
            forall|e: int|
                0 <= e < g.edges@.len() ==> edge_present(old(g).edges@, (#[trigger] g.edges@[e])),
            forall|p: int, q: int|
                0 <= p < q < removed_module_ids@.len() ==> removed_module_ids@[p].id@
                    != removed_module_ids@[q].id@,
            forall|x: Seq<char>|
                recorded(removed_module_ids@, x) == recorded(removed@.subrange(0, i as int), x),
            forall|p: int, q: int|
                0 <= p < q < affected_module_ids@.len() ==> affected_module_ids@[p].id@
                    != affected_module_ids@[q].id@,
            forall|x: Seq<char>|
                #[trigger] recorded(affected_module_ids@, x) ==> affected_witness(
                    old(g).edges@,
                    removed@,
                    x,
                ),
            forall|w: int|
                0 <= w < old(g).edges@.len() && recorded(
                    removed@.subrange(0, i as int),
                    (#[trigger] old(g).edges@[w]).to.id@,
                ) ==> recorded(affected_module_ids@, old(g).edges@[w].from.id@) || recorded(
                    removed@.subrange(0, i as int),
                    old(g).edges@[w].from.id@,
                ),
            forall|w: int|
                0 <= w < old(g).edges@.len() && !recorded(
                    removed@.subrange(0, i as int),
                    (#[trigger] old(g).edges@[w]).from.id@,
                ) && !recorded(removed@.subrange(0, i as int), old(g).edges@[w].to.id@)
                    ==> edge_present(g.edges@, old(g).edges@[w]),
        decreases n - i,
    {
        let module_id = &removed[i];
        let ghost g_before = *g;
        let dependants = g.remove_module_and_deps(module_id);
        let ghost aff_entry = affected_module_ids@;

        // Fold the dependants into the affected set.
        let m = dependants.len();
        let mut d: usize = 0;
        while d < m
            invariant
                0 <= d <= m,
                m == dependants@.len(),
                0 <= i < n,
                n == removed@.len(),
                forall|k: int|
                    0 <= k < dependants@.len() ==> is_dependant_upto(
                        g_before.edges@,
                        removed@[i as int].id@,
                        (#[trigger] dependants@[k]).id@,
                        g_before.edges@.len() as int,
                    ),
                forall|e: int|
                    0 <= e < g_before.edges@.len() ==> edge_present(
                        old(g).edges@,
                        (#[trigger] g_before.edges@[e]),
                    ),
                forall|p: int, q: int|
                    0 <= p < q < affected_module_ids@.len() ==> affected_module_ids@[p].id@
                        != affected_module_ids@[q].id@,
                forall|x: Seq<char>|
                    #[trigger] recorded(affected_module_ids@, x) ==> affected_witness(
                        old(g).edges@,
                        removed@,
                        x,
                    ),
                forall|x: Seq<char>|
                    #[trigger] recorded(aff_entry, x) ==> recorded(affected_module_ids@, x),
                forall|k: int|
                    0 <= k < d ==> recorded(
                        affected_module_ids@,
                        (#[trigger] dependants@[k]).id@,
                    ),
            decreases m - d,
        {
            let ghost preva = affected_module_ids@;
            push_unique_id(&mut affected_module_ids, &dependants[d]);
            proof {
                assert forall|x: Seq<char>|
                    #[trigger] recorded(aff_entry, x) implies recorded(
                    affected_module_ids@,
                    x,
                ) by {
                    assert(recorded(preva, x));
                };
                assert forall|k: int| 0 <= k < d + 1 implies recorded(
                    affected_module_ids@,
                    (#[trigger] dependants@[k]).id@,
                ) by {
                    if k < d {
                        assert(recorded(preva, dependants@[k].id@));
                    } else {
                        assert(recorded(affected_module_ids@, dependants@[d as int].id@));
                    }
                };
                assert forall|x: Seq<char>|
                    #[trigger] recorded(affected_module_ids@, x) implies affected_witness(
                    old(g).edges@,
                    removed@,
                    x,
                ) by {
                    if !recorded(preva, x) {
                        assert(x == dependants@[d as int].id@);
                        assert(is_dependant_upto(
                            g_before.edges@,
                            removed@[i as int].id@,
                            x,
                            g_before.edges@.len() as int,
                        ));
                        let e = choose|e: int|
                            0 <= e < g_before.edges@.len() && e < g_before.edges@.len() && (
                            #[trigger] g_before.edges@[e]).to.id@ == removed@[i as int].id@
                                && g_before.edges@[e].from.id@ == x;
                        assert(edge_present(old(g).edges@, g_before.edges@[e]));
                        let w = choose|w: int|
                            0 <= w < old(g).edges@.len() && (#[trigger] old(g).edges@[w])
                                == g_before.edges@[e];
                        assert(old(g).edges@[w].to.id@ == removed@[i as int].id@
                            && old(g).edges@[w].from.id@ == x);
                        assert(is_dependant_upto(
                            old(g).edges@,
                            removed@[i as int].id@,
                            x,
                            old(g).edges@.len() as int,
                        ));
                        assert(affected_witness(old(g).edges@, removed@, x));
                    }
                };
            }
            d = d + 1;
        }

        push_unique_id(&mut removed_module_ids, module_id);
        proof {
            let sub0 = removed@.subrange(0, i as int);
            let sub1 = removed@.subrange(0, i as int + 1);
            let rid = removed@[i as int].id@;
            assert(forall|k: int| 0 <= k < sub0.len() ==> sub1[k] == sub0[k]);
            assert(sub1[i as int] == removed@[i as int]);
            assert forall|x: Seq<char>| recorded(sub1, x) implies recorded(sub0, x) || x
                == removed@[i as int].id@ by {
                let k = choose|k: int| 0 <= k < sub1.len() && (#[trigger] sub1[k]).id@ == x;
                if k < sub0.len() {
                    assert(sub0[k].id@ == x);
                }
            };
            assert forall|x: Seq<char>|
                recorded(sub0, x) || x == removed@[i as int].id@ implies recorded(sub1, x) by {
                if recorded(sub0, x) {
                    let k = choose|k: int| 0 <= k < sub0.len() && (#[trigger] sub0[k]).id@ == x;
                    assert(sub1[k].id@ == x);
                } else {
                    assert(sub1[i as int].id@ == x);
                }
            };
            // kept edges: neither endpoint removed so far
            assert forall|w: int|
                0 <= w < old(g).edges@.len() && !recorded(
                    sub1,
                    (#[trigger] old(g).edges@[w]).from.id@,
                ) && !recorded(sub1, old(g).edges@[w].to.id@) implies edge_present(
                g.edges@,
                old(g).edges@[w],
            ) by {
                assert(!recorded(sub0, old(g).edges@[w].from.id@));
                assert(!recorded(sub0, old(g).edges@[w].to.id@));
                assert(edge_present(g_before.edges@, old(g).edges@[w]));
                let e2 = choose|e2: int|
                    0 <= e2 < g_before.edges@.len() && (#[trigger] g_before.edges@[e2]) == old(
                        g,
                    ).edges@[w];
                assert(g_before.edges@[e2].from.id@ != rid && g_before.edges@[e2].to.id@ != rid);
                assert(edge_present(g.edges@, g_before.edges@[e2]));
            };
            // completeness: new edges into the module removed this round
            assert forall|w: int|
                0 <= w < old(g).edges@.len() && recorded(
                    sub1,
                    (#[trigger] old(g).edges@[w]).to.id@,
                ) implies recorded(affected_module_ids@, old(g).edges@[w].from.id@) || recorded(
                sub1,
                old(g).edges@[w].from.id@,
            ) by {
                let from = old(g).edges@[w].from.id@;
                let to = old(g).edges@[w].to.id@;
                if recorded(sub0, to) {
                    // held before this round; the affected set only grew
                    if recorded(aff_entry, from) {
                        assert(recorded(affected_module_ids@, from));
                    } else {
                        assert(recorded(sub0, from));
                        let k = choose|k: int|
                            0 <= k < sub0.len() && (#[trigger] sub0[k]).id@ == from;
                        assert(sub1[k].id@ == from);
                    }
                } else {
                    assert(to == rid);
                    if !recorded(sub0, from) && !recorded(sub0, to) {
                        assert(edge_present(g_before.edges@, old(g).edges@[w]));
                        let e2 = choose|e2: int|
                            0 <= e2 < g_before.edges@.len() && (#[trigger] g_before.edges@[e2])
                                == old(g).edges@[w];
                        assert(g_before.edges@[e2].to.id@ == rid);
                        assert(recorded(dependants@, g_before.edges@[e2].from.id@));
                        let k = choose|k: int|
                            0 <= k < dependants@.len() && (#[trigger] dependants@[k]).id@ == from;
                        assert(recorded(affected_module_ids@, dependants@[k].id@));
                    } else {
                        if recorded(sub0, from) {
                            let k = choose|k: int|
                                0 <= k < sub0.len() && (#[trigger] sub0[k]).id@ == from;
                            assert(sub1[k].id@ == from);
                        } else {
                            assert(recorded(sub0, to));
                        }
                    }
                }
            };
        }
        i = i + 1;
    }
    proof {
        assert(removed@.subrange(0, n as int) =~= removed@);
        assert forall|i2: int|
            0 <= i2 < removed@.len() implies !g.spec_has_module(
            (#[trigger] removed@[i2]).id@,
        ) by {
            assert(recorded(removed@, removed@[i2].id@));
        };
    }
    (removed_module_ids, affected_module_ids)
}

/// The dependency differences between the edges a module had and the
/// edges its rebuild produced.
#[derive(Debug)]
pub struct Diff {
    pub added: Vec<(ModuleId, Dependency)>,
    pub removed: Vec<(ModuleId, Dependency)>,
}

/// Whether an entry with these views occurs in the list.
pub open spec fn dep_entry_present(
    entries: Seq<(ModuleId, Dependency)>,
    id: Seq<char>,
    dep: Dependency,
) -> bool {
    exists|i: int|
        0 <= i < entries.len() && (#[trigger] entries[i]).0.id@ == id && dep_eq(
            entries[i].1,
            dep,
        )
}

/// Compares two dependency lists as sets of `(module id, dependency)`
/// pairs: `added` holds the target entries absent from the origin,
/// `removed` the origin entries absent from the target.
pub fn diff(origin: &Vec<(ModuleId, Dependency)>, target: &Vec<(ModuleId, Dependency)>) -> (d: Diff)
    ensures
        forall|k: int|
            0 <= k < d.added@.len() ==> dep_entry_present(
                target@,
                (#[trigger] d.added@[k]).0.id@,
                d.added@[k].1,
            ) && !dep_entry_present(origin@, d.added@[k].0.id@, d.added@[k].1),
        forall|j: int|
            0 <= j < target@.len() && !dep_entry_present(
                origin@,
                (#[trigger] target@[j]).0.id@,
                target@[j].1,
            ) ==> dep_entry_present(d.added@, target@[j].0.id@, target@[j].1),
        forall|k: int|
            0 <= k < d.removed@.len() ==> dep_entry_present(
                origin@,
                (#[trigger] d.removed@[k]).0.id@,
                d.removed@[k].1,
            ) && !dep_entry_present(target@, d.removed@[k].0.id@, d.removed@[k].1),
        forall|j: int|
            0 <= j < origin@.len() && !dep_entry_present(
                target@,
                (#[trigger] origin@[j]).0.id@,
                origin@[j].1,
            ) ==> dep_entry_present(d.removed@, origin@[j].0.id@, origin@[j].1),
{
    let added = diff_one_side(target, origin);
    let removed = diff_one_side(origin, target);
    Diff { added, removed }
}

/// The entries of `from` that do not occur in `against` as a
/// `(module id, dependency)` pair.
fn diff_one_side(
    from: &Vec<(ModuleId, Dependency)>,
    against: &Vec<(ModuleId, Dependency)>,
) -> (r: Vec<(ModuleId, Dependency)>)
    ensures
        forall|k: int|
            0 <= k < r@.len() ==> dep_entry_present(
                from@,
                (#[trigger] r@[k]).0.id@,
                r@[k].1,
            ) && !dep_entry_present(against@, r@[k].0.id@, r@[k].1),
        forall|j: int|
            0 <= j < from@.len() && !dep_entry_present(
                against@,
                (#[trigger] from@[j]).0.id@,
                from@[j].1,
            ) ==> dep_entry_present(r@, from@[j].0.id@, from@[j].1),
{
    let n = from.len();
    let mut r: Vec<(ModuleId, Dependency)> = Vec::new();
    let mut i: usize = 0;
    while i < n
        invariant
            0 <= i <= n,
            n == from@.len(),
            forall|k: int|
                0 <= k < r@.len() ==> dep_entry_present(
                    from@,
                    (#[trigger] r@[k]).0.id@,
                    r@[k].1,
                ) && !dep_entry_present(against@, r@[k].0.id@, r@[k].1),
            forall|j: int|
                0 <= j < i && !dep_entry_present(
                    against@,
                    (#[trigger] from@[j]).0.id@,
                    from@[j].1,
                ) ==> dep_entry_present(r@, from@[j].0.id@, from@[j].1),
        decreases n - i,
    {
        let ghost prevr = r@;
        if !contains_entry(against, &from[i].0, &from[i].1) {
            r.push((from[i].0.duplicate(), from[i].1.duplicate()));
            proof {
                assert(forall|k: int| 0 <= k < prevr.len() ==> r@[k] == prevr[k]);
                assert(r@[prevr.len() as int].0.id@ == from@[i as int].0.id@);
                assert(dep_eq(r@[prevr.len() as int].1, from@[i as int].1));
                assert(dep_entry_present(from@, from@[i as int].0.id@, from@[i as int].1));
            }
        }
        proof {
            assert forall|j: int|
                0 <= j < i + 1 && !dep_entry_present(
                    against@,
                    (#[trigger] from@[j]).0.id@,
                    from@[j].1,
                ) implies dep_entry_present(r@, from@[j].0.id@, from@[j].1) by {
                if j < i {
                    let k = choose|k: int|
                        0 <= k < prevr.len() && (#[trigger] prevr[k]).0.id@ == from@[j].0.id@
                            && dep_eq(prevr[k].1, from@[j].1);
                    assert(r@[k].0.id@ == from@[j].0.id@ && dep_eq(r@[k].1, from@[j].1));
                }
            };
        }
        i = i + 1;
    }
    r
}

/// Whether the pair `(id, dep)` occurs among the entries.
fn contains_entry(entries: &Vec<(ModuleId, Dependency)>, id: &ModuleId, dep: &Dependency) -> (r:
    bool)
    ensures
        r == dep_entry_present(entries@, id.id@, *dep),
{
    let n = entries.len();
    let mut i: usize = 0;
    while i < n
        invariant
            0 <= i <= n,
            n == entries@.len(),
            forall|k: int|
                0 <= k < i ==> !((#[trigger] entries@[k]).0.id@ == id.id@ && dep_eq(
                    entries@[k].1,
                    *dep,
                )),
        decreases n - i,
    {
        if entries[i].0 == *id && entries[i].1 == *dep {
            return true;
        }
        i = i + 1;
    }
    false
}

/// Assembles the final change set. The remove phase runs first and its
/// ids are gone from the graph before modify and add run, so the three
/// sets are disjoint where `removed` is concerned.
pub fn finish_update(
    removed: Vec<ModuleId>,
    modified: Vec<ModuleId>,
    added: Vec<ModuleId>,
) -> (r: UpdateResult)
    requires
        forall|i: int, j: int| 0 <= i < j < removed@.len() ==> removed@[i].id@ != removed@[j].id@,
        forall|i: int, j: int|
            0 <= i < j < modified@.len() ==> modified@[i].id@ != modified@[j].id@,
        forall|i: int, j: int| 0 <= i < j < added@.len() ==> added@[i].id@ != added@[j].id@,
        ids_disjoint(added@, removed@),
        ids_disjoint(modified@, removed@),
    ensures
        r.wf(),
        r.sets_disjoint(),
        r.added@ == added@,
        r.removed@ == removed@,
        r.modified@ == modified@,
{
    UpdateResult { added, removed, modified }
}

/// Whether the graph holds an edge `m -> t` labeled `dep`, compared by
/// value.
pub open spec fn has_out_edge(g: ModuleGraph, m: Seq<char>, t: Seq<char>, dep: Dependency) -> bool {
    exists|e: int|
        0 <= e < g.edges@.len() && (#[trigger] g.edges@[e]).from.id@ == m && g.edges@[e].to.id@
            == t && dep_eq(g.edges@[e].dep, dep)
}

/// Entry-for-entry agreement of two missing-deps maps.
pub open spec fn missing_deps_like(
    a: Seq<(String, Dependency)>,
    b: Seq<(String, Dependency)>,
) -> bool {
    a.len() == b.len() && forall|k: int|
        0 <= k < a.len() ==> (#[trigger] a[k]).0@ == b[k].0@ && dep_eq(a[k].1, b[k].1)
}

/// Field-for-field agreement of two module records.
pub open spec fn module_like(a: Module, b: Module) -> bool {
    &&& module_like_except_missing(a, b)
    &&& (a.info matches Some(ai) ==> (b.info matches Some(bi) ==> missing_deps_like(
        ai.missing_deps@,
        bi.missing_deps@,
    )))
}

/// Whether a child record with id `x` and no parsed info is listed.
pub open spec fn child_info_none(children: Seq<Module>, x: Seq<char>) -> bool {
    exists|k: int|
        0 <= k < children.len() && (#[trigger] children[k]).id.id@ == x && children[k].info
            is None
}

/// Whether one of the first `bound` rebuilds is for module `x`.
pub open spec fn result_module_upto(results: Seq<ModifyRebuild>, bound: int, x: Seq<char>) -> bool {
    exists|i: int|
        0 <= i < bound && i < results.len() && (#[trigger] results[i]).module.id.id@ == x
}

/// Whether one of the first `bound` rebuilds lists a child record for
/// `x`.
pub open spec fn result_child_upto(results: Seq<ModifyRebuild>, bound: int, x: Seq<char>) -> bool {
    exists|i: int|
        0 <= i < bound && i < results.len() && child_with_id((#[trigger] results[i]).children@, x)
}

/// The dependency pairs a module's collected dependency list holds are
/// exactly its outgoing edges.
proof fn lemma_collected_deps_match(g: ModuleGraph, m: Seq<char>, r: Seq<(ModuleId, Dependency)>)
    requires
        r.len() == crate::module_graph::deps_upto(g.edges@, m, g.edges@.len() as int).len(),
        forall|k: int|
            0 <= k < r.len() ==> (#[trigger] r[k]).0.id@ == crate::module_graph::deps_upto(
                g.edges@,
                m,
                g.edges@.len() as int,
            )[k].0 && dep_eq(
                r[k].1,
                crate::module_graph::deps_upto(g.edges@, m, g.edges@.len() as int)[k].1,
            ),
    ensures
        forall|t: Seq<char>, dep: Dependency|
            #![trigger dep_entry_present(r, t, dep)]
            #![trigger has_out_edge(g, m, t, dep)]
            dep_entry_present(r, t, dep) == has_out_edge(g, m, t, dep),
{
    crate::module_graph::lemma_deps_upto_edges(g.edges@, m, g.edges@.len() as int);
    let du = crate::module_graph::deps_upto(g.edges@, m, g.edges@.len() as int);
    assert forall|t: Seq<char>, dep: Dependency|
        #![trigger dep_entry_present(r, t, dep)]
        #![trigger has_out_edge(g, m, t, dep)]
        dep_entry_present(r, t, dep) == has_out_edge(g, m, t, dep) by {
        if dep_entry_present(r, t, dep) {
            let k = choose|k: int|
                0 <= k < r.len() && (#[trigger] r[k]).0.id@ == t && dep_eq(r[k].1, dep);
            let e = choose|e: int|
                0 <= e < g.edges@.len() && (#[trigger] g.edges@[e]).from.id@ == m
                    && g.edges@[e].to.id@ == du[k].0 && dep_eq(g.edges@[e].dep, du[k].1);
            assert(g.edges@[e].to.id@ == t && dep_eq(g.edges@[e].dep, dep));
            assert(has_out_edge(g, m, t, dep));
        }
        if has_out_edge(g, m, t, dep) {
            let e = choose|e: int|
                0 <= e < g.edges@.len() && (#[trigger] g.edges@[e]).from.id@ == m
                    && g.edges@[e].to.id@ == t && dep_eq(g.edges@[e].dep, dep);
            let k = choose|k: int|
                0 <= k < du.len() && (#[trigger] du[k]).0 == g.edges@[e].to.id@ && dep_eq(
                    du[k].1,
                    g.edges@[e].dep,
                );
            assert(r[k].0.id@ == t && dep_eq(r[k].1, dep));
            assert(dep_entry_present(r, t, dep));
        }
    };
}

/// Graphs with equal edge lists have the same outgoing edges.
proof fn lemma_same_edges_out(g1: ModuleGraph, g2: ModuleGraph)
    requires
        g1.edges@ == g2.edges@,
    ensures
        forall|m: Seq<char>, t: Seq<char>, dep: Dependency|
            #![trigger has_out_edge(g1, m, t, dep)]
            #![trigger has_out_edge(g2, m, t, dep)]
            has_out_edge(g1, m, t, dep) == has_out_edge(g2, m, t, dep),
{
    assert forall|m: Seq<char>, t: Seq<char>, dep: Dependency|
        #![trigger has_out_edge(g1, m, t, dep)]
        #![trigger has_out_edge(g2, m, t, dep)]
        has_out_edge(g1, m, t, dep) == has_out_edge(g2, m, t, dep) by {
        if has_out_edge(g1, m, t, dep) {
            let e = choose|e: int|
                0 <= e < g1.edges@.len() && (#[trigger] g1.edges@[e]).from.id@ == m
                    && g1.edges@[e].to.id@ == t && dep_eq(g1.edges@[e].dep, dep);
            assert(g2.edges@[e].from.id@ == m && g2.edges@[e].to.id@ == t && dep_eq(
                g2.edges@[e].dep,
                dep,
            ));
        }
        if has_out_edge(g2, m, t, dep) {
            let e = choose|e: int|
                0 <= e < g2.edges@.len() && (#[trigger] g2.edges@[e]).from.id@ == m
                    && g2.edges@[e].to.id@ == t && dep_eq(g2.edges@[e].dep, dep);
            assert(g1.edges@[e].from.id@ == m && g1.edges@[e].to.id@ == t && dep_eq(
                g1.edges@[e].dep,
                dep,
            ));
        }
    };
}

/// The rebuild of one modified module, as the compiler returned it:
/// the new module record, its resolved dependencies in order, and one
/// freshly created module record per resolved dependency target.
#[derive(Debug)]
pub struct ModifyRebuild {
    pub module: Module,
    pub deps: Vec<(ModuleId, Dependency)>,
    pub children: Vec<Module>,
}

/// Whether some child record carries the id `x`.
pub open spec fn child_with_id(children: Seq<Module>, x: Seq<char>) -> bool {
    exists|k: int| 0 <= k < children.len() && (#[trigger] children[k]).id.id@ == x
}

/// Whether some rebuild in the list is for module `x`.
pub open spec fn result_module(results: Seq<ModifyRebuild>, x: Seq<char>) -> bool {
    exists|i: int| 0 <= i < results.len() && (#[trigger] results[i]).module.id.id@ == x
}

/// Whether some rebuild carries a child record for `x`.
pub open spec fn result_child(results: Seq<ModifyRebuild>, x: Seq<char>) -> bool {
    exists|i: int|
        0 <= i < results.len() && child_with_id((#[trigger] results[i]).children@, x)
}

impl ModifyRebuild {
    pub open spec fn wf(&self) -> bool {
        &&& self.module.wf()
        &&& forall|k: int|
            0 <= k < self.children@.len() ==> (#[trigger] self.children@[k]).wf() && !(
            self.children@[k]).spec_has_missing_deps()
        &&& forall|k1: int, k2: int|
            0 <= k1 < k2 < self.children@.len() ==> self.children@[k1].id.id@
                != self.children@[k2].id.id@
        &&& forall|j: int|
            0 <= j < self.deps@.len() ==> child_with_id(
                self.children@,
                (#[trigger] self.deps@[j]).0.id@,
            )
    }
}

/// A module record with the same id, flags and missing-deps surface.
fn clone_module(m: &Module) -> (r: Module)
    requires
        m.wf(),
    ensures
        r.wf(),
        r.id.id@ == m.id.id@,
        r.is_entry == m.is_entry,
        r.side_effects == m.side_effects,
        (r.info is Some) == (m.info is Some),
        r.spec_has_missing_deps() == m.spec_has_missing_deps(),
        module_like(r, *m),
    {
        match &m.info {
            None => Module {
                id: m.id.duplicate(),
                is_entry: m.is_entry,
                info: None,
                side_effects: m.side_effects,
            },
            Some(info) => {
                let mut missing_deps: Vec<(String, Dependency)> = Vec::new();
                let n = info.missing_deps.len();
                let mut i: usize = 0;
                while i < n
                    invariant
                        0 <= i <= n,
                        n == info.missing_deps@.len(),
                        missing_deps@.len() == i,
                        forall|k: int|
                            0 <= k < i ==> (#[trigger] missing_deps@[k]) == info.missing_deps@[k],
                    decreases n - i,
                {
                    missing_deps.push((info.missing_deps[i].0.clone(), info.missing_deps[i].1.duplicate()));
                    i = i + 1;
                }
                let mut ignored_deps: Vec<String> = Vec::new();
                let n2 = info.ignored_deps.len();
                let mut j: usize = 0;
                while j < n2
                    invariant
                        0 <= j <= n2,
                        n2 == info.ignored_deps@.len(),
                        ignored_deps@.len() == j,
                        forall|k: int|
                            0 <= k < j ==> (#[trigger] ignored_deps@[k]) == info.ignored_deps@[k],
                    decreases n2 - j,
                {
                    ignored_deps.push(info.ignored_deps[j].clone());
                    j = j + 1;
                }
                proof {
                    assert(ignored_deps@ =~= info.ignored_deps@);
                }
                Module {
                    id: m.id.duplicate(),
                    is_entry: m.is_entry,
                    info: Some(
                        crate::module_graph::ModuleInfo {
                            ast: info.ast,
                            path: info.path.clone(),
                            raw_hash: info.raw_hash,
                            missing_deps,
                            ignored_deps,
                            top_level_await: info.top_level_await,
                            is_async: info.is_async,
                        },
                    ),
                    side_effects: m.side_effects,
                }
            },
        }
    }

/// The child record for `x`, if one is listed.
fn find_child(children: &Vec<Module>, id: &ModuleId) -> (r: Option<usize>)
    ensures
        match r {
            Some(k) => k < children@.len() && children@[k as int].id.id@ == id.id@,
            None => !child_with_id(children@, id.id@),
        },
{
    let n = children.len();
    let mut k: usize = 0;
    while k < n
        invariant
            0 <= k <= n,
            n == children@.len(),
            forall|p: int| 0 <= p < k ==> (#[trigger] children@[p]).id.id@ != id.id@,
        decreases n - k,
    {
        if children[k].id == *id {
            return Some(k);
        }
        k = k + 1;
    }
    None
}

/// One applied rebuild advances every prefix fact of the modify phase
/// by one entry: replacements stay in place, untouched records and
/// edges stay untouched, and earlier rebuilds' dependency edges
/// survive, since their source module differs from this one.
#[verifier::rlimit(100)]
proof fn lemma_apply_iteration_summary(
    results: Seq<ModifyRebuild>,
    i: int,
    g_old: ModuleGraph,
    g_entry: ModuleGraph,
    g_now: ModuleGraph,
)
    requires
        0 <= i < results.len(),
        forall|i1: int, i2: int|
            0 <= i1 < i2 < results.len() ==> results[i1].module.id.id@
                != results[i2].module.id.id@,
        forall|i2: int|
            0 <= i2 < i && !result_child_upto(
                results,
                i,
                (#[trigger] results[i2]).module.id.id@,
            ) ==> g_entry.spec_has_module(results[i2].module.id.id@) && module_like(
                g_entry.spec_get_module(results[i2].module.id.id@),
                results[i2].module,
            ),
        forall|x: Seq<char>|
            #[trigger] g_old.spec_has_module(x) && !result_module_upto(results, i, x)
                && !result_child_upto(results, i, x) ==> g_entry.spec_get_module(x)
                == g_old.spec_get_module(x),
        forall|e: int|
            0 <= e < g_entry.edges@.len() && !result_module_upto(
                results,
                i,
                (#[trigger] g_entry.edges@[e]).from.id@,
            ) ==> edge_present(g_old.edges@, g_entry.edges@[e]),
        forall|e: int|
            0 <= e < g_old.edges@.len() && !result_module_upto(
                results,
                i,
                (#[trigger] g_old.edges@[e]).from.id@,
            ) ==> edge_present(g_entry.edges@, g_old.edges@[e]),
        forall|i2: int, j: int|
            #![trigger results[i2].deps@[j]]
            0 <= i2 < i && 0 <= j < results[i2].deps@.len() ==> has_out_edge(
                g_entry,
                results[i2].module.id.id@,
                results[i2].deps@[j].0.id@,
                results[i2].deps@[j].1,
            ),
        forall|x: Seq<char>| g_old.spec_has_module(x) ==> g_entry.spec_has_module(x),
        g_now.spec_has_module(results[i].module.id.id@),
        module_like(
            g_now.spec_get_module(results[i].module.id.id@),
            results[i].module,
        ),
        forall|x: Seq<char>|
            #[trigger] g_entry.spec_has_module(x) && !child_with_id(results[i].children@, x) && x
                != results[i].module.id.id@ ==> g_now.spec_has_module(x) && g_now.spec_get_module(
                x,
            ) == g_entry.spec_get_module(x),
        forall|e: int|
            0 <= e < g_now.edges@.len() && (#[trigger] g_now.edges@[e]).from.id@
                != results[i].module.id.id@ ==> edge_present(g_entry.edges@, g_now.edges@[e]),
        forall|e: int|
            0 <= e < g_entry.edges@.len() && (#[trigger] g_entry.edges@[e]).from.id@
                != results[i].module.id.id@ ==> edge_present(g_now.edges@, g_entry.edges@[e]),
        forall|j: int|
            0 <= j < results[i].deps@.len() ==> has_out_edge(
                g_now,
                results[i].module.id.id@,
                (#[trigger] results[i].deps@[j]).0.id@,
                results[i].deps@[j].1,
            ),
    ensures
        forall|x: Seq<char>|
            result_module_upto(results, i + 1, x) == (result_module_upto(results, i, x) || x
                == results[i].module.id.id@),
        forall|x: Seq<char>|
            result_child_upto(results, i + 1, x) == (result_child_upto(results, i, x)
                || child_with_id(results[i].children@, x)),
        forall|i2: int|
            0 <= i2 < i + 1 && !result_child_upto(
                results,
                i + 1,
                (#[trigger] results[i2]).module.id.id@,
            ) ==> g_now.spec_has_module(results[i2].module.id.id@) && module_like(
                g_now.spec_get_module(results[i2].module.id.id@),
                results[i2].module,
            ),
        forall|x: Seq<char>|
            #[trigger] g_old.spec_has_module(x) && !result_module_upto(results, i + 1, x)
                && !result_child_upto(results, i + 1, x) ==> g_now.spec_get_module(x)
                == g_old.spec_get_module(x),
        forall|e: int|
            0 <= e < g_now.edges@.len() && !result_module_upto(
                results,
                i + 1,
                (#[trigger] g_now.edges@[e]).from.id@,
            ) ==> edge_present(g_old.edges@, g_now.edges@[e]),
        forall|e: int|
            0 <= e < g_old.edges@.len() && !result_module_upto(
                results,
                i + 1,
                (#[trigger] g_old.edges@[e]).from.id@,
            ) ==> edge_present(g_now.edges@, g_old.edges@[e]),
        forall|i2: int, j: int|
            #![trigger results[i2].deps@[j]]
            0 <= i2 < i + 1 && 0 <= j < results[i2].deps@.len() ==> has_out_edge(
                g_now,
                results[i2].module.id.id@,
                results[i2].deps@[j].0.id@,
                results[i2].deps@[j].1,
            ),
{
    let mid_view = results[i].module.id.id@;
    assert forall|x: Seq<char>|
        result_module_upto(results, i + 1, x) == (result_module_upto(results, i, x) || x
            == mid_view) by {
        if result_module_upto(results, i + 1, x) {
            let i2 = choose|i2: int|
                0 <= i2 < i + 1 && i2 < results.len() && (#[trigger] results[i2]).module.id.id@
                    == x;
            if i2 < i {
                assert(result_module_upto(results, i, x));
            }
        }
        if result_module_upto(results, i, x) {
            let i2 = choose|i2: int|
                0 <= i2 < i && i2 < results.len() && (#[trigger] results[i2]).module.id.id@ == x;
            assert(0 <= i2 < i + 1 && results[i2].module.id.id@ == x);
        }
        if x == mid_view {
            assert(results[i].module.id.id@ == x);
        }
    };
    assert forall|x: Seq<char>|
        result_child_upto(results, i + 1, x) == (result_child_upto(results, i, x)
            || child_with_id(results[i].children@, x)) by {
        if result_child_upto(results, i + 1, x) {
            let i2 = choose|i2: int|
                0 <= i2 < i + 1 && i2 < results.len() && child_with_id(
                    (#[trigger] results[i2]).children@,
                    x,
                );
            if i2 < i {
                assert(result_child_upto(results, i, x));
            }
        }
        if result_child_upto(results, i, x) {
            let i2 = choose|i2: int|
                0 <= i2 < i && i2 < results.len() && child_with_id(
                    (#[trigger] results[i2]).children@,
                    x,
                );
            assert(0 <= i2 < i + 1 && child_with_id(results[i2].children@, x));
        }
        if child_with_id(results[i].children@, x) {
            assert(0 <= i < i + 1 && child_with_id(results[i].children@, x));
        }
    };
    assert(!result_module_upto(results, i, mid_view)) by {
        if result_module_upto(results, i, mid_view) {
            let i2 = choose|i2: int|
                0 <= i2 < i && i2 < results.len() && (#[trigger] results[i2]).module.id.id@
                    == mid_view;
        }
    };
    assert forall|x: Seq<char>|
        #[trigger] g_old.spec_has_module(x) && !result_module_upto(results, i + 1, x)
            && !result_child_upto(results, i + 1, x) implies g_now.spec_get_module(x)
        == g_old.spec_get_module(x) by {
        assert(x != mid_view);
        assert(!child_with_id(results[i].children@, x));
        assert(g_entry.spec_has_module(x));
        assert(g_now.spec_get_module(x) == g_entry.spec_get_module(x));
    };
    assert forall|i2: int|
        0 <= i2 < i + 1 && !result_child_upto(
            results,
            i + 1,
            (#[trigger] results[i2]).module.id.id@,
        ) implies g_now.spec_has_module(results[i2].module.id.id@) && module_like(
        g_now.spec_get_module(results[i2].module.id.id@),
        results[i2].module,
    ) by {
        let x = results[i2].module.id.id@;
        if i2 < i {
            assert(x != mid_view);
            assert(!child_with_id(results[i].children@, x));
            assert(!result_child_upto(results, i, x));
            assert(g_entry.spec_has_module(x));
            assert(g_now.spec_get_module(x) == g_entry.spec_get_module(x));
        }
    };
    assert forall|e2: int|
        0 <= e2 < g_now.edges@.len() && !result_module_upto(
            results,
            i + 1,
            (#[trigger] g_now.edges@[e2]).from.id@,
        ) implies edge_present(g_old.edges@, g_now.edges@[e2]) by {
        assert(g_now.edges@[e2].from.id@ != mid_view);
        assert(edge_present(g_entry.edges@, g_now.edges@[e2]));
        let w = choose|w: int|
            0 <= w < g_entry.edges@.len() && (#[trigger] g_entry.edges@[w]) == g_now.edges@[e2];
        assert(edge_present(g_old.edges@, g_entry.edges@[w]));
    };
    assert forall|e2: int|
        0 <= e2 < g_old.edges@.len() && !result_module_upto(
            results,
            i + 1,
            (#[trigger] g_old.edges@[e2]).from.id@,
        ) implies edge_present(g_now.edges@, g_old.edges@[e2]) by {
        assert(edge_present(g_entry.edges@, g_old.edges@[e2]));
        let w = choose|w: int|
            0 <= w < g_entry.edges@.len() && (#[trigger] g_entry.edges@[w]) == g_old.edges@[e2];
        assert(g_entry.edges@[w].from.id@ != mid_view);
        assert(edge_present(g_now.edges@, g_entry.edges@[w]));
    };
    assert forall|i2: int, j: int|
        #![trigger results[i2].deps@[j]]
        0 <= i2 < i + 1 && 0 <= j < results[i2].deps@.len() implies has_out_edge(
        g_now,
        results[i2].module.id.id@,
        results[i2].deps@[j].0.id@,
        results[i2].deps@[j].1,
    ) by {
        if i2 < i {
            let m2 = results[i2].module.id.id@;
            assert(m2 != mid_view);
            assert(has_out_edge(g_entry, m2, results[i2].deps@[j].0.id@, results[i2].deps@[j].1));
            let e = choose|e: int|
                0 <= e < g_entry.edges@.len() && (#[trigger] g_entry.edges@[e]).from.id@ == m2
                    && g_entry.edges@[e].to.id@ == results[i2].deps@[j].0.id@ && dep_eq(
                    g_entry.edges@[e].dep,
                    results[i2].deps@[j].1,
                );
            assert(edge_present(g_now.edges@, g_entry.edges@[e]));
            let w = choose|w: int|
                0 <= w < g_now.edges@.len() && (#[trigger] g_now.edges@[w]) == g_entry.edges@[e];
            assert(g_now.edges@[w].from.id@ == m2 && g_now.edges@[w].to.id@
                == results[i2].deps@[j].0.id@ && dep_eq(
                g_now.edges@[w].dep,
                results[i2].deps@[j].1,
            ));
        }
    };
}

/// Phase E application: under the write lock, each rebuilt module's
/// stale edges are removed, new child modules and edges inserted, and
/// the module replaced; the tracked missing-deps set is kept in step.
/// Returns the modified ids and the paths of child modules that still
/// need a build of their own (those without parsed info).
#[verifier::rlimit(100)]
pub fn apply_modify_results(
    g: &mut ModuleGraph,
    missing: &mut Vec<ModuleId>,
    results: &Vec<ModifyRebuild>,
) -> (r: (Vec<ModuleId>, Vec<String>))
    requires
        old(g).wf(),
        missing_set_consistent(*old(g), old(missing)@),
        forall|i: int| 0 <= i < results@.len() ==> (#[trigger] results@[i]).wf(),
        forall|i: int|
            0 <= i < results@.len() ==> old(g).spec_has_module(
                (#[trigger] results@[i]).module.id.id@,
            ),
        forall|i1: int, i2: int|
            0 <= i1 < i2 < results@.len() ==> results@[i1].module.id.id@
                != results@[i2].module.id.id@,
    ensures
        final(g).wf(),
        missing_set_consistent(*final(g), final(missing)@),
        forall|x: Seq<char>| old(g).spec_has_module(x) ==> final(g).spec_has_module(x),
        forall|x: Seq<char>|
            #[trigger] final(g).spec_has_module(x) ==> old(g).spec_has_module(x) || result_child(
                results@,
                x,
            ),
        // each rebuilt record replaces its module, unless a later child
        // record for the same id overwrote it
        forall|i2: int|
            0 <= i2 < results@.len() && !result_child(
                results@,
                (#[trigger] results@[i2]).module.id.id@,
            ) ==> final(g).spec_has_module(results@[i2].module.id.id@) && module_like(
                final(g).spec_get_module(results@[i2].module.id.id@),
                results@[i2].module,
            ),
        // modules neither rebuilt nor listed as a child are untouched
        forall|x: Seq<char>|
            #[trigger] old(g).spec_has_module(x) && !result_module(results@, x) && !result_child(
                results@,
                x,
            ) ==> final(g).spec_get_module(x) == old(g).spec_get_module(x),
        // edges of modules not rebuilt are untouched, both ways
        forall|e: int|
            0 <= e < final(g).edges@.len() && !result_module(
                results@,
                (#[trigger] final(g).edges@[e]).from.id@,
            ) ==> edge_present(old(g).edges@, final(g).edges@[e]),
        forall|e: int|
            0 <= e < old(g).edges@.len() && !result_module(
                results@,
                (#[trigger] old(g).edges@[e]).from.id@,
            ) ==> edge_present(final(g).edges@, old(g).edges@[e]),
        // every rebuilt dependency pair is an outgoing edge afterwards
        forall|i2: int, j: int|
            #![trigger results@[i2].deps@[j]]
            0 <= i2 < results@.len() && 0 <= j < results@[i2].deps@.len() ==> has_out_edge(
                *final(g),
                results@[i2].module.id.id@,
                results@[i2].deps@[j].0.id@,
                results@[i2].deps@[j].1,
            ),
        forall|i: int, j: int| 0 <= i < j < r.0@.len() ==> r.0@[i].id@ != r.0@[j].id@,
        forall|x: Seq<char>| recorded(r.0@, x) == result_module(results@, x),
        forall|k: int|
            0 <= k < r.1@.len() ==> result_child(results@, (#[trigger] r.1@[k])@),
        // every newly added dependency whose child has no parsed info
        // lands on the add queue
        forall|i2: int, j: int|
            #![trigger results@[i2].deps@[j]]
            0 <= i2 < results@.len() && 0 <= j < results@[i2].deps@.len() && !has_out_edge(
                *old(g),
                results@[i2].module.id.id@,
                results@[i2].deps@[j].0.id@,
                results@[i2].deps@[j].1,
            ) && child_info_none(results@[i2].children@, results@[i2].deps@[j].0.id@)
                ==> crate::idents::seq_has(r.1@, results@[i2].deps@[j].0.id@),
{
    let n = results.len();
    let mut modified_ids: Vec<ModuleId> = Vec::new();
    let mut add_paths: Vec<String> = Vec::new();
    let mut i: usize = 0;
    while i < n
        invariant
            0 <= i <= n,
            n == results@.len(),
            g.wf(),
            missing_set_consistent(*g, missing@),
            forall|i2: int| 0 <= i2 < results@.len() ==> (#[trigger] results@[i2]).wf(),
            forall|i2: int|
                0 <= i2 < results@.len() ==> old(g).spec_has_module(
                    (#[trigger] results@[i2]).module.id.id@,
                ),
            forall|i1: int, i2: int|
                0 <= i1 < i2 < results@.len() ==> results@[i1].module.id.id@
                    != results@[i2].module.id.id@,
            forall|x: Seq<char>| old(g).spec_has_module(x) ==> g.spec_has_module(x),
            forall|x: Seq<char>|
                #[trigger] g.spec_has_module(x) ==> old(g).spec_has_module(x) || result_child(
                    results@,
                    x,
                ),
            forall|i2: int|
                0 <= i2 < i && !result_child_upto(
                    results@,
                    i as int,
                    (#[trigger] results@[i2]).module.id.id@,
                ) ==> g.spec_has_module(results@[i2].module.id.id@) && module_like(
                    g.spec_get_module(results@[i2].module.id.id@),
                    results@[i2].module,
                ),
            forall|x: Seq<char>|
                #[trigger] old(g).spec_has_module(x) && !result_module_upto(results@, i as int, x)
                    && !result_child_upto(results@, i as int, x) ==> g.spec_get_module(x) == old(
                    g,
                ).spec_get_module(x),
            forall|e: int|
                0 <= e < g.edges@.len() && !result_module_upto(
                    results@,
                    i as int,
                    (#[trigger] g.edges@[e]).from.id@,
                ) ==> edge_present(old(g).edges@, g.edges@[e]),
            forall|e: int|
                0 <= e < old(g).edges@.len() && !result_module_upto(
                    results@,
                    i as int,
                    (#[trigger] old(g).edges@[e]).from.id@,
                ) ==> edge_present(g.edges@, old(g).edges@[e]),
            forall|i2: int, j: int|
                #![trigger results@[i2].deps@[j]]
                0 <= i2 < i && 0 <= j < results@[i2].deps@.len() ==> has_out_edge(
                    *g,
                    results@[i2].module.id.id@,
                    results@[i2].deps@[j].0.id@,
                    results@[i2].deps@[j].1,
                ),
            forall|i2: int, j: int|
                #![trigger results@[i2].deps@[j]]
                0 <= i2 < i && 0 <= j < results@[i2].deps@.len() && !has_out_edge(
                    *old(g),
                    results@[i2].module.id.id@,
                    results@[i2].deps@[j].0.id@,
                    results@[i2].deps@[j].1,
                ) && child_info_none(results@[i2].children@, results@[i2].deps@[j].0.id@)
                    ==> crate::idents::seq_has(add_paths@, results@[i2].deps@[j].0.id@),
            forall|p: int, q: int|
                0 <= p < q < modified_ids@.len() ==> modified_ids@[p].id@ != modified_ids@[q].id@,
            forall|x: Seq<char>|
                recorded(modified_ids@, x) == result_module(results@.subrange(0, i as int), x),
            forall|k: int|
                0 <= k < add_paths@.len() ==> result_child(results@, (#[trigger] add_paths@[k])@),
        decreases n - i,
    {
        let result = &results[i];
        let module_id = result.module.id.duplicate();
        let ghost g_entry = *g;
        let ghost ap_entry = add_paths@;
        let ghost mid_view = results@[i as int].module.id.id@;

        proof {
            // no earlier rebuild names this module, so its edges are
            // still those of the initial graph
            assert(!result_module_upto(results@, i as int, mid_view)) by {
                if result_module_upto(results@, i as int, mid_view) {
                    let i2 = choose|i2: int|
                        0 <= i2 < i && i2 < results@.len() && (#[trigger] results@[i2]).module.id.id@
                            == mid_view;
                }
            };
            assert forall|t: Seq<char>, dep: Dependency|
                #![trigger has_out_edge(g_entry, mid_view, t, dep)]
                #![trigger has_out_edge(*old(g), mid_view, t, dep)]
                has_out_edge(g_entry, mid_view, t, dep) == has_out_edge(
                *old(g),
                mid_view,
                t,
                dep,
            ) by {
                if has_out_edge(g_entry, mid_view, t, dep) {
                    let e = choose|e: int|
                        0 <= e < g_entry.edges@.len() && (#[trigger] g_entry.edges@[e]).from.id@
                            == mid_view && g_entry.edges@[e].to.id@ == t && dep_eq(
                            g_entry.edges@[e].dep,
                            dep,
                        );
                    assert(edge_present(old(g).edges@, g_entry.edges@[e]));
                    let w = choose|w: int|
                        0 <= w < old(g).edges@.len() && (#[trigger] old(g).edges@[w])
                            == g_entry.edges@[e];
                    assert(old(g).edges@[w].from.id@ == mid_view && old(g).edges@[w].to.id@ == t
                        && dep_eq(old(g).edges@[w].dep, dep));
                }
                if has_out_edge(*old(g), mid_view, t, dep) {
                    let e = choose|e: int|
                        0 <= e < old(g).edges@.len() && (#[trigger] old(g).edges@[e]).from.id@
                            == mid_view && old(g).edges@[e].to.id@ == t && dep_eq(
                            old(g).edges@[e].dep,
                            dep,
                        );
                    assert(edge_present(g_entry.edges@, old(g).edges@[e]));
                    let w = choose|w: int|
                        0 <= w < g_entry.edges@.len() && (#[trigger] g_entry.edges@[w]) == old(
                            g,
                        ).edges@[e];
                    assert(g_entry.edges@[w].from.id@ == mid_view && g_entry.edges@[w].to.id@ == t
                        && dep_eq(g_entry.edges@[w].dep, dep));
                }
            };
        }

        // Diff against the edges the module has now.
        let current_dependencies = g.get_dependencies(&module_id);
        let d = diff(&current_dependencies, &result.deps);
        proof {
            lemma_collected_deps_match(g_entry, mid_view, current_dependencies@);
        }

        // Remove stale edges.
        let nrem = d.removed.len();
        let mut k: usize = 0;
        while k < nrem
            invariant
                0 <= k <= nrem,
                nrem == d.removed@.len(),
                0 <= i < n,
                n == results@.len(),
                *result == results@[i as int],
                module_id.id@ == mid_view,
                mid_view == results@[i as int].module.id.id@,
                g.wf(),
                missing_set_consistent(*g, missing@),
                g.modules@ == g_entry.modules@,
                forall|k2: int|
                    0 <= k2 < d.removed@.len() ==> !dep_entry_present(
                        results@[i as int].deps@,
                        (#[trigger] d.removed@[k2]).0.id@,
                        d.removed@[k2].1,
                    ),
                forall|x: Seq<char>| old(g).spec_has_module(x) ==> g.spec_has_module(x),
                forall|x: Seq<char>|
                    #[trigger] g.spec_has_module(x) ==> old(g).spec_has_module(x) || result_child(
                        results@,
                        x,
                    ),
                forall|e2: int|
                    0 <= e2 < g.edges@.len() && (#[trigger] g.edges@[e2]).from.id@ != mid_view
                        ==> edge_present(g_entry.edges@, g.edges@[e2]),
                forall|e2: int|
                    0 <= e2 < g_entry.edges@.len() && (#[trigger] g_entry.edges@[e2]).from.id@
                        != mid_view ==> edge_present(g.edges@, g_entry.edges@[e2]),
                forall|t: Seq<char>, dep: Dependency|
                    #![trigger has_out_edge(*g, mid_view, t, dep)]
                    dep_entry_present(results@[i as int].deps@, t, dep) && has_out_edge(
                        g_entry,
                        mid_view,
                        t,
                        dep,
                    ) ==> has_out_edge(*g, mid_view, t, dep),
            decreases nrem - k,
        {
            let ghost gb = *g;
            g.remove_dependency(&module_id, &d.removed[k].0, &d.removed[k].1);
            proof {
                crate::module_graph::lemma_same_modules(*g, gb);
                crate::module_graph::lemma_same_modules(gb, *g);
                let rid = d.removed@[k as int].0.id@;
                let rdep = d.removed@[k as int].1;
                let fem = crate::module_graph::first_edge_match(
                    gb.edges@,
                    module_id.id@,
                    rid,
                    rdep,
                );
                crate::module_graph::lemma_first_edge_match_props(
                    gb.edges@,
                    module_id.id@,
                    rid,
                    rdep,
                    0,
                );
                if fem is Some {
                    let e = fem->Some_0;
                    assert(g.edges@ == gb.edges@.remove(e));
                    assert forall|e2: int|
                        0 <= e2 < g.edges@.len() && (#[trigger] g.edges@[e2]).from.id@ != mid_view
                        implies edge_present(g_entry.edges@, g.edges@[e2]) by {
                        crate::module_graph::lemma_edge_present_under_remove(
                            gb.edges@,
                            g.edges@,
                            e,
                            g.edges@[e2],
                        );
                        let w = choose|w: int|
                            0 <= w < gb.edges@.len() && (#[trigger] gb.edges@[w]) == g.edges@[e2];
                        assert(edge_present(g_entry.edges@, gb.edges@[w]));
                    };
                    assert forall|e2: int|
                        0 <= e2 < g_entry.edges@.len() && (#[trigger] g_entry.edges@[e2]).from.id@
                            != mid_view implies edge_present(g.edges@, g_entry.edges@[e2]) by {
                        assert(edge_present(gb.edges@, g_entry.edges@[e2]));
                        crate::module_graph::lemma_edge_present_after_remove(
                            gb.edges@,
                            g.edges@,
                            e,
                            g_entry.edges@[e2],
                        );
                    };
                    assert forall|t: Seq<char>, dep: Dependency|
                        #![trigger has_out_edge(*g, mid_view, t, dep)]
                        dep_entry_present(results@[i as int].deps@, t, dep) && has_out_edge(
                            g_entry,
                            mid_view,
                            t,
                            dep,
                        ) implies has_out_edge(*g, mid_view, t, dep) by {
                        assert(has_out_edge(gb, mid_view, t, dep));
                        let w = choose|w: int|
                            0 <= w < gb.edges@.len() && (#[trigger] gb.edges@[w]).from.id@
                                == mid_view && gb.edges@[w].to.id@ == t && dep_eq(
                                gb.edges@[w].dep,
                                dep,
                            );
                        if w == e {
                            // the removed record's pair is outside the
                            // rebuilt list, this one is inside
                            assert(gb.edges@[e].to.id@ == rid && dep_eq(gb.edges@[e].dep, rdep));
                            let p = choose|p: int|
                                0 <= p < results@[i as int].deps@.len() && (
                                #[trigger] results@[i as int].deps@[p]).0.id@ == t && dep_eq(
                                    results@[i as int].deps@[p].1,
                                    dep,
                                );
                            assert(results@[i as int].deps@[p].0.id@ == rid && dep_eq(
                                results@[i as int].deps@[p].1,
                                rdep,
                            ));
                            assert(dep_entry_present(results@[i as int].deps@, rid, rdep));
                        } else {
                            if w < e {
                                assert(g.edges@[w] == gb.edges@[w]);
                            } else {
                                assert(g.edges@[w - 1] == gb.edges@[w]);
                            }
                        }
                    };
                } else {
                    assert(g.edges@ == gb.edges@);
                    lemma_same_edges_out(*g, gb);
                }
            }
            k = k + 1;
        }

        // Insert new child modules and edges.
        proof {
            assert(results@[i as int].wf());
            assert forall|k2: int| 0 <= k2 < d.added@.len() implies child_with_id(
                results@[i as int].children@,
                (#[trigger] d.added@[k2]).0.id@,
            ) by {
                assert(dep_entry_present(result.deps@, d.added@[k2].0.id@, d.added@[k2].1));
                let j = choose|j: int|
                    0 <= j < result.deps@.len() && (#[trigger] result.deps@[j]).0.id@
                        == d.added@[k2].0.id@ && dep_eq(result.deps@[j].1, d.added@[k2].1);
                assert(child_with_id(results@[i as int].children@, result.deps@[j].0.id@));
            };
        }
        let nadd = d.added.len();
        let mut a: usize = 0;
        while a < nadd
            invariant
                0 <= a <= nadd,
                nadd == d.added@.len(),
                0 <= i < n,
                n == results@.len(),
                *result == results@[i as int],
                module_id.id@ == mid_view,
                mid_view == results@[i as int].module.id.id@,
                old(g).spec_has_module(module_id.id@),
                g.wf(),
                missing_set_consistent(*g, missing@),
                forall|i2: int| 0 <= i2 < results@.len() ==> (#[trigger] results@[i2]).wf(),
                forall|k2: int|
                    0 <= k2 < d.added@.len() ==> child_with_id(
                        results@[i as int].children@,
                        (#[trigger] d.added@[k2]).0.id@,
                    ),
                forall|x: Seq<char>| old(g).spec_has_module(x) ==> g.spec_has_module(x),
                forall|x: Seq<char>|
                    #[trigger] g.spec_has_module(x) ==> old(g).spec_has_module(x) || result_child(
                        results@,
                        x,
                    ),
                forall|x: Seq<char>|
                    #[trigger] g_entry.spec_has_module(x) && !child_with_id(
                        results@[i as int].children@,
                        x,
                    ) ==> g.spec_has_module(x) && g.spec_get_module(x) == g_entry.spec_get_module(
                        x,
                    ),
                forall|e2: int|
                    0 <= e2 < g.edges@.len() && (#[trigger] g.edges@[e2]).from.id@ != mid_view
                        ==> edge_present(g_entry.edges@, g.edges@[e2]),
                forall|e2: int|
                    0 <= e2 < g_entry.edges@.len() && (#[trigger] g_entry.edges@[e2]).from.id@
                        != mid_view ==> edge_present(g.edges@, g_entry.edges@[e2]),
                forall|t: Seq<char>, dep: Dependency|
                    #![trigger has_out_edge(*g, mid_view, t, dep)]
                    dep_entry_present(results@[i as int].deps@, t, dep) && has_out_edge(
                        g_entry,
                        mid_view,
                        t,
                        dep,
                    ) ==> has_out_edge(*g, mid_view, t, dep),
                forall|a2: int|
                    0 <= a2 < a ==> has_out_edge(
                        *g,
                        mid_view,
                        (#[trigger] d.added@[a2]).0.id@,
                        d.added@[a2].1,
                    ),
                forall|a2: int|
                    0 <= a2 < a && child_info_none(
                        results@[i as int].children@,
                        (#[trigger] d.added@[a2]).0.id@,
                    ) ==> crate::idents::seq_has(add_paths@, d.added@[a2].0.id@),
                add_paths@.len() >= ap_entry.len(),
                forall|k2: int| 0 <= k2 < ap_entry.len() ==> add_paths@[k2] == ap_entry[k2],
                forall|k2: int|
                    0 <= k2 < add_paths@.len() ==> result_child(
                        results@,
                        (#[trigger] add_paths@[k2])@,
                    ),
            decreases nadd - a,
        {
            let add_module_id = &d.added[a].0;
            proof {
                assert(results@[i as int].wf());
                assert(child_with_id(results@[i as int].children@, add_module_id.id@));
            }
            let child_idx = find_child(&result.children, add_module_id).unwrap();
            proof {
                assert(results@[i as int].children@[child_idx as int].wf());
                assert(!results@[i as int].children@[child_idx as int].spec_has_missing_deps());
            }
            let child = clone_module(&result.children[child_idx]);
            let child_has_info = child.info.is_some();
            let ghost prevap = add_paths@;
            if !child_has_info {
                add_paths.push(child.id.id.clone());
                proof {
                    assert(forall|k2: int| 0 <= k2 < prevap.len() ==> add_paths@[k2] == prevap[k2]);
                    assert(add_paths@[prevap.len() as int]@
                        == results@[i as int].children@[child_idx as int].id.id@);
                    assert(child_with_id(results@[i as int].children@, add_paths@[prevap.len() as int]@));
                    assert(result_child(results@, add_paths@[prevap.len() as int]@));
                }
            }
            proof {
                assert forall|a2: int|
                    0 <= a2 < a + 1 && child_info_none(
                        results@[i as int].children@,
                        (#[trigger] d.added@[a2]).0.id@,
                    ) implies crate::idents::seq_has(add_paths@, d.added@[a2].0.id@) by {
                    if a2 < a {
                        let k2 = choose|k2: int|
                            0 <= k2 < prevap.len() && (#[trigger] prevap[k2])@
                                == d.added@[a2].0.id@;
                        assert(add_paths@[k2]@ == d.added@[a2].0.id@);
                    } else {
                        let ck = choose|ck: int|
                            0 <= ck < results@[i as int].children@.len() && (
                            #[trigger] results@[i as int].children@[ck]).id.id@
                                == d.added@[a2].0.id@ && results@[i as int].children@[ck].info
                                is None;
                        assert(ck == child_idx as int);
                        assert(!child_has_info);
                        assert(add_paths@[prevap.len() as int]@ == d.added@[a2].0.id@);
                    }
                };
            }
            let ghost gb = *g;
            let ghost mb = missing@;
            let ghost child_id_view = child.id.id@;
            g.add_module(child);
            remove_id(missing, add_module_id);
            proof {
                assert(g.edges@ == gb.edges@);
                lemma_same_edges_out(*g, gb);
                assert(child_id_view == add_module_id.id@);
                assert(child_with_id(results@[i as int].children@, child_id_view)) by {
                    assert(results@[i as int].children@[child_idx as int].id.id@
                        == child_id_view);
                };
                assert(result_child(results@, child_id_view));
                assert(!g.spec_get_module(child_id_view).spec_has_missing_deps());
                assert forall|x: Seq<char>|
                    #[trigger] g.spec_has_module(x) implies old(g).spec_has_module(x)
                    || result_child(results@, x) by {
                    if x != child_id_view {
                        assert(gb.spec_has_module(x));
                    }
                };
                assert forall|ii: int|
                    0 <= ii < missing@.len() && g.spec_has_module((#[trigger] missing@[ii]).id@)
                    implies g.spec_get_module(missing@[ii].id@).spec_has_missing_deps() by {
                    let x = missing@[ii].id@;
                    assert(recorded(missing@, x));
                    assert(recorded(mb, x) && x != child_id_view);
                    let kk = choose|kk: int| 0 <= kk < mb.len() && (#[trigger] mb[kk]).id@ == x;
                    assert(g.spec_get_module(x) == gb.spec_get_module(x));
                };
                assert forall|x: Seq<char>|
                    g.spec_has_module(x) && (
                    #[trigger] g.spec_get_module(x)).spec_has_missing_deps() implies recorded(
                    missing@,
                    x,
                ) by {
                    if x == child_id_view {
                        assert(!g.spec_get_module(x).spec_has_missing_deps());
                    } else {
                        assert(g.spec_get_module(x) == gb.spec_get_module(x));
                        assert(recorded(mb, x));
                    }
                };
            }
            let ghost gb2 = *g;
            g.add_dependency(&module_id, add_module_id, d.added[a].1.duplicate());
            proof {
                crate::module_graph::lemma_same_modules(*g, gb2);
                crate::module_graph::lemma_same_modules(gb2, *g);
                assert(forall|e2: int| 0 <= e2 < gb2.edges@.len() ==> g.edges@[e2] == gb2.edges@[e2]);
                let last = gb2.edges@.len() as int;
                assert(g.edges@[last].from.id@ == mid_view && g.edges@[last].to.id@
                    == d.added@[a as int].0.id@ && g.edges@[last].dep == d.added@[a as int].1);
                assert forall|e2: int|
                    0 <= e2 < g.edges@.len() && (#[trigger] g.edges@[e2]).from.id@ != mid_view
                    implies edge_present(g_entry.edges@, g.edges@[e2]) by {
                    assert(e2 < gb2.edges@.len());
                    assert(g.edges@[e2] == gb2.edges@[e2]);
                    assert(edge_present(g_entry.edges@, gb2.edges@[e2]));
                };
                assert forall|e2: int|
                    0 <= e2 < g_entry.edges@.len() && (#[trigger] g_entry.edges@[e2]).from.id@
                        != mid_view implies edge_present(g.edges@, g_entry.edges@[e2]) by {
                    assert(edge_present(gb2.edges@, g_entry.edges@[e2]));
                    let w = choose|w: int|
                        0 <= w < gb2.edges@.len() && (#[trigger] gb2.edges@[w])
                            == g_entry.edges@[e2];
                    assert(g.edges@[w] == g_entry.edges@[e2]);
                };
                assert forall|t: Seq<char>, dep: Dependency|
                    #![trigger has_out_edge(*g, mid_view, t, dep)]
                    dep_entry_present(results@[i as int].deps@, t, dep) && has_out_edge(
                        g_entry,
                        mid_view,
                        t,
                        dep,
                    ) implies has_out_edge(*g, mid_view, t, dep) by {
                    assert(has_out_edge(gb2, mid_view, t, dep));
                    let w = choose|w: int|
                        0 <= w < gb2.edges@.len() && (#[trigger] gb2.edges@[w]).from.id@
                            == mid_view && gb2.edges@[w].to.id@ == t && dep_eq(
                            gb2.edges@[w].dep,
                            dep,
                        );
                    assert(g.edges@[w].from.id@ == mid_view && g.edges@[w].to.id@ == t && dep_eq(
                        g.edges@[w].dep,
                        dep,
                    ));
                };
                assert forall|a2: int|
                    0 <= a2 < a + 1 implies has_out_edge(
                    *g,
                    mid_view,
                    (#[trigger] d.added@[a2]).0.id@,
                    d.added@[a2].1,
                ) by {
                    if a2 < a {
                        assert(has_out_edge(gb2, mid_view, d.added@[a2].0.id@, d.added@[a2].1));
                        let w = choose|w: int|
                            0 <= w < gb2.edges@.len() && (#[trigger] gb2.edges@[w]).from.id@
                                == mid_view && gb2.edges@[w].to.id@ == d.added@[a2].0.id@
                                && dep_eq(gb2.edges@[w].dep, d.added@[a2].1);
                        assert(g.edges@[w].from.id@ == mid_view && g.edges@[w].to.id@
                            == d.added@[a2].0.id@ && dep_eq(g.edges@[w].dep, d.added@[a2].1));
                    } else {
                        assert(g.edges@[last].from.id@ == mid_view && g.edges@[last].to.id@
                            == d.added@[a2].0.id@ && dep_eq(g.edges@[last].dep, d.added@[a2].1));
                    }
                };
            }
            a = a + 1;
        }

        // Every rebuilt dependency pair is now an outgoing edge: added
        // pairs were inserted, the rest survived the stale-edge removal.
        proof {
            assert forall|j: int|
                0 <= j < results@[i as int].deps@.len() implies has_out_edge(
                *g,
                mid_view,
                (#[trigger] results@[i as int].deps@[j]).0.id@,
                results@[i as int].deps@[j].1,
            ) by {
                let t = results@[i as int].deps@[j].0.id@;
                let dp = results@[i as int].deps@[j].1;
                if dep_entry_present(d.added@, t, dp) {
                    let a2 = choose|a2: int|
                        0 <= a2 < d.added@.len() && (#[trigger] d.added@[a2]).0.id@ == t && dep_eq(
                            d.added@[a2].1,
                            dp,
                        );
                    assert(has_out_edge(*g, mid_view, d.added@[a2].0.id@, d.added@[a2].1));
                    let w = choose|w: int|
                        0 <= w < g.edges@.len() && (#[trigger] g.edges@[w]).from.id@ == mid_view
                            && g.edges@[w].to.id@ == d.added@[a2].0.id@ && dep_eq(
                            g.edges@[w].dep,
                            d.added@[a2].1,
                        );
                    assert(g.edges@[w].to.id@ == t && dep_eq(g.edges@[w].dep, dp));
                } else {
                    assert(dep_entry_present(current_dependencies@, t, dp));
                    assert(has_out_edge(g_entry, mid_view, t, dp));
                    assert(dep_entry_present(results@[i as int].deps@, t, dp));
                    assert(has_out_edge(*g, mid_view, t, dp));
                }
            };
            // ... and newly added pairs without parsed child info are on
            // the add queue
            assert forall|j: int|
                0 <= j < results@[i as int].deps@.len() && !has_out_edge(
                    *old(g),
                    mid_view,
                    (#[trigger] results@[i as int].deps@[j]).0.id@,
                    results@[i as int].deps@[j].1,
                ) && child_info_none(
                    results@[i as int].children@,
                    results@[i as int].deps@[j].0.id@,
                ) implies crate::idents::seq_has(
                add_paths@,
                results@[i as int].deps@[j].0.id@,
            ) by {
                let t = results@[i as int].deps@[j].0.id@;
                let dp = results@[i as int].deps@[j].1;
                assert(!has_out_edge(g_entry, mid_view, t, dp));
                assert(!dep_entry_present(current_dependencies@, t, dp));
                assert(dep_entry_present(d.added@, t, dp));
                let a2 = choose|a2: int|
                    0 <= a2 < d.added@.len() && (#[trigger] d.added@[a2]).0.id@ == t && dep_eq(
                        d.added@[a2].1,
                        dp,
                    );
                assert(crate::idents::seq_has(add_paths@, d.added@[a2].0.id@));
            };
        }

        // Replace the rebuilt module and keep the tracked set in step.
        let replacement = clone_module(&result.module);
        let still_missing = replacement.has_missing_deps();
        let ghost gb3 = *g;
        let ghost mb3 = missing@;
        let ghost target = result.module.id.id@;
        g.replace_module(replacement);
        if still_missing {
            push_unique_id(missing, &module_id);
        } else {
            remove_id(missing, &module_id);
        }
        proof {
            assert(g.edges@ == gb3.edges@);
            lemma_same_edges_out(*g, gb3);
            assert forall|ii: int|
                0 <= ii < missing@.len() && g.spec_has_module((#[trigger] missing@[ii]).id@)
                implies g.spec_get_module(missing@[ii].id@).spec_has_missing_deps() by {
                let x = missing@[ii].id@;
                assert(recorded(missing@, x));
                if x == target {
                    assert(still_missing);
                } else {
                    assert(recorded(mb3, x));
                    let kk = choose|kk: int| 0 <= kk < mb3.len() && (#[trigger] mb3[kk]).id@ == x;
                    assert(g.spec_get_module(x) == gb3.spec_get_module(x));
                }
            };
            assert forall|x: Seq<char>|
                g.spec_has_module(x) && (
                #[trigger] g.spec_get_module(x)).spec_has_missing_deps() implies recorded(
                missing@,
                x,
            ) by {
                if x == target {
                    assert(still_missing);
                } else {
                    assert(g.spec_get_module(x) == gb3.spec_get_module(x));
                    assert(recorded(mb3, x));
                }
            };
            assert forall|x: Seq<char>|
                #[trigger] g.spec_has_module(x) implies old(g).spec_has_module(x) || result_child(
                results@,
                x,
            ) by {
                assert(gb3.spec_has_module(x));
            };
        }

        push_unique_id(&mut modified_ids, &module_id);
        proof {
            let sub0 = results@.subrange(0, i as int);
            let sub1 = results@.subrange(0, i as int + 1);
            assert(forall|k2: int| 0 <= k2 < sub0.len() ==> sub1[k2] == sub0[k2]);
            assert(sub1[i as int] == results@[i as int]);
            assert forall|x: Seq<char>|
                recorded(modified_ids@, x) == result_module(sub1, x) by {
                if recorded(modified_ids@, x) {
                    if x == target {
                        assert(sub1[i as int].module.id.id@ == x);
                        assert(result_module(sub1, x));
                    } else {
                        assert(result_module(sub0, x));
                        let k2 = choose|k2: int|
                            0 <= k2 < sub0.len() && (#[trigger] sub0[k2]).module.id.id@ == x;
                        assert(sub1[k2].module.id.id@ == x);
                    }
                }
                if result_module(sub1, x) {
                    let k2 = choose|k2: int|
                        0 <= k2 < sub1.len() && (#[trigger] sub1[k2]).module.id.id@ == x;
                    if k2 < sub0.len() {
                        assert(sub0[k2].module.id.id@ == x);
                        assert(result_module(sub0, x));
                    } else {
                        assert(x == target);
                    }
                }
            };

            // compose this iteration's outcome with the prefix facts
            assert(g.spec_get_module(target) == replacement);
            assert(module_like(g.spec_get_module(mid_view), results@[i as int].module));
            assert forall|x: Seq<char>|
                #[trigger] g_entry.spec_has_module(x) && !child_with_id(
                    results@[i as int].children@,
                    x,
                ) && x != mid_view implies g.spec_has_module(x) && g.spec_get_module(x)
                == g_entry.spec_get_module(x) by {
                assert(gb3.spec_has_module(x) && gb3.spec_get_module(x)
                    == g_entry.spec_get_module(x));
                assert(g.spec_get_module(x) == gb3.spec_get_module(x));
            };
            assert forall|e2: int|
                0 <= e2 < g.edges@.len() && (#[trigger] g.edges@[e2]).from.id@ != mid_view
                implies edge_present(g_entry.edges@, g.edges@[e2]) by {
                assert(g.edges@[e2] == gb3.edges@[e2]);
                assert(edge_present(g_entry.edges@, gb3.edges@[e2]));
            };
            assert forall|e2: int|
                0 <= e2 < g_entry.edges@.len() && (#[trigger] g_entry.edges@[e2]).from.id@
                    != mid_view implies edge_present(g.edges@, g_entry.edges@[e2]) by {
                assert(edge_present(gb3.edges@, g_entry.edges@[e2]));
                let w = choose|w: int|
                    0 <= w < gb3.edges@.len() && (#[trigger] gb3.edges@[w]) == g_entry.edges@[e2];
                assert(g.edges@[w] == g_entry.edges@[e2]);
            };
            assert forall|j: int|
                0 <= j < results@[i as int].deps@.len() implies has_out_edge(
                *g,
                mid_view,
                (#[trigger] results@[i as int].deps@[j]).0.id@,
                results@[i as int].deps@[j].1,
            ) by {
                assert(has_out_edge(gb3, mid_view, results@[i as int].deps@[j].0.id@, results@[i as int].deps@[j].1));
            };
            lemma_apply_iteration_summary(results@, i as int, *old(g), g_entry, *g);
            // the add queue only grew, so earlier completeness facts
            // carry over
            assert forall|i2: int, j: int|
                #![trigger results@[i2].deps@[j]]
                0 <= i2 < i + 1 && 0 <= j < results@[i2].deps@.len() && !has_out_edge(
                    *old(g),
                    results@[i2].module.id.id@,
                    results@[i2].deps@[j].0.id@,
                    results@[i2].deps@[j].1,
                ) && child_info_none(results@[i2].children@, results@[i2].deps@[j].0.id@) implies
                crate::idents::seq_has(add_paths@, results@[i2].deps@[j].0.id@) by {
                if i2 < i {
                    let k2 = choose|k2: int|
                        0 <= k2 < ap_entry.len() && (#[trigger] ap_entry[k2])@
                            == results@[i2].deps@[j].0.id@;
                    assert(add_paths@[k2]@ == results@[i2].deps@[j].0.id@);
                }
            };
        }
        i = i + 1;
    }
    proof {
        assert(results@.subrange(0, n as int) =~= results@);
        // the bounded prefix facts at the full length are the ensures
        assert forall|x: Seq<char>|
            result_module_upto(results@, n as int, x) == result_module(results@, x) by {
            if result_module_upto(results@, n as int, x) {
                let i2 = choose|i2: int|
                    0 <= i2 < n && i2 < results@.len() && (#[trigger] results@[i2]).module.id.id@
                        == x;
                assert(result_module(results@, x));
            }
            if result_module(results@, x) {
                let i2 = choose|i2: int|
                    0 <= i2 < results@.len() && (#[trigger] results@[i2]).module.id.id@ == x;
                assert(0 <= i2 < n && results@[i2].module.id.id@ == x);
            }
        };
        assert forall|x: Seq<char>|
            result_child_upto(results@, n as int, x) == result_child(results@, x) by {
            if result_child_upto(results@, n as int, x) {
                let i2 = choose|i2: int|
                    0 <= i2 < n && i2 < results@.len() && child_with_id(
                        (#[trigger] results@[i2]).children@,
                        x,
                    );
                assert(result_child(results@, x));
            }
            if result_child(results@, x) {
                let i2 = choose|i2: int|
                    0 <= i2 < results@.len() && child_with_id(
                        (#[trigger] results@[i2]).children@,
                        x,
                    );
                assert(0 <= i2 < n && child_with_id(results@[i2].children@, x));
            }
        };
    }
    (modified_ids, add_paths)
}

/// The ids the CSS-modules pre-step appends: for each graph module
/// whose id carries the `?modules` marker, when the modify queue holds
/// its origin path with `?asmodule` appended, the module's own id
/// joins the queue.
pub open spec fn css_module_expansion(
    g: ModuleGraph,
    modified: Seq<String>,
    x: Seq<char>,
) -> bool {
    exists|k: int|
        0 <= k < g.modules@.len() && (#[trigger] g.modules@[k]).id.id@ == x && seq_contains(
            x,
            "?modules"@,
        ) && crate::idents::seq_has(
            modified,
            x.subrange(0, crate::text::first_char_pos(x, '?')) + "?asmodule"@,
        )
}

/// Whether some entry of `v` views as `x`.
fn string_list_has(v: &Vec<String>, x: &str) -> (r: bool)
    ensures
        r == crate::idents::seq_has(v@, x@),
{
    let n = v.len();
    let mut i: usize = 0;
    while i < n
        invariant
            0 <= i <= n,
            n == v@.len(),
            forall|k: int| 0 <= k < i ==> (#[trigger] v@[k])@ != x@,
        decreases n - i,
    {
        if crate::ident::str_eq(v[i].as_str(), x) {
            return true;
        }
        i = i + 1;
    }
    false
}

/// The pre-step of the modify phase: when a `?asmodule` virtual path
/// is queued, the matching `?modules` module is queued too. A pushed
/// id always carries `?modules` and so never ends in `?asmodule`:
/// deciding against the queue as it was on entry is the same as
/// deciding against the growing queue.
pub fn expand_css_modules(g: &ModuleGraph, modified: &mut Vec<String>)
    ensures
        final(modified)@.len() >= old(modified)@.len(),
        forall|k: int|
            0 <= k < old(modified)@.len() ==> final(modified)@[k] == old(modified)@[k],
        forall|k: int|
            old(modified)@.len() <= k < final(modified)@.len() ==> css_module_expansion(
                *g,
                old(modified)@,
                (#[trigger] final(modified)@[k])@,
            ),
        forall|k: int|
            0 <= k < g.modules@.len() ==> !css_module_expansion(
                *g,
                old(modified)@,
                (#[trigger] g.modules@[k]).id.id@,
            ) || crate::idents::seq_has(final(modified)@, g.modules@[k].id.id@),
{
    let ghost m0 = modified@;
    let nsnap = modified.len();
    let mut snapshot: Vec<String> = Vec::new();
    let mut si: usize = 0;
    while si < nsnap
        invariant
            0 <= si <= nsnap,
            nsnap == modified@.len(),
            modified@ == m0,
            snapshot@.len() == si,
            forall|k2: int| 0 <= k2 < si ==> (#[trigger] snapshot@[k2]) == m0[k2],
        decreases nsnap - si,
    {
        snapshot.push(modified[si].clone());
        si = si + 1;
    }
    proof {
        assert(snapshot@ =~= m0);
    }
    let n = g.modules().len();
    let mut k: usize = 0;
    while k < n
        invariant
            0 <= k <= n,
            n == g.modules@.len(),
            snapshot@ == m0,
            modified@.len() >= m0.len(),
            forall|k2: int| 0 <= k2 < m0.len() ==> modified@[k2] == m0[k2],
            forall|k2: int|
                m0.len() <= k2 < modified@.len() ==> css_module_expansion(
                    *g,
                    m0,
                    (#[trigger] modified@[k2])@,
                ),
            forall|k2: int|
                0 <= k2 < k ==> !css_module_expansion(
                    *g,
                    m0,
                    (#[trigger] g.modules@[k2]).id.id@,
                ) || crate::idents::seq_has(modified@, g.modules@[k2].id.id@),
        decreases n - k,
    {
        let ghost prevm = modified@;
        let id_str = &g.modules()[k].id.id;
        if crate::text::str_contains(id_str.as_str(), "?modules") {
            let qpos = crate::text::find_char(id_str.as_str(), '?');
            proof {
                crate::text::lemma_first_char_pos(id_str@, '?');
            }
            let origin = id_str.substring_char(0, qpos);
            let virtual_id = origin.to_owned().concat("?asmodule");
            if string_list_has(&snapshot, virtual_id.as_str()) {
                modified.push(id_str.clone());
                proof {
                    assert(forall|k2: int| 0 <= k2 < prevm.len() ==> modified@[k2] == prevm[k2]);
                    assert(modified@[prevm.len() as int]@ == g.modules@[k as int].id.id@);
                    assert(css_module_expansion(*g, m0, modified@[prevm.len() as int]@)) by {
                        assert(g.modules@[k as int].id.id@ == modified@[prevm.len() as int]@);
                    };
                }
            }
        }
        proof {
            assert forall|k2: int|
                0 <= k2 < k + 1 implies !css_module_expansion(
                *g,
                m0,
                (#[trigger] g.modules@[k2]).id.id@,
            ) || crate::idents::seq_has(modified@, g.modules@[k2].id.id@) by {
                if k2 < k {
                    if crate::idents::seq_has(prevm, g.modules@[k2].id.id@) {
                        let j = choose|j: int|
                            0 <= j < prevm.len() && (#[trigger] prevm[j])@
                                == g.modules@[k2].id.id@;
                        assert(modified@[j]@ == g.modules@[k2].id.id@);
                        assert(crate::idents::seq_has(modified@, g.modules@[k2].id.id@));
                    }
                } else {
                    if css_module_expansion(*g, m0, g.modules@[k2].id.id@) {
                        let w = choose|w: int|
                            0 <= w < g.modules@.len() && (#[trigger] g.modules@[w]).id.id@
                                == g.modules@[k2].id.id@ && seq_contains(
                                g.modules@[k2].id.id@,
                                "?modules"@,
                            ) && crate::idents::seq_has(
                                m0,
                                g.modules@[k2].id.id@.subrange(
                                    0,
                                    crate::text::first_char_pos(g.modules@[k2].id.id@, '?'),
                                ) + "?asmodule"@,
                            );
                        assert(crate::idents::seq_has(modified@, g.modules@[k2].id.id@));
                    }
                }
            };
        }
        k = k + 1;
    }
}

} // verus!
