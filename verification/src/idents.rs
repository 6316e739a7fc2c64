//! Small set and map collections keyed by identifier strings.
//!
//! Both are backed by vectors without duplicate keys, so that iteration is
//! deterministic and cardinality equals the backing length. Contracts speak
//! of them through mathematical `Set` and `Map` views.

use vstd::prelude::*;

verus! {

/// Whether `x` occurs among the views of `items`.
pub open spec fn seq_has(items: Seq<String>, x: Seq<char>) -> bool {
    exists|i: int| 0 <= i < items.len() && items[i]@ == x
}

/// The set of views of `items`.
pub open spec fn seq_set(items: Seq<String>) -> Set<Seq<char>> {
    Set::new(|x: Seq<char>| seq_has(items, x))
}

/// A set of identifier strings, backed by a duplicate-free vector.
#[derive(Debug)]
pub struct IdentSet {
    pub items: Vec<String>,
}

impl View for IdentSet {
    type V = Set<Seq<char>>;

    open spec fn view(&self) -> Set<Seq<char>> {
        seq_set(self.items@)
    }
}

impl IdentSet {
    /// No two entries share a view.
    pub open spec fn wf(&self) -> bool {
        forall|i: int, j: int|
            0 <= i < j < self.items@.len() ==> self.items@[i]@ != self.items@[j]@
    }

    pub fn new() -> (r: IdentSet)
        ensures
            r.wf(),
            r@ == Set::<Seq<char>>::empty(),
            r.items@.len() == 0,
    {
        let r = IdentSet { items: Vec::new() };
        proof {
            assert(r@ =~= Set::<Seq<char>>::empty());
        }
        r
    }

    pub fn contains(&self, x: &str) -> (r: bool)
        ensures
            r == self@.contains(x@),
    {
        let n = self.items.len();
        let mut i: usize = 0;
        while i < n
            invariant
                0 <= i <= n,
                n == self.items@.len(),
                forall|k: int| 0 <= k < i ==> self.items@[k]@ != x@,
            decreases n - i,
        {
            if crate::ident::str_eq(self.items[i].as_str(), x) {
                return true;
            }
            i = i + 1;
        }
        false
    }

    pub fn insert(&mut self, x: String)
        requires
            old(self).wf(),
        ensures
            final(self).wf(),
            final(self)@ == old(self)@.insert(x@),
            final(self).items@.len() == old(self).items@.len() + (if old(self)@.contains(x@) {
                0int
            } else {
                1int
            }),
    {
        if !self.contains(x.as_str()) {
            let ghost prev = self.items@;
            self.items.push(x);
            proof {
                let cur = self.items@;
                assert(forall|k: int| 0 <= k < prev.len() ==> cur[k] == prev[k]);
                assert(cur[prev.len() as int]@ == x@);
                assert forall|y: Seq<char>| seq_has(cur, y) implies seq_set(prev).insert(
                    x@,
                ).contains(y) by {
                    let i = choose|i: int| 0 <= i < cur.len() && cur[i]@ == y;
                    if i < prev.len() {
                        assert(prev[i]@ == y);
                    }
                };
                assert forall|y: Seq<char>| seq_set(prev).insert(x@).contains(y) implies seq_has(
                    cur,
                    y,
                ) by {
                    if y == x@ {
                        assert(cur[prev.len() as int]@ == y);
                    } else {
                        let i = choose|i: int| 0 <= i < prev.len() && prev[i]@ == y;
                        assert(cur[i]@ == y);
                    }
                };
                assert(self@ =~= seq_set(prev).insert(x@));
            }
        } else {
            proof {
                assert(self@ =~= self@.insert(x@));
            }
        }
    }

    pub fn len(&self) -> (n: usize)
        ensures
            n == self.items@.len(),
    {
        self.items.len()
    }

    pub fn is_empty(&self) -> (r: bool)
        ensures
            r == (self@ == Set::<Seq<char>>::empty()),
            r == (self.items@.len() == 0),
    {
        let r = self.items.len() == 0;
        proof {
            if r {
                assert(self@ =~= Set::<Seq<char>>::empty());
            } else {
                assert(self@.contains(self.items@[0]@));
            }
        }
        r
    }

    /// Unions `other` into `self`.
    pub fn extend_from(&mut self, other: &IdentSet)
        requires
            old(self).wf(),
        ensures
            final(self).wf(),
            final(self)@ == old(self)@ + other@,
            final(self).items@.len() >= old(self).items@.len(),
    {
        let n = other.items.len();
        let mut i: usize = 0;
        while i < n
            invariant
                0 <= i <= n,
                n == other.items@.len(),
                self.wf(),
                self@ == old(self)@ + seq_set(other.items@.subrange(0, i as int)),
                self.items@.len() >= old(self).items@.len(),
            decreases n - i,
        {
            let ghost before = self@;
            self.insert(other.items[i].clone());
            proof {
                assert(self@ =~= old(self)@ + seq_set(
                    other.items@.subrange(0, i as int + 1),
                )) by {
                    let sub1 = other.items@.subrange(0, i as int + 1);
                    let sub0 = other.items@.subrange(0, i as int);
                    assert(forall|k: int| 0 <= k < sub0.len() ==> sub1[k] == sub0[k]);
                    assert(sub1[i as int] == other.items@[i as int]);
                    assert(forall|x: Seq<char>|
                        seq_has(sub1, x) ==> seq_has(sub0, x) || x == other.items@[i as int]@);
                };
            }
            i = i + 1;
        }
        proof {
            assert(other.items@.subrange(0, n as int) =~= other.items@);
            assert(self@ =~= old(self)@ + other@);
        }
    }

    /// Whether the two sets share an element.
    pub fn intersects(&self, other: &IdentSet) -> (r: bool)
        ensures
            r == !self@.disjoint(other@),
    {
        let n = self.items.len();
        let mut i: usize = 0;
        while i < n
            invariant
                0 <= i <= n,
                n == self.items@.len(),
                forall|k: int| 0 <= k < i ==> !other@.contains(self.items@[k]@),
            decreases n - i,
        {
            if other.contains(self.items[i].as_str()) {
                proof {
                    assert(self@.contains(self.items@[i as int]@));
                }
                return true;
            }
            i = i + 1;
        }
        proof {
            assert forall|x: Seq<char>| self@.contains(x) implies !other@.contains(x) by {
                let k = choose|k: int| 0 <= k < self.items@.len() && self.items@[k]@ == x;
                assert(!other@.contains(self.items@[k]@));
            };
        }
        false
    }

    /// The elements common to both sets.
    pub fn intersection(&self, other: &IdentSet) -> (r: IdentSet)
        ensures
            r.wf(),
            r@ == self@.intersect(other@),
    {
        let n = self.items.len();
        let mut r = IdentSet::new();
        let mut i: usize = 0;
        while i < n
            invariant
                0 <= i <= n,
                n == self.items@.len(),
                r.wf(),
                forall|x: Seq<char>|
                    r@.contains(x) == (seq_has(self.items@.subrange(0, i as int), x)
                        && other@.contains(x)),
            decreases n - i,
        {
            let ghost sub0 = self.items@.subrange(0, i as int);
            let ghost sub1 = self.items@.subrange(0, i as int + 1);
            proof {
                assert(forall|k: int| 0 <= k < sub0.len() ==> sub1[k] == sub0[k]);
                assert(sub1[i as int] == self.items@[i as int]);
                assert(forall|x: Seq<char>|
                    seq_has(sub1, x) ==> seq_has(sub0, x) || x == self.items@[i as int]@);
            }
            if other.contains(self.items[i].as_str()) {
                r.insert(self.items[i].clone());
            }
            i = i + 1;
        }
        proof {
            assert(self.items@.subrange(0, n as int) =~= self.items@);
            assert(r@ =~= self@.intersect(other@));
        }
        r
    }

    /// Builds a set from a vector, dropping duplicates.
    pub fn from_vec(v: Vec<String>) -> (r: IdentSet)
        ensures
            r.wf(),
            r@ == seq_set(v@),
    {
        let n = v.len();
        let mut r = IdentSet::new();
        let mut i: usize = 0;
        while i < n
            invariant
                0 <= i <= n,
                n == v@.len(),
                r.wf(),
                r@ == seq_set(v@.subrange(0, i as int)),
            decreases n - i,
        {
            let ghost sub0 = v@.subrange(0, i as int);
            let ghost sub1 = v@.subrange(0, i as int + 1);
            proof {
                assert(forall|k: int| 0 <= k < sub0.len() ==> sub1[k] == sub0[k]);
                assert(sub1[i as int] == v@[i as int]);
                assert(forall|x: Seq<char>|
                    seq_has(sub1, x) ==> seq_has(sub0, x) || x == v@[i as int]@);
            }
            r.insert(v[i].clone());
            proof {
                assert(r@ =~= seq_set(sub1));
            }
            i = i + 1;
        }
        proof {
            assert(v@.subrange(0, n as int) =~= v@);
        }
        r
    }

    /// An equal set with freshly owned storage.
    pub fn duplicate(&self) -> (r: IdentSet)
        ensures
            r.items@ == self.items@,
            r@ == self@,
            r.wf() == self.wf(),
    {
        let n = self.items.len();
        let mut items: Vec<String> = Vec::new();
        let mut i: usize = 0;
        while i < n
            invariant
                0 <= i <= n,
                n == self.items@.len(),
                items@.len() == i,
                forall|k: int| 0 <= k < i ==> items@[k] == self.items@[k],
            decreases n - i,
        {
            items.push(self.items[i].clone());
            i = i + 1;
        }
        proof {
            assert(items@ =~= self.items@);
        }
        IdentSet { items }
    }
}

/// A map from identifier strings to ident sets, backed by a vector of
/// entries with duplicate-free keys.
#[derive(Debug)]
pub struct IdentMap {
    pub entries: Vec<(String, IdentSet)>,
}

/// The mathematical map described by `entries` (later entries win).
pub open spec fn entries_map(entries: Seq<(String, IdentSet)>) -> Map<Seq<char>, Set<Seq<char>>>
    decreases entries.len(),
{
    if entries.len() == 0 {
        Map::empty()
    } else {
        entries_map(entries.drop_last()).insert(entries.last().0@, entries.last().1@)
    }
}

pub proof fn lemma_entries_map(entries: Seq<(String, IdentSet)>)
    ensures
        forall|x: Seq<char>|
            entries_map(entries).dom().contains(x) == exists|i: int|
                0 <= i < entries.len() && entries[i].0@ == x,
    decreases entries.len(),
{
    if entries.len() > 0 {
        lemma_entries_map(entries.drop_last());
        assert forall|x: Seq<char>| entries_map(entries).dom().contains(x) implies exists|i: int|
            0 <= i < entries.len() && entries[i].0@ == x by {
            if x == entries.last().0@ {
                assert(entries[entries.len() - 1].0@ == x);
            } else {
                assert(entries_map(entries.drop_last()).dom().contains(x));
                let i = choose|i: int| 0 <= i < entries.drop_last().len() && entries.drop_last()[i].0@ == x;
                assert(entries.drop_last()[i] == entries[i]);
                assert(entries[i].0@ == x);
            }
        };
        assert forall|x: Seq<char>|
            (exists|i: int| 0 <= i < entries.len() && entries[i].0@ == x) implies entries_map(
            entries,
        ).dom().contains(x) by {
            let i = choose|i: int| 0 <= i < entries.len() && entries[i].0@ == x;
            if i < entries.len() - 1 {
                assert(entries.drop_last()[i] == entries[i]);
                assert(entries.drop_last()[i].0@ == x);
                assert(entries_map(entries.drop_last()).dom().contains(x));
            }
        };
    }
}

/// With duplicate-free keys, entry `i` gives the map's value at its key.
pub proof fn lemma_entries_map_get(entries: Seq<(String, IdentSet)>, i: int)
    requires
        forall|p: int, q: int|
            0 <= p < q < entries.len() ==> entries[p].0@ != entries[q].0@,
        0 <= i < entries.len(),
    ensures
        entries_map(entries).dom().contains(entries[i].0@),
        entries_map(entries)[entries[i].0@] == entries[i].1@,
    decreases entries.len(),
{
    lemma_entries_map(entries);
    if i < entries.len() - 1 {
        lemma_entries_map_get(entries.drop_last(), i);
    }
}

impl View for IdentMap {
    type V = Map<Seq<char>, Set<Seq<char>>>;

    open spec fn view(&self) -> Map<Seq<char>, Set<Seq<char>>> {
        entries_map(self.entries@)
    }
}

impl IdentMap {
    /// Keys are duplicate-free and every value is well-formed.
    pub open spec fn wf(&self) -> bool {
        &&& forall|i: int, j: int|
            0 <= i < j < self.entries@.len() ==> self.entries@[i].0@ != self.entries@[j].0@
        &&& forall|i: int| 0 <= i < self.entries@.len() ==> (#[trigger] self.entries@[i].1).wf()
    }

    pub fn new() -> (r: IdentMap)
        ensures
            r.wf(),
            r@ == Map::<Seq<char>, Set<Seq<char>>>::empty(),
    {
        IdentMap { entries: Vec::new() }
    }

    pub fn get(&self, x: &str) -> (r: Option<&IdentSet>)
        requires
            self.wf(),
        ensures
            match r {
                Some(s) => self@.dom().contains(x@) && self@[x@] == s@ && s.wf(),
                None => !self@.dom().contains(x@),
            },
    {
        proof {
            lemma_entries_map(self.entries@);
        }
        let n = self.entries.len();
        let mut i: usize = 0;
        while i < n
            invariant
                0 <= i <= n,
                n == self.entries@.len(),
                self.wf(),
                forall|k: int| 0 <= k < i ==> self.entries@[k].0@ != x@,
            decreases n - i,
        {
            if crate::ident::str_eq(self.entries[i].0.as_str(), x) {
                proof {
                    lemma_entries_map_get(self.entries@, i as int);
                }
                return Some(&self.entries[i].1);
            }
            i = i + 1;
        }
        None
    }

    /// Inserts a binding; an existing binding for the key is replaced.
    pub fn insert(&mut self, k: String, v: IdentSet)
        requires
            old(self).wf(),
            v.wf(),
        ensures
            final(self).wf(),
            final(self)@ == old(self)@.insert(k@, v@),
    {
        let n = self.entries.len();
        let mut i: usize = 0;
        while i < n
            invariant
                0 <= i <= n,
                n == self.entries@.len(),
                self.wf(),
                v.wf(),
                *self == *old(self),
                forall|k2: int| 0 <= k2 < i ==> self.entries@[k2].0@ != k@,
            decreases n - i,
        {
            if crate::ident::str_eq(self.entries[i].0.as_str(), k.as_str()) {
                let ghost prev = self.entries@;
                self.entries.set(i, (k, v));
                proof {
                    lemma_replace_entry(prev, self.entries@, i as int);
                }
                return;
            }
            i = i + 1;
        }
        let ghost prev = self.entries@;
        self.entries.push((k, v));
        proof {
            assert(self.entries@.drop_last() =~= prev);
        }
    }
}

/// Replacing entry `i` by a pair with the same key view updates the map at
/// that key.
proof fn lemma_replace_entry(
    prev: Seq<(String, IdentSet)>,
    cur: Seq<(String, IdentSet)>,
    i: int,
)
    requires
        forall|p: int, q: int| 0 <= p < q < prev.len() ==> prev[p].0@ != prev[q].0@,
        0 <= i < prev.len(),
        cur.len() == prev.len(),
        cur[i].0@ == prev[i].0@,
        forall|k: int| 0 <= k < prev.len() && k != i ==> cur[k] == prev[k],
    ensures
        entries_map(cur) == entries_map(prev).insert(cur[i].0@, cur[i].1@),
        forall|p: int, q: int| 0 <= p < q < cur.len() ==> cur[p].0@ != cur[q].0@,
    decreases prev.len(),
{
    assert forall|p: int, q: int| 0 <= p < q < cur.len() implies cur[p].0@ != cur[q].0@ by {
        assert(cur[p].0@ == prev[p].0@ && cur[q].0@ == prev[q].0@);
    }
    if i == prev.len() - 1 {
        assert(cur.drop_last() =~= prev.drop_last());
        assert(entries_map(cur) == entries_map(prev.drop_last()).insert(cur[i].0@, cur[i].1@));
        assert(entries_map(prev) == entries_map(prev.drop_last()).insert(prev[i].0@, prev[i].1@));
        assert(entries_map(cur) =~= entries_map(prev).insert(cur[i].0@, cur[i].1@));
    } else {
        lemma_replace_entry(prev.drop_last(), cur.drop_last(), i);
        assert(cur.last() == prev.last());
        assert(entries_map(cur) == entries_map(cur.drop_last()).insert(prev.last().0@, prev.last().1@));
        assert(prev.last().0@ != cur[i].0@);
        assert(entries_map(cur) =~= entries_map(prev).insert(cur[i].0@, cur[i].1@));
    }
}

} // verus!
