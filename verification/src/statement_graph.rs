//! Per-module directed graph of statements. Edges point from a statement
//! to every statement defining an identifier it uses, labeled with the
//! triggering idents; multi-edges are merged and there are no self-loops.

use vstd::prelude::*;

use crate::idents::IdentSet;
use crate::statement::{Statement, StatementId};

verus! {

/// Label of a statement-graph edge: the idents of the target statement
/// that the source statement uses.
#[derive(Debug)]
pub struct StatementGraphEdge {
    pub idents: IdentSet,
}

/// A directed graph over the statements of one module. Statement ids are
/// indices into `stmts`; `edges` holds `(from, to, label)` records.
#[derive(Debug)]
pub struct StatementGraph {
    pub stmts: Vec<Statement>,
    pub edges: Vec<(StatementId, StatementId, StatementGraphEdge)>,
}

/// Whether an edge record among the first `bound` runs `id -> t`.
pub open spec fn out_edge_upto(
    edges: Seq<(StatementId, StatementId, StatementGraphEdge)>,
    bound: int,
    id: int,
    t: int,
) -> bool {
    exists|w: int|
        0 <= w < bound && w < edges.len() && (#[trigger] edges[w]).0 == id && edges[w].1 == t
}

/// A larger bound keeps every outgoing edge.
proof fn lemma_out_edge_widen(
    edges: Seq<(StatementId, StatementId, StatementGraphEdge)>,
    bound: int,
    id: int,
    t: int,
)
    requires
        out_edge_upto(edges, bound, id, t),
    ensures
        out_edge_upto(edges, bound + 1, id, t),
{
    let w = choose|w: int|
        0 <= w < bound && w < edges.len() && (#[trigger] edges[w]).0 == id && edges[w].1 == t;
    assert(0 <= w < bound + 1 && w < edges.len() && edges[w].0 == id && edges[w].1 == t);
}

impl StatementGraph {
    /// Whether an edge `u -> v` is present.
    pub open spec fn has_edge(&self, u: int, v: int) -> bool {
        exists|e: int|
            0 <= e < self.edges@.len() && (#[trigger] self.edges@[e]).0 == u && self.edges@[e].1
                == v
    }

    /// The label of the edge `u -> v` (meaningful when `has_edge(u, v)`).
    pub open spec fn edge_idents(&self, u: int, v: int) -> Set<Seq<char>> {
        let e = choose|e: int|
            0 <= e < self.edges@.len() && (#[trigger] self.edges@[e]).0 == u && self.edges@[e].1
                == v;
        self.edges@[e].2.idents@
    }

    /// Well-formedness: statements are indexed by their id; every edge
    /// joins two distinct valid statements, carries a well-formed label,
    /// and that label only holds idents that the source uses and the
    /// target defines; edges between one pair of statements are merged.
    pub open spec fn wf(&self) -> bool {
        &&& forall|i: int|
            0 <= i < self.stmts@.len() ==> (#[trigger] self.stmts@[i]).wf() && self.stmts@[i].id
                == i
        &&& forall|e: int|
            0 <= e < self.edges@.len() ==> {
                let edge = #[trigger] self.edges@[e];
                &&& edge.0 < self.stmts@.len()
                &&& edge.1 < self.stmts@.len()
                &&& edge.0 != edge.1
                &&& edge.2.idents.wf()
                &&& edge.2.idents@.subset_of(
                    self.stmts@[edge.0 as int].used_idents@.intersect(
                        self.stmts@[edge.1 as int].defined_idents@,
                    ),
                )
            }
        &&& forall|e1: int, e2: int|
            0 <= e1 < e2 < self.edges@.len() ==> !((#[trigger] self.edges@[e1]).0 == (
            #[trigger] self.edges@[e2]).0 && self.edges@[e1].1 == self.edges@[e2].1)
    }

    /// With `wf`, any edge record from `u` to `v` carries the label
    /// `edge_idents(u, v)`.
    pub proof fn lemma_edge_unique(&self, e: int)
        requires
            self.wf(),
            0 <= e < self.edges@.len(),
        ensures
            self.edge_idents(self.edges@[e].0 as int, self.edges@[e].1 as int)
                == self.edges@[e].2.idents@,
            self.has_edge(self.edges@[e].0 as int, self.edges@[e].1 as int),
    {
        let u = self.edges@[e].0 as int;
        let v = self.edges@[e].1 as int;
        assert(self.has_edge(u, v));
        let w = choose|w: int|
            0 <= w < self.edges@.len() && (#[trigger] self.edges@[w]).0 == u && self.edges@[w].1
                == v;
        if w != e {
            if w < e {
                assert(!(self.edges@[w].0 == self.edges@[e].0 && self.edges@[w].1
                    == self.edges@[e].1));
            } else {
                assert(!(self.edges@[e].0 == self.edges@[w].0 && self.edges@[e].1
                    == self.edges@[w].1));
            }
        }
    }

    /// Every edge's label is contained in the intersection of its source's
    /// used idents and its target's defined idents.
    pub proof fn lemma_edge_labels_sound(&self, u: int, v: int)
        requires
            self.wf(),
            self.has_edge(u, v),
        ensures
            0 <= u < self.stmts@.len(),
            0 <= v < self.stmts@.len(),
            self.edge_idents(u, v).subset_of(
                self.stmts@[u].used_idents@.intersect(self.stmts@[v].defined_idents@),
            ),
    {
        let e = choose|e: int|
            0 <= e < self.edges@.len() && (#[trigger] self.edges@[e]).0 == u && self.edges@[e].1
                == v;
        assert(self.edges@[e].2.idents@.subset_of(
            self.stmts@[u].used_idents@.intersect(self.stmts@[v].defined_idents@),
        ));
    }

    /// An empty graph.
    pub fn empty() -> (r: StatementGraph)
        ensures
            r.wf(),
            r.stmts@.len() == 0,
            r.edges@.len() == 0,
    {
        StatementGraph { stmts: Vec::new(), edges: Vec::new() }
    }

    /// Builds the graph for a module body: one node per statement, and an
    /// edge from every statement to every other statement defining an
    /// ident it uses, labeled with exactly those idents.
    pub fn new(stmts: Vec<Statement>) -> (r: StatementGraph)
        requires
            forall|i: int|
                0 <= i < stmts@.len() ==> (#[trigger] stmts@[i]).wf() && stmts@[i].id == i,
        ensures
            r.wf(),
            r.stmts@ == stmts@,
            forall|u: int, v: int|
                0 <= u < stmts@.len() && 0 <= v < stmts@.len() ==> r.has_edge(u, v) == (u != v
                    && !stmts@[u].used_idents@.disjoint(stmts@[v].defined_idents@)),
            forall|u: int, v: int|
                #![trigger r.edge_idents(u, v)]
                0 <= u < stmts@.len() && 0 <= v < stmts@.len() && r.has_edge(u, v)
                    ==> r.edge_idents(u, v) == stmts@[u].used_idents@.intersect(
                    stmts@[v].defined_idents@,
                ),
    {
        let n = stmts.len();
        let mut graph = StatementGraph { stmts, edges: Vec::new() };
        let mut i: usize = 0;
        while i < n
            invariant
                0 <= i <= n,
                n == graph.stmts@.len(),
                graph.stmts@ == stmts@,
                forall|k: int|
                    0 <= k < n ==> (#[trigger] graph.stmts@[k]).wf() && graph.stmts@[k].id == k,
                graph.wf(),
                forall|e: int|
                    0 <= e < graph.edges@.len() ==> (#[trigger] graph.edges@[e]).0 < i,
                forall|u: int, v: int|
                    0 <= u < i && 0 <= v < n ==> graph.has_edge(u, v) == (u != v
                        && !graph.stmts@[u].used_idents@.disjoint(graph.stmts@[v].defined_idents@)),
                forall|e: int|
                    0 <= e < graph.edges@.len() ==> (#[trigger] graph.edges@[e]).2.idents@
                        == graph.stmts@[graph.edges@[e].0 as int].used_idents@.intersect(
                        graph.stmts@[graph.edges@[e].1 as int].defined_idents@,
                    ),
            decreases n - i,
        {
            let mut j: usize = 0;
            while j < n
                invariant
                    0 <= i < n,
                    0 <= j <= n,
                    n == graph.stmts@.len(),
                    graph.stmts@ == stmts@,
                    forall|k: int|
                        0 <= k < n ==> (#[trigger] graph.stmts@[k]).wf() && graph.stmts@[k].id
                            == k,
                    graph.wf(),
                    forall|e: int|
                        0 <= e < graph.edges@.len() ==> ((#[trigger] graph.edges@[e]).0 < i || (
                        graph.edges@[e].0 == i && graph.edges@[e].1 < j)),
                    forall|u: int, v: int|
                        0 <= u < i && 0 <= v < n ==> graph.has_edge(u, v) == (u != v
                            && !graph.stmts@[u].used_idents@.disjoint(
                            graph.stmts@[v].defined_idents@,
                        )),
                    forall|v: int|
                        0 <= v < j ==> graph.has_edge(i as int, v) == (i != v
                            && !graph.stmts@[i as int].used_idents@.disjoint(
                            graph.stmts@[v].defined_idents@,
                        )),
                    forall|e: int|
                        0 <= e < graph.edges@.len() ==> (#[trigger] graph.edges@[e]).2.idents@
                            == graph.stmts@[graph.edges@[e].0 as int].used_idents@.intersect(
                            graph.stmts@[graph.edges@[e].1 as int].defined_idents@,
                        ),
                decreases n - j,
            {
                let ghost g0 = graph;
                if i != j {
                    let deps = graph.stmts[i].used_idents.intersection(
                        &graph.stmts[j].defined_idents,
                    );
                    if !deps.is_empty() {
                        graph.edges.push((i, j, StatementGraphEdge { idents: deps }));
                        proof {
                            let prev = g0.edges@;
                            assert(forall|e: int|
                                0 <= e < prev.len() ==> graph.edges@[e] == prev[e]);
                            assert(graph.edges@[prev.len() as int].0 == i
                                && graph.edges@[prev.len() as int].1 == j);
                            assert(deps@.contains(deps.items@[0]@));
                            assert(!g0.stmts@[i as int].used_idents@.disjoint(
                                g0.stmts@[j as int].defined_idents@,
                            ));
                            assert forall|u: int, v: int|
                                #![trigger graph.has_edge(u, v)]
                                true implies graph.has_edge(u, v) == ((u == i && v == j)
                                || g0.has_edge(u, v)) by {
                                if graph.has_edge(u, v) {
                                    let e = choose|e: int|
                                        0 <= e < graph.edges@.len() && (#[trigger] graph.edges@[e]).0
                                            == u && graph.edges@[e].1 == v;
                                    if e < prev.len() {
                                        assert(prev[e].0 == u && prev[e].1 == v);
                                        assert(g0.has_edge(u, v));
                                    }
                                } else {
                                    assert(!(u == i && v == j));
                                    if g0.has_edge(u, v) {
                                        let e = choose|e: int|
                                            0 <= e < prev.len() && (#[trigger] prev[e]).0 == u
                                                && prev[e].1 == v;
                                        assert(graph.edges@[e].0 == u && graph.edges@[e].1 == v);
                                    }
                                }
                            };
                            assert forall|e1: int, e2: int|
                                0 <= e1 < e2 < graph.edges@.len() implies !((
                            #[trigger] graph.edges@[e1]).0 == (#[trigger] graph.edges@[e2]).0
                                && graph.edges@[e1].1 == graph.edges@[e2].1) by {
                                if e2 == prev.len() {
                                    assert(graph.edges@[e1] == prev[e1]);
                                    assert(prev[e1].0 < i || (prev[e1].0 == i && prev[e1].1 < j));
                                }
                            };
                        }
                    } else {
                        proof {
                            assert(g0.stmts@[i as int].used_idents@.disjoint(
                                g0.stmts@[j as int].defined_idents@,
                            )) by {
                                if !g0.stmts@[i as int].used_idents@.disjoint(
                                    g0.stmts@[j as int].defined_idents@,
                                ) {
                                    let x = choose|x: Seq<char>|
                                        g0.stmts@[i as int].used_idents@.contains(x)
                                            && g0.stmts@[j as int].defined_idents@.contains(x);
                                    assert(deps@.contains(x));
                                }
                            };
                            assert(!graph.has_edge(i as int, j as int)) by {
                                if graph.has_edge(i as int, j as int) {
                                    let e = choose|e: int|
                                        0 <= e < graph.edges@.len() && (#[trigger] graph.edges@[e]).0
                                            == i as int && graph.edges@[e].1 == j as int;
                                }
                            };
                        }
                    }
                } else {
                    proof {
                        assert(!graph.has_edge(i as int, j as int)) by {
                            if graph.has_edge(i as int, j as int) {
                                let e = choose|e: int|
                                    0 <= e < graph.edges@.len() && (#[trigger] graph.edges@[e]).0
                                        == i as int && graph.edges@[e].1 == j as int;
                            }
                        };
                    }
                }
                j = j + 1;
            }
            i = i + 1;
        }
        proof {
            assert forall|u: int, v: int|
                #![trigger graph.edge_idents(u, v)]
                0 <= u < n && 0 <= v < n && graph.has_edge(u, v) implies graph.edge_idents(u, v)
                == graph.stmts@[u].used_idents@.intersect(graph.stmts@[v].defined_idents@) by {
                let e = choose|e: int|
                    0 <= e < graph.edges@.len() && (#[trigger] graph.edges@[e]).0 == u
                        && graph.edges@[e].1 == v;
                graph.lemma_edge_unique(e);
            };
        }
        graph
    }

    /// Adds or merges an edge `from -> to` labeled `idents`.
    pub fn add_edge(&mut self, from: StatementId, to: StatementId, idents: IdentSet)
        requires
            old(self).wf(),
            from < old(self).stmts@.len(),
            to < old(self).stmts@.len(),
            from != to,
            idents.wf(),
            idents@.subset_of(
                old(self).stmts@[from as int].used_idents@.intersect(
                    old(self).stmts@[to as int].defined_idents@,
                ),
            ),
        ensures
            final(self).wf(),
            final(self).stmts@ == old(self).stmts@,
            forall|u: int, v: int|
                final(self).has_edge(u, v) == (old(self).has_edge(u, v) || (u == from && v
                    == to)),
            final(self).edge_idents(from as int, to as int) == (if old(self).has_edge(
                from as int,
                to as int,
            ) {
                old(self).edge_idents(from as int, to as int) + idents@
            } else {
                idents@
            }),
            forall|u: int, v: int|
                old(self).has_edge(u, v) && !(u == from && v == to) ==> final(self).edge_idents(
                    u,
                    v,
                ) == old(self).edge_idents(u, v),
    {
        let n = self.edges.len();
        let mut e: usize = 0;
        while e < n
            invariant
                0 <= e <= n,
                n == self.edges@.len(),
                self.wf(),
                *self == *old(self),
                from < self.stmts@.len(),
                to < self.stmts@.len(),
                from != to,
                idents.wf(),
                idents@.subset_of(
                    self.stmts@[from as int].used_idents@.intersect(
                        self.stmts@[to as int].defined_idents@,
                    ),
                ),
                forall|k: int|
                    0 <= k < e ==> !((#[trigger] self.edges@[k]).0 == from && self.edges@[k].1
                        == to),
            decreases n - e,
        {
            if self.edges[e].0 == from && self.edges[e].1 == to {
                let (f, t, mut label) = self.edges.remove(e);
                label.idents.extend_from(&idents);
                self.edges.insert(e, (f, t, label));
                proof {
                    let prev = old(self).edges@;
                    assert(self.edges@.len() == prev.len());
                    assert(forall|k: int|
                        0 <= k < prev.len() && k != e ==> self.edges@[k] == prev[k]);
                    assert(self.edges@[e as int].0 == prev[e as int].0 && self.edges@[e as int].1
                        == prev[e as int].1);
                    assert(self.edges@[e as int].2.idents@ == prev[e as int].2.idents@ + idents@);
                    assert(self.wf());
                    old(self).lemma_edge_unique(e as int);
                    assert forall|u: int, v: int|
                        #![trigger final(self).has_edge(u, v)]
                        true implies final(self).has_edge(u, v) == (old(self).has_edge(u, v) || (u
                        == from && v == to)) by {
                        if final(self).has_edge(u, v) {
                            let w = choose|w: int|
                                0 <= w < self.edges@.len() && (#[trigger] self.edges@[w]).0 == u
                                    && self.edges@[w].1 == v;
                            assert(prev[w].0 == u && prev[w].1 == v);
                        }
                        if old(self).has_edge(u, v) {
                            let w = choose|w: int|
                                0 <= w < prev.len() && (#[trigger] prev[w]).0 == u && prev[w].1
                                    == v;
                            assert(self.edges@[w].0 == u && self.edges@[w].1 == v);
                        }
                    };
                    self.lemma_edge_unique(e as int);
                    assert forall|u: int, v: int|
                        old(self).has_edge(u, v) && !(u == from && v == to) implies final(self).edge_idents(u, v) == old(self).edge_idents(u, v) by {
                        let w = choose|w: int|
                            0 <= w < prev.len() && (#[trigger] prev[w]).0 == u && prev[w].1 == v;
                        old(self).lemma_edge_unique(w);
                        assert(self.edges@[w].0 == u && self.edges@[w].1 == v);
                        assert(w != e);
                        self.lemma_edge_unique(w);
                    };
                }
                return;
            }
            e = e + 1;
        }
        let ghost prev = self.edges@;
        self.edges.push((from, to, StatementGraphEdge { idents }));
        proof {
            assert(forall|k: int| 0 <= k < prev.len() ==> self.edges@[k] == prev[k]);
            assert(self.edges@[prev.len() as int].0 == from && self.edges@[prev.len() as int].1
                == to);
            assert(!old(self).has_edge(from as int, to as int));
            assert forall|u: int, v: int|
                #![trigger final(self).has_edge(u, v)]
                true implies final(self).has_edge(u, v) == (old(self).has_edge(u, v) || (u == from
                && v == to)) by {
                if final(self).has_edge(u, v) {
                    let w = choose|w: int|
                        0 <= w < self.edges@.len() && (#[trigger] self.edges@[w]).0 == u
                            && self.edges@[w].1 == v;
                    if w < prev.len() {
                        assert(prev[w].0 == u && prev[w].1 == v);
                    }
                }
                if old(self).has_edge(u, v) {
                    let w = choose|w: int|
                        0 <= w < prev.len() && (#[trigger] prev[w]).0 == u && prev[w].1 == v;
                    assert(self.edges@[w].0 == u && self.edges@[w].1 == v);
                }
            };
            self.lemma_edge_unique(prev.len() as int);
            assert forall|u: int, v: int|
                old(self).has_edge(u, v) && !(u == from && v == to) implies final(self).edge_idents(u, v) == old(self).edge_idents(u, v) by {
                let w = choose|w: int|
                    0 <= w < prev.len() && (#[trigger] prev[w]).0 == u && prev[w].1 == v;
                old(self).lemma_edge_unique(w);
                assert(self.edges@[w].0 == u && self.edges@[w].1 == v);
                self.lemma_edge_unique(w);
            };
        }
    }

    /// The statement with the given id.
    pub fn stmt(&self, id: StatementId) -> (r: &Statement)
        requires
            id < self.stmts@.len(),
        ensures
            *r == self.stmts@[id as int],
    {
        &self.stmts[id]
    }

    /// All statements, in body order.
    pub fn stmts(&self) -> (r: &Vec<Statement>)
        ensures
            r@ == self.stmts@,
    {
        &self.stmts
    }

    /// All edge records.
    pub fn edges(&self) -> (r: &Vec<(StatementId, StatementId, StatementGraphEdge)>)
        ensures
            r@ == self.edges@,
    {
        &self.edges
    }

    /// The statements that `id` depends on, each with the idents that
    /// trigger the dependency.
    #[verifier::rlimit(60)]
    pub fn dependencies(&self, id: StatementId) -> (r: Vec<(StatementId, IdentSet)>)
        requires
            self.wf(),
            id < self.stmts@.len(),
        ensures
            forall|k: int|
                0 <= k < r@.len() ==> {
                    let p = #[trigger] r@[k];
                    &&& self.has_edge(id as int, p.0 as int)
                    &&& p.0 < self.stmts@.len()
                    &&& p.1.wf()
                    &&& p.1@ == self.edge_idents(id as int, p.0 as int)
                },
            forall|e: int|
                0 <= e < self.edges@.len() && (#[trigger] self.edges@[e]).0 == id ==> exists|k: int|
                    0 <= k < r@.len() && (#[trigger] r@[k]).0 == self.edges@[e].1,
            forall|p: int, q: int| 0 <= p < q < r@.len() ==> r@[p].0 != r@[q].0,
    {
        let n = self.edges.len();
        let mut r: Vec<(StatementId, IdentSet)> = Vec::new();
        let mut e: usize = 0;
        while e < n
            invariant
                0 <= e <= n,
                n == self.edges@.len(),
                self.wf(),
                id < self.stmts@.len(),
                forall|k: int|
                    0 <= k < r@.len() ==> {
                        let p = #[trigger] r@[k];
                        &&& self.has_edge(id as int, p.0 as int)
                        &&& p.0 < self.stmts@.len()
                        &&& p.1.wf()
                        &&& p.1@ == self.edge_idents(id as int, p.0 as int)
                    },
                forall|k: int|
                    0 <= k < r@.len() ==> out_edge_upto(
                        self.edges@,
                        e as int,
                        id as int,
                        (#[trigger] r@[k]).0 as int,
                    ),
                forall|w: int|
                    0 <= w < e && (#[trigger] self.edges@[w]).0 == id ==> exists|k: int|
                        0 <= k < r@.len() && (#[trigger] r@[k]).0 == self.edges@[w].1,
                forall|p: int, q: int| 0 <= p < q < r@.len() ==> r@[p].0 != r@[q].0,
            decreases n - e,
        {
            let ghost prevr = r@;
            if self.edges[e].0 == id {
                let target = self.edges[e].1;
                let label = self.edges[e].2.idents.duplicate();
                proof {
                    self.lemma_edge_unique(e as int);
                }
                r.push((target, label));
                proof {
                    assert(forall|k: int| 0 <= k < prevr.len() ==> r@[k] == prevr[k]);
                    assert(r@[prevr.len() as int].0 == self.edges@[e as int].1);
                    // one entry per edge and merged multi-edges give
                    // pairwise-distinct targets
                    assert forall|p: int, q: int| 0 <= p < q < r@.len() implies r@[p].0 != r@[q].0
                        by {
                        if q == prevr.len() {
                            assert(out_edge_upto(
                                self.edges@,
                                e as int,
                                id as int,
                                prevr[p].0 as int,
                            ));
                            let w = choose|w: int|
                                0 <= w < e && w < self.edges@.len() && (#[trigger] self.edges@[w]).0
                                    == id as int && self.edges@[w].1 == prevr[p].0 as int;
                            assert(!(self.edges@[w].0 == self.edges@[e as int].0
                                && self.edges@[w].1 == self.edges@[e as int].1));
                        }
                    };
                }
            }
            proof {
                assert forall|k: int| 0 <= k < r@.len() implies out_edge_upto(
                    self.edges@,
                    e as int + 1,
                    id as int,
                    (#[trigger] r@[k]).0 as int,
                ) by {
                    if k < prevr.len() {
                        assert(r@[k] == prevr[k]);
                        assert(out_edge_upto(self.edges@, e as int, id as int, prevr[k].0 as int));
                        lemma_out_edge_widen(self.edges@, e as int, id as int, prevr[k].0 as int);
                    } else {
                        assert(self.edges@[e as int].0 == id && self.edges@[e as int].1
                            == r@[k].0);
                        assert(out_edge_upto(self.edges@, e as int + 1, id as int, r@[k].0 as int));
                    }
                };
            }
            e = e + 1;
        }
        r
    }
}

/// An entry a live-slice query may start from.
#[derive(Debug, Clone, PartialEq, Eq)]
pub enum UsedIdent {
    /// A named export is used.
    SwcIdent(String),
    /// The default export is used.
    Default,
    /// The statement is reached through `export * from` of the named
    /// specifier.
    InExportAll(String),
    /// The whole export surface is reached.
    ExportAll,
}

/// The map a live-slice query produces: statement id to the idents kept
/// for it. Later bindings win; keys are duplicate-free.
#[derive(Debug)]
pub struct UsedStatementMap {
    pub entries: Vec<(StatementId, IdentSet)>,
}

/// The mathematical map described by the entries.
pub open spec fn used_map(entries: Seq<(StatementId, IdentSet)>) -> Map<int, Set<Seq<char>>>
    decreases entries.len(),
{
    if entries.len() == 0 {
        Map::empty()
    } else {
        used_map(entries.drop_last()).insert(
            entries.last().0 as int,
            entries.last().1@,
        )
    }
}

pub proof fn lemma_used_map_dom(entries: Seq<(StatementId, IdentSet)>)
    ensures
        forall|x: int|
            used_map(entries).dom().contains(x) == exists|i: int|
                0 <= i < entries.len() && (#[trigger] entries[i]).0 == x,
    decreases entries.len(),
{
    if entries.len() > 0 {
        lemma_used_map_dom(entries.drop_last());
        assert forall|x: int| used_map(entries).dom().contains(x) implies exists|i: int|
            0 <= i < entries.len() && (#[trigger] entries[i]).0 == x by {
            if x == entries.last().0 {
                assert(entries[entries.len() - 1].0 == x);
            } else {
                assert(used_map(entries.drop_last()).dom().contains(x));
                let i = choose|i: int|
                    0 <= i < entries.drop_last().len() && (#[trigger] entries.drop_last()[i]).0
                        == x;
                assert(entries.drop_last()[i] == entries[i]);
                assert(entries[i].0 == x);
            }
        };
        assert forall|x: int|
            (exists|i: int| 0 <= i < entries.len() && (#[trigger] entries[i]).0 == x) implies
            used_map(entries).dom().contains(x) by {
            let i = choose|i: int| 0 <= i < entries.len() && (#[trigger] entries[i]).0 == x;
            if i < entries.len() - 1 {
                assert(entries.drop_last()[i] == entries[i]);
                assert(entries.drop_last()[i].0 == x);
                assert(used_map(entries.drop_last()).dom().contains(x));
            }
        };
    }
}

pub proof fn lemma_used_map_get(entries: Seq<(StatementId, IdentSet)>, i: int)
    requires
        forall|p: int, q: int| 0 <= p < q < entries.len() ==> entries[p].0 != entries[q].0,
        0 <= i < entries.len(),
    ensures
        used_map(entries).dom().contains(entries[i].0 as int),
        used_map(entries)[entries[i].0 as int] == entries[i].1@,
    decreases entries.len(),
{
    lemma_used_map_dom(entries);
    if i < entries.len() - 1 {
        assert(entries.drop_last()[i] == entries[i]);
        lemma_used_map_get(entries.drop_last(), i);
        assert(entries.last().0 != entries[i].0);
    }
}

/// Replacing entry `i` by one with the same key updates only that key.
proof fn lemma_used_replace(
    prev: Seq<(StatementId, IdentSet)>,
    cur: Seq<(StatementId, IdentSet)>,
    i: int,
)
    requires
        forall|p: int, q: int| 0 <= p < q < prev.len() ==> prev[p].0 != prev[q].0,
        0 <= i < prev.len(),
        cur.len() == prev.len(),
        cur[i].0 == prev[i].0,
        forall|k: int| 0 <= k < prev.len() && k != i ==> cur[k] == prev[k],
    ensures
        used_map(cur) == used_map(prev).insert(cur[i].0 as int, cur[i].1@),
        forall|p: int, q: int| 0 <= p < q < cur.len() ==> cur[p].0 != cur[q].0,
    decreases prev.len(),
{
    assert forall|p: int, q: int| 0 <= p < q < cur.len() implies cur[p].0 != cur[q].0 by {
        assert(cur[p].0 == prev[p].0 && cur[q].0 == prev[q].0);
    }
    if i == prev.len() - 1 {
        assert(cur.drop_last() =~= prev.drop_last());
        assert(used_map(cur) =~= used_map(prev).insert(cur[i].0 as int, cur[i].1@));
    } else {
        lemma_used_replace(prev.drop_last(), cur.drop_last(), i);
        assert(cur.last() == prev.last());
        assert(prev.last().0 != cur[i].0);
        assert(used_map(cur) =~= used_map(prev).insert(cur[i].0 as int, cur[i].1@));
    }
}

impl UsedStatementMap {
    pub open spec fn wf(&self) -> bool {
        &&& forall|p: int, q: int|
            0 <= p < q < self.entries@.len() ==> self.entries@[p].0 != self.entries@[q].0
        &&& forall|i: int| 0 <= i < self.entries@.len() ==> (#[trigger] self.entries@[i].1).wf()
    }

    pub open spec fn spec_map(&self) -> Map<int, Set<Seq<char>>> {
        used_map(self.entries@)
    }

    pub fn new() -> (r: UsedStatementMap)
        ensures
            r.wf(),
            r.spec_map() == Map::<int, Set<Seq<char>>>::empty(),
    {
        UsedStatementMap { entries: Vec::new() }
    }

    fn find(&self, sid: StatementId) -> (r: Option<usize>)
        requires
            self.wf(),
        ensures
            match r {
                Some(i) => i < self.entries@.len() && self.entries@[i as int].0 == sid,
                None => !self.spec_map().dom().contains(sid as int),
            },
    {
        proof {
            lemma_used_map_dom(self.entries@);
        }
        let n = self.entries.len();
        let mut i: usize = 0;
        while i < n
            invariant
                0 <= i <= n,
                n == self.entries@.len(),
                forall|k: int| 0 <= k < i ==> (#[trigger] self.entries@[k]).0 != sid,
            decreases n - i,
        {
            if self.entries[i].0 == sid {
                return Some(i);
            }
            i = i + 1;
        }
        None
    }

    /// Looks up the kept idents of a statement.
    pub fn get(&self, sid: StatementId) -> (r: Option<&IdentSet>)
        requires
            self.wf(),
        ensures
            match r {
                Some(s) => self.spec_map().dom().contains(sid as int)
                    && self.spec_map()[sid as int] == s@ && s.wf(),
                None => !self.spec_map().dom().contains(sid as int),
            },
    {
        match self.find(sid) {
            Some(i) => {
                proof {
                    lemma_used_map_get(self.entries@, i as int);
                }
                Some(&self.entries[i].1)
            },
            None => None,
        }
    }

    /// Unions `s` into the statement's entry, creating it if absent.
    pub fn extend(&mut self, sid: StatementId, s: &IdentSet)
        requires
            old(self).wf(),
            s.wf(),
        ensures
            final(self).wf(),
            final(self).spec_map() == old(self).spec_map().insert(
                sid as int,
                (if old(self).spec_map().dom().contains(sid as int) {
                    old(self).spec_map()[sid as int] + s@
                } else {
                    s@
                }),
            ),
    {
        match self.find(sid) {
            Some(i) => {
                proof {
                    lemma_used_map_get(self.entries@, i as int);
                }
                let ghost prev = self.entries@;
                let (k, mut cur) = self.entries.remove(i);
                cur.extend_from(s);
                self.entries.insert(i, (k, cur));
                proof {
                    assert(self.entries@.len() == prev.len());
                    assert(forall|k2: int|
                        0 <= k2 < prev.len() && k2 != i ==> self.entries@[k2] == prev[k2]);
                    assert(self.entries@[i as int].0 == prev[i as int].0);
                    assert(self.entries@[i as int].1@ == prev[i as int].1@ + s@);
                    lemma_used_replace(prev, self.entries@, i as int);
                }
            },
            None => {
                let ghost prev = self.entries@;
                self.entries.push((sid, s.duplicate()));
                proof {
                    lemma_used_map_dom(prev);
                    assert forall|k: int| 0 <= k < prev.len() implies (#[trigger] prev[k]).0
                        != sid by {
                        if prev[k].0 == sid {
                            assert(exists|i2: int|
                                0 <= i2 < prev.len() && (#[trigger] prev[i2]).0 == sid);
                        }
                    };
                    assert(self.entries@.drop_last() =~= prev);
                    assert(self.entries@.last().0 == sid && self.entries@.last().1@ == s@);
                    assert(forall|k: int|
                        0 <= k < prev.len() ==> self.entries@[k] == prev[k]);
                }
            },
        }
    }

    /// Adds one ident to the statement's entry, creating it if absent.
    pub fn insert_one(&mut self, sid: StatementId, x: String)
        requires
            old(self).wf(),
        ensures
            final(self).wf(),
            final(self).spec_map() == old(self).spec_map().insert(
                sid as int,
                (if old(self).spec_map().dom().contains(sid as int) {
                    old(self).spec_map()[sid as int].insert(x@)
                } else {
                    Set::<Seq<char>>::empty().insert(x@)
                }),
            ),
    {
        let ghost xv = x@;
        let mut single = IdentSet::new();
        single.insert(x);
        proof {
            assert(single@ =~= Set::<Seq<char>>::empty().insert(xv));
        }
        let ghost m0 = self.spec_map();
        self.extend(sid, &single);
        proof {
            if m0.dom().contains(sid as int) {
                assert(m0[sid as int] + single@ =~= m0[sid as int].insert(xv));
            }
        }
    }

    /// Replaces the statement's entry by exactly `s`.
    pub fn set(&mut self, sid: StatementId, s: IdentSet)
        requires
            old(self).wf(),
            s.wf(),
        ensures
            final(self).wf(),
            final(self).spec_map() == old(self).spec_map().insert(sid as int, s@),
    {
        match self.find(sid) {
            Some(i) => {
                let ghost prev = self.entries@;
                let (k, _old_set) = self.entries.remove(i);
                self.entries.insert(i, (k, s));
                proof {
                    assert(self.entries@.len() == prev.len());
                    assert(forall|k2: int|
                        0 <= k2 < prev.len() && k2 != i ==> self.entries@[k2] == prev[k2]);
                    assert(self.entries@[i as int].0 == prev[i as int].0);
                    lemma_used_replace(prev, self.entries@, i as int);
                }
            },
            None => {
                let ghost prev = self.entries@;
                self.entries.push((sid, s));
                proof {
                    lemma_used_map_dom(prev);
                    assert forall|k: int| 0 <= k < prev.len() implies (#[trigger] prev[k]).0
                        != sid by {
                        if prev[k].0 == sid {
                            assert(exists|i2: int|
                                0 <= i2 < prev.len() && (#[trigger] prev[i2]).0 == sid);
                        }
                    };
                    assert(self.entries@.drop_last() =~= prev);
                    assert(forall|k: int|
                        0 <= k < prev.len() ==> self.entries@[k] == prev[k]);
                }
            },
        }
    }
}

/// Whether the entry list reaches the whole export surface.
pub open spec fn has_export_all(idents: Seq<UsedIdent>) -> bool {
    exists|j: int| 0 <= j < idents.len() && (#[trigger] idents[j]) is ExportAll
}

/// Whether the entry list carries a whole-statement mark.
pub open spec fn has_mark(idents: Seq<UsedIdent>) -> bool {
    exists|j: int|
        0 <= j < idents.len() && ((#[trigger] idents[j]) is ExportAll || idents[j] is InExportAll)
}

/// No `ExportAll` entry follows position `j`.
pub open spec fn no_export_all_after(idents: Seq<UsedIdent>, j: int) -> bool {
    forall|k: int| j < k < idents.len() ==> !((#[trigger] idents[k]) is ExportAll)
}

/// The whole-statement marks one starting pair leaves in the result:
/// an `ExportAll` marks the statement with `"*"`; an `InExportAll`
/// specifier not later wiped by an `ExportAll` marks it with the
/// specifier.
pub open spec fn pair_marks_hold(
    m: Map<int, Set<Seq<char>>>,
    sid: int,
    idents: Seq<UsedIdent>,
) -> bool {
    &&& (has_export_all(idents) ==> m.dom().contains(sid) && m[sid].contains("*"@))
    &&& (forall|j: int|
        0 <= j < idents.len() ==> ((#[trigger] idents[j]) matches UsedIdent::InExportAll(sp)
            ==> (no_export_all_after(idents, j) ==> m.dom().contains(sid) && m[sid].contains(
            sp@,
        ))))
}

/// Without whole-statement marks, every named entry of the pair is
/// kept for its statement.
pub open spec fn pair_seeds_hold(
    m: Map<int, Set<Seq<char>>>,
    sid: int,
    idents: Seq<UsedIdent>,
) -> bool {
    !has_mark(idents) ==> forall|j: int|
        0 <= j < idents.len() ==> ((#[trigger] idents[j]) matches UsedIdent::SwcIdent(x)
            ==> m.dom().contains(sid) && m[sid].contains(x@))
}

/// Keys other than `ex` only grow from `m0` to `m1`.
pub open spec fn map_grows_except(
    m0: Map<int, Set<Seq<char>>>,
    m1: Map<int, Set<Seq<char>>>,
    ex: int,
) -> bool {
    forall|k: int|
        k != ex && #[trigger] m0.dom().contains(k) ==> m1.dom().contains(k) && m0[k].subset_of(
            m1[k],
        )
}

/// Growth of other keys keeps one pair's clauses.
proof fn lemma_pair_clauses_grow(
    m0: Map<int, Set<Seq<char>>>,
    m1: Map<int, Set<Seq<char>>>,
    ex: int,
    sid: int,
    idents: Seq<UsedIdent>,
)
    requires
        pair_marks_hold(m0, sid, idents),
        pair_seeds_hold(m0, sid, idents),
        map_grows_except(m0, m1, ex),
        sid != ex,
    ensures
        pair_marks_hold(m1, sid, idents),
        pair_seeds_hold(m1, sid, idents),
{
}

/// Whether an equal pair occurs in the list.
pub open spec fn pair_in(
    pairs: Seq<(StatementId, Vec<UsedIdent>)>,
    p: (StatementId, Vec<UsedIdent>),
) -> bool {
    exists|i: int| 0 <= i < pairs.len() && (#[trigger] pairs[i]) == p
}

/// Sorts the starting pairs by statement id ascending; ids are unique,
/// so the order is strict.
fn sort_pairs(v: Vec<(StatementId, Vec<UsedIdent>)>) -> (r: Vec<(StatementId, Vec<UsedIdent>)>)
    requires
        forall|i: int, j: int| 0 <= i < j < v@.len() ==> v@[i].0 != v@[j].0,
    ensures
        r@.len() == v@.len(),
        forall|p: int, q: int| 0 <= p < q < r@.len() ==> r@[p].0 < r@[q].0,
        forall|k: int| 0 <= k < r@.len() ==> pair_in(v@, #[trigger] r@[k]),
        forall|i: int| 0 <= i < v@.len() ==> pair_in(r@, #[trigger] v@[i]),
    {
        let ghost v0 = v@;
        let mut rest = v;
        let mut r: Vec<(StatementId, Vec<UsedIdent>)> = Vec::new();
        while rest.len() > 0
            invariant
                r@.len() + rest@.len() == v0.len(),
                forall|p: int, q: int| 0 <= p < q < rest@.len() ==> rest@[p].0 != rest@[q].0,
                forall|p: int, q: int| 0 <= p < q < r@.len() ==> r@[p].0 < r@[q].0,
                forall|k: int, i: int|
                    0 <= k < r@.len() && 0 <= i < rest@.len() ==> (#[trigger] r@[k]).0 < (
                    #[trigger] rest@[i]).0,
                forall|k: int| 0 <= k < r@.len() ==> pair_in(v0, #[trigger] r@[k]),
                forall|i: int| 0 <= i < rest@.len() ==> pair_in(v0, #[trigger] rest@[i]),
                forall|i: int|
                    0 <= i < v0.len() ==> pair_in(r@, #[trigger] v0[i]) || pair_in(rest@, v0[i]),
            decreases rest@.len(),
        {
            // find the minimum id among the rest
            let m = rest.len();
            let mut min_idx: usize = 0;
            let mut k: usize = 1;
            while k < m
                invariant
                    0 < m == rest@.len(),
                    0 <= min_idx < k <= m,
                    forall|p: int| 0 <= p < k ==> rest@[min_idx as int].0 <= (#[trigger] rest@[p]).0,
                decreases m - k,
            {
                if rest[k].0 < rest[min_idx].0 {
                    min_idx = k;
                }
                k = k + 1;
            }
            let ghost prevrest = rest@;
            let ghost prevr = r@;
            let chosen = rest.remove(min_idx);
            r.push(chosen);
            proof {
                assert(forall|k2: int| 0 <= k2 < prevr.len() ==> r@[k2] == prevr[k2]);
                assert(r@[prevr.len() as int] == prevrest[min_idx as int]);
                assert(forall|i2: int|
                    0 <= i2 < rest@.len() ==> rest@[i2] == (if i2 < min_idx {
                        prevrest[i2]
                    } else {
                        prevrest[i2 + 1]
                    }));
                assert(pair_in(v0, r@[prevr.len() as int]));
                // strict boundary: remaining ids are distinct from the chosen one
                assert forall|i2: int| 0 <= i2 < rest@.len() implies r@[prevr.len() as int].0 < (
                #[trigger] rest@[i2]).0 by {
                    if i2 < min_idx {
                        assert(rest@[i2] == prevrest[i2]);
                        assert(prevrest[i2].0 != prevrest[min_idx as int].0);
                        assert(prevrest[min_idx as int].0 <= prevrest[i2].0);
                    } else {
                        assert(rest@[i2] == prevrest[i2 + 1]);
                        assert(prevrest[i2 + 1].0 != prevrest[min_idx as int].0);
                        assert(prevrest[min_idx as int].0 <= prevrest[i2 + 1].0);
                    }
                };
                assert forall|i2: int|
                    0 <= i2 < v0.len() implies pair_in(r@, #[trigger] v0[i2]) || pair_in(
                    rest@,
                    v0[i2],
                ) by {
                    if pair_in(prevr, v0[i2]) {
                        let k2 = choose|k2: int|
                            0 <= k2 < prevr.len() && (#[trigger] prevr[k2]) == v0[i2];
                        assert(r@[k2] == v0[i2]);
                    } else if pair_in(prevrest, v0[i2]) {
                        let k2 = choose|k2: int|
                            0 <= k2 < prevrest.len() && (#[trigger] prevrest[k2]) == v0[i2];
                        if k2 == min_idx {
                            assert(r@[prevr.len() as int] == v0[i2]);
                        } else if k2 < min_idx {
                            assert(rest@[k2] == v0[i2]);
                        } else {
                            assert(rest@[k2 - 1] == v0[i2]);
                        }
                    }
                };
                assert forall|k2: int| 0 <= k2 < rest@.len() implies pair_in(
                    v0,
                    #[trigger] rest@[k2],
                ) by {
                    if k2 < min_idx {
                        assert(pair_in(v0, prevrest[k2]));
                    } else {
                        assert(pair_in(v0, prevrest[k2 + 1]));
                    }
                };
            }
        }
        r
    }

/// No `ExportAll` entry strictly between `j` and `hi`.
pub open spec fn no_export_all_between(idents: Seq<UsedIdent>, j: int, hi: int) -> bool {
    forall|k: int| j < k < hi ==> !((#[trigger] idents[k]) is ExportAll)
}

impl StatementGraph {
    /// Processes one starting pair of the live-slice query: records its
    /// whole-statement marks, or seeds the reachability sweep with its
    /// named idents and runs the sweep until a full pass adds nothing.
    #[verifier::rlimit(100)]
    fn process_pair(&self, r: &mut UsedStatementMap, sid: StatementId, idents: &Vec<UsedIdent>)
        requires
            self.wf(),
            old(r).wf(),
            sid < self.stmts@.len(),
            forall|k: int|
                #[trigger] old(r).spec_map().dom().contains(k) ==> 0 <= k < self.stmts@.len(),
        ensures
            final(r).wf(),
            forall|k: int|
                #[trigger] final(r).spec_map().dom().contains(k) ==> 0 <= k < self.stmts@.len(),
            map_grows_except(old(r).spec_map(), final(r).spec_map(), sid as int),
            pair_marks_hold(final(r).spec_map(), sid as int, idents@),
            pair_seeds_hold(final(r).spec_map(), sid as int, idents@),
    {
        let n = self.stmts.len();
        let ghost m_start = r.spec_map();
        let ghost idv = idents@;
        let mut used_dep_idents = IdentSet::new();
        let mut used_defined_idents = IdentSet::new();
        let mut skip = false;
        let m = idents.len();
        let mut j: usize = 0;
        while j < m
            invariant
                0 <= j <= m,
                m == idv.len(),
                idents@ == idv,
                self.wf(),
                sid < self.stmts@.len(),
                n == self.stmts@.len(),
                r.wf(),
                forall|k: int| #[trigger] r.spec_map().dom().contains(k) ==> 0 <= k < n,
                map_grows_except(m_start, r.spec_map(), sid as int),
                used_defined_idents.wf(),
                used_dep_idents.wf(),
                skip == has_mark(idv.subrange(0, j as int)),
                has_export_all(idv.subrange(0, j as int)) ==> r.spec_map().dom().contains(
                    sid as int,
                ) && r.spec_map()[sid as int].contains("*"@),
                forall|j2: int|
                    0 <= j2 < j ==> ((#[trigger] idv[j2]) matches UsedIdent::InExportAll(sp)
                        ==> (no_export_all_between(idv, j2, j as int)
                        ==> r.spec_map().dom().contains(sid as int)
                        && r.spec_map()[sid as int].contains(sp@))),
                forall|j2: int|
                    0 <= j2 < j ==> ((#[trigger] idv[j2]) matches UsedIdent::SwcIdent(x)
                        ==> used_defined_idents@.contains(x@)),
            decreases m - j,
        {
            let ghost sub0 = idv.subrange(0, j as int);
            let ghost sub1 = idv.subrange(0, j as int + 1);
            proof {
                assert(forall|k: int| 0 <= k < sub0.len() ==> sub1[k] == sub0[k]);
                assert(sub1[j as int] == idv[j as int]);
                assert(has_mark(sub1) ==> has_mark(sub0) || (idv[j as int] is ExportAll || idv[
                    j as int
                ] is InExportAll)) by {
                    if has_mark(sub1) {
                        let k = choose|k: int|
                            0 <= k < sub1.len() && ((#[trigger] sub1[k]) is ExportAll || sub1[k]
                                is InExportAll);
                        if k < sub0.len() {
                            assert(sub0[k] is ExportAll || sub0[k] is InExportAll);
                        }
                    }
                };
                if has_mark(sub0) {
                    let k = choose|k: int|
                        0 <= k < sub0.len() && ((#[trigger] sub0[k]) is ExportAll || sub0[k]
                            is InExportAll);
                    assert(sub1[k] is ExportAll || sub1[k] is InExportAll);
                }
                assert(has_export_all(sub1) ==> has_export_all(sub0) || idv[j as int]
                    is ExportAll) by {
                    if has_export_all(sub1) {
                        let k = choose|k: int|
                            0 <= k < sub1.len() && (#[trigger] sub1[k]) is ExportAll;
                        if k < sub0.len() {
                            assert(sub0[k] is ExportAll);
                        }
                    }
                };
                if has_export_all(sub0) {
                    let k = choose|k: int| 0 <= k < sub0.len() && (#[trigger] sub0[k]) is ExportAll;
                    assert(sub1[k] is ExportAll);
                }
                assert(self.stmts@[sid as int].wf());
            }
            let ghost m_before = r.spec_map();
            match &idents[j] {
                UsedIdent::SwcIdent(x) => {
                    used_defined_idents.insert(x.clone());
                    if let Some(dep_idents) = self.stmts[sid].defined_idents_map.get(x.as_str()) {
                        used_dep_idents.extend_from(dep_idents);
                    }
                    proof {
                        assert(!(idv[j as int] is ExportAll) && !(idv[j as int] is InExportAll));
                        assert(has_mark(sub1) == has_mark(sub0));
                        assert(has_export_all(sub1) == has_export_all(sub0));
                    }
                },
                UsedIdent::Default => {
                    used_dep_idents.extend_from(&self.stmts[sid].used_idents);
                    proof {
                        assert(has_mark(sub1) == has_mark(sub0));
                        assert(has_export_all(sub1) == has_export_all(sub0));
                    }
                },
                UsedIdent::InExportAll(specifier) => {
                    r.insert_one(sid, specifier.clone());
                    skip = true;
                    proof {
                        assert(has_mark(sub1));
                        assert(has_export_all(sub1) == has_export_all(sub0));
                        assert(r.spec_map().dom().contains(sid as int));
                        assert(r.spec_map()[sid as int].contains(specifier@));
                        assert(forall|k: int|
                            k != sid as int && #[trigger] m_before.dom().contains(k)
                                ==> r.spec_map().dom().contains(k) && m_before[k] == r.spec_map()[k]);
                        assert(m_before.dom().contains(sid as int)
                            ==> m_before[sid as int].subset_of(r.spec_map()[sid as int]));
                    }
                },
                UsedIdent::ExportAll => {
                    let mut star = IdentSet::new();
                    star.insert("*".to_owned());
                    r.set(sid, star);
                    skip = true;
                    proof {
                        assert(has_mark(sub1));
                        assert(has_export_all(sub1));
                        assert(r.spec_map().dom().contains(sid as int));
                        assert(r.spec_map()[sid as int].contains("*"@));
                        assert(forall|k: int|
                            k != sid as int && #[trigger] m_before.dom().contains(k)
                                ==> r.spec_map().dom().contains(k) && m_before[k] == r.spec_map()[k]);
                    }
                },
            }
            proof {
                assert forall|j2: int|
                    0 <= j2 < j + 1 implies ((#[trigger] idv[j2]) matches UsedIdent::InExportAll(sp)
                    ==> (no_export_all_between(idv, j2, j as int + 1)
                    ==> r.spec_map().dom().contains(sid as int)
                    && r.spec_map()[sid as int].contains(sp@))) by {
                    if idv[j2] is InExportAll {
                        if no_export_all_between(idv, j2, j as int + 1) {
                            if j2 < j {
                                assert(no_export_all_between(idv, j2, j as int));
                                assert(!(idv[j as int] is ExportAll));
                            }
                        }
                    }
                };
            }
            j = j + 1;
        }
        proof {
            assert(idv.subrange(0, m as int) =~= idv);
        }
        if skip {
            proof {
                assert forall|j2: int|
                    0 <= j2 < idv.len() implies ((#[trigger] idv[j2]) matches
                    UsedIdent::InExportAll(sp) ==> (no_export_all_after(idv, j2)
                    ==> r.spec_map().dom().contains(sid as int)
                    && r.spec_map()[sid as int].contains(sp@))) by {
                    if idv[j2] is InExportAll && no_export_all_after(idv, j2) {
                        assert(no_export_all_between(idv, j2, idv.len() as int));
                    }
                };
            }
            return;
        }
        proof {
            assert(!has_mark(idv));
            assert(!has_export_all(idv)) by {
                if has_export_all(idv) {
                    let k = choose|k: int| 0 <= k < idv.len() && (#[trigger] idv[k]) is ExportAll;
                }
            };
        }

        // The reachability sweep: from the seeded statement, walk edges
        // whose labels intersect the accumulated dependency idents,
        // accumulating per-statement defined and dependency idents, until
        // a full pass adds nothing.
        let mut def_accs: Vec<IdentSet> = Vec::new();
        let mut dep_accs: Vec<IdentSet> = Vec::new();
        let mut active: Vec<bool> = Vec::new();
        let mut visited: Vec<bool> = Vec::new();
        let mut b: usize = 0;
        while b < n
            invariant
                0 <= b <= n,
                n == self.stmts@.len(),
                sid < n,
                def_accs@.len() == b,
                dep_accs@.len() == b,
                active@.len() == b,
                visited@.len() == b,
                used_defined_idents.wf(),
                used_dep_idents.wf(),
                forall|k: int| 0 <= k < b ==> (#[trigger] def_accs@[k]).wf(),
                forall|k: int| 0 <= k < b ==> (#[trigger] dep_accs@[k]).wf(),
                forall|k: int| 0 <= k < b ==> (#[trigger] visited@[k]) == false,
                forall|k: int| 0 <= k < b ==> (#[trigger] active@[k]) == (k == sid),
                b > sid ==> used_defined_idents@.subset_of(def_accs@[sid as int]@),
            decreases n - b,
        {
            if b == sid {
                def_accs.push(used_defined_idents.duplicate());
                dep_accs.push(used_dep_idents.duplicate());
                active.push(true);
            } else {
                def_accs.push(IdentSet::new());
                dep_accs.push(IdentSet::new());
                active.push(false);
            }
            visited.push(false);
            b = b + 1;
        }

        let mut fuel: usize = usize::MAX;
        let mut any_active = true;
        while any_active && fuel > 0
            invariant
                n == self.stmts@.len(),
                sid < n,
                self.wf(),
                def_accs@.len() == n,
                dep_accs@.len() == n,
                active@.len() == n,
                visited@.len() == n,
                r.wf(),
                forall|k: int| #[trigger] r.spec_map().dom().contains(k) ==> 0 <= k < n,
                map_grows_except(m_start, r.spec_map(), sid as int),
                pair_marks_hold(r.spec_map(), sid as int, idv),
                used_defined_idents.wf(),
                forall|k: int| 0 <= k < n ==> (#[trigger] def_accs@[k]).wf(),
                forall|k: int| 0 <= k < n ==> (#[trigger] dep_accs@[k]).wf(),
                used_defined_idents@.subset_of(def_accs@[sid as int]@),
                visited@[sid as int] ==> r.spec_map().dom().contains(sid as int)
                    && used_defined_idents@.subset_of(r.spec_map()[sid as int]),
                fuel < usize::MAX ==> visited@[sid as int],
                active@[sid as int] || visited@[sid as int],
                any_active || visited@[sid as int],
            decreases fuel,
        {
            fuel = fuel - 1;
            any_active = false;
            let mut next_active: Vec<bool> = Vec::new();
            let mut b2: usize = 0;
            while b2 < n
                invariant
                    0 <= b2 <= n,
                    next_active@.len() == b2,
                decreases n - b2,
            {
                next_active.push(false);
                b2 = b2 + 1;
            }
            let ghost vstart = visited@;
            let mut k: usize = 0;
            while k < n
                invariant
                    0 <= k <= n,
                    n == self.stmts@.len(),
                    sid < n,
                    self.wf(),
                    vstart.len() == n,
                    forall|k2: int| 0 <= k2 < n && vstart[k2] ==> visited@[k2],
                    def_accs@.len() == n,
                    dep_accs@.len() == n,
                    active@.len() == n,
                    visited@.len() == n,
                    next_active@.len() == n,
                    r.wf(),
                    forall|k2: int| #[trigger] r.spec_map().dom().contains(k2) ==> 0 <= k2 < n,
                    map_grows_except(m_start, r.spec_map(), sid as int),
                    pair_marks_hold(r.spec_map(), sid as int, idv),
                    used_defined_idents.wf(),
                    forall|k2: int| 0 <= k2 < n ==> (#[trigger] def_accs@[k2]).wf(),
                    forall|k2: int| 0 <= k2 < n ==> (#[trigger] dep_accs@[k2]).wf(),
                    used_defined_idents@.subset_of(def_accs@[sid as int]@),
                    visited@[sid as int] ==> r.spec_map().dom().contains(sid as int)
                        && used_defined_idents@.subset_of(r.spec_map()[sid as int]),
                    k as int > sid as int && active@[sid as int] ==> visited@[sid as int],
                decreases n - k,
            {
                if active[k] {
                    visited.set(k, true);
                    let ghost m_b = r.spec_map();
                    r.extend(k, &def_accs[k]);
                    proof {
                        assert(forall|k2: int|
                            k2 != k as int && #[trigger] m_b.dom().contains(k2)
                                ==> r.spec_map().dom().contains(k2) && m_b[k2]
                                == r.spec_map()[k2]);
                        assert(m_b.dom().contains(k as int) ==> m_b[k as int].subset_of(
                            r.spec_map()[k as int],
                        ));
                        if k == sid {
                            assert(r.spec_map().dom().contains(sid as int));
                            assert(used_defined_idents@.subset_of(r.spec_map()[sid as int]));
                        }
                    }
                    let deps = self.dependencies(k);
                    let dn = deps.len();
                    let mut di: usize = 0;
                    while di < dn
                        invariant
                            0 <= di <= dn,
                            dn == deps@.len(),
                            n == self.stmts@.len(),
                            sid < n,
                            0 <= k < n,
                            self.wf(),
                            def_accs@.len() == n,
                            dep_accs@.len() == n,
                            active@.len() == n,
                            visited@.len() == n,
                            next_active@.len() == n,
                            r.wf(),
                            forall|k2: int|
                                #[trigger] r.spec_map().dom().contains(k2) ==> 0 <= k2 < n,
                            map_grows_except(m_start, r.spec_map(), sid as int),
                            pair_marks_hold(r.spec_map(), sid as int, idv),
                            used_defined_idents.wf(),
                            forall|k2: int| 0 <= k2 < n ==> (#[trigger] def_accs@[k2]).wf(),
                            forall|k2: int| 0 <= k2 < n ==> (#[trigger] dep_accs@[k2]).wf(),
                            used_defined_idents@.subset_of(def_accs@[sid as int]@),
                            visited@[sid as int] ==> r.spec_map().dom().contains(sid as int)
                                && used_defined_idents@.subset_of(r.spec_map()[sid as int]),
                            forall|k2: int|
                                0 <= k2 < deps@.len() ==> (#[trigger] deps@[k2]).0 < n
                                    && deps@[k2].1.wf(),
                        decreases dn - di,
                    {
                        let gate = deps[di].1.intersects(&dep_accs[k]);
                        if gate {
                            let ds = deps[di].0;
                            let dep_snapshot = dep_accs[k].duplicate();
                            let mut dep_used_defined = IdentSet::new();
                            let mut dep_new_deps = IdentSet::new();
                            let sn = dep_snapshot.len();
                            let mut t: usize = 0;
                            while t < sn
                                invariant
                                    0 <= t <= sn,
                                    sn == dep_snapshot.items@.len(),
                                    n == self.stmts@.len(),
                                    0 <= ds < n,
                                    self.wf(),
                                    dep_used_defined.wf(),
                                    dep_new_deps.wf(),
                                decreases sn - t,
                            {
                                let ident = &dep_snapshot.items[t];
                                proof {
                                    assert(self.stmts@[ds as int].wf());
                                }
                                let in_map = self.stmts[ds].defined_idents_map.get(
                                    ident.as_str(),
                                );
                                match in_map {
                                    Some(vals) => {
                                        dep_used_defined.insert(ident.clone());
                                        dep_new_deps.extend_from(vals);
                                    },
                                    None => {
                                        if self.stmts[ds].defined_idents.contains(
                                            ident.as_str(),
                                        ) {
                                            dep_used_defined.insert(ident.clone());
                                        }
                                    },
                                }
                                t = t + 1;
                            }

                            // merge into the target's accumulators
                            let ghost prevd = def_accs@;
                            let mut dacc = def_accs.remove(ds);
                            let before_def = dacc.len();
                            dacc.extend_from(&dep_used_defined);
                            let after_def = dacc.len();
                            def_accs.insert(ds, dacc);
                            proof {
                                assert(def_accs@.len() == prevd.len());
                                assert(forall|k2: int|
                                    0 <= k2 < prevd.len() && k2 != ds ==> def_accs@[k2]
                                        == prevd[k2]);
                                assert(def_accs@[ds as int].wf());
                                assert(prevd[ds as int]@.subset_of(def_accs@[ds as int]@));
                                if ds == sid {
                                    assert(used_defined_idents@.subset_of(
                                        def_accs@[sid as int]@,
                                    ));
                                }
                            }
                            let ghost prevp = dep_accs@;
                            let mut pacc = dep_accs.remove(ds);
                            let before_dep = pacc.len();
                            pacc.extend_from(&dep_new_deps);
                            let after_dep = pacc.len();
                            dep_accs.insert(ds, pacc);
                            proof {
                                assert(dep_accs@.len() == prevp.len());
                                assert(forall|k2: int|
                                    0 <= k2 < prevp.len() && k2 != ds ==> dep_accs@[k2]
                                        == prevp[k2]);
                                assert(dep_accs@[ds as int].wf());
                            }
                            let grew = after_def > before_def || after_dep > before_dep;
                            if grew || !visited[ds] {
                                next_active.set(ds, true);
                                any_active = true;
                            }
                        }
                        di = di + 1;
                    }
                }
                k = k + 1;
            }
            active = next_active;
        }
        proof {
            assert(visited@[sid as int]);
            assert forall|j2: int|
                0 <= j2 < idv.len() implies ((#[trigger] idv[j2]) matches UsedIdent::SwcIdent(x)
                ==> r.spec_map().dom().contains(sid as int) && r.spec_map()[sid as int].contains(
                x@,
            )) by {
                if idv[j2] is SwcIdent {
                    assert(used_defined_idents@.subset_of(r.spec_map()[sid as int]));
                }
            };
            assert forall|j2: int|
                0 <= j2 < idv.len() implies ((#[trigger] idv[j2]) matches UsedIdent::InExportAll(
                sp,
            ) ==> (no_export_all_after(idv, j2) ==> r.spec_map().dom().contains(sid as int)
                && r.spec_map()[sid as int].contains(sp@))) by {
                if idv[j2] is InExportAll {
                    assert(has_mark(idv));
                }
            };
        }
    }

    /// The live-slice query: from the used exports of this module,
    /// which statements stay, and which of their defined idents (or
    /// whole-statement marks) keep them.
    pub fn analyze_used_statements_and_idents(
        &self,
        used_exports: Vec<(StatementId, Vec<UsedIdent>)>,
    ) -> (r: UsedStatementMap)
        requires
            self.wf(),
            forall|i: int|
                0 <= i < used_exports@.len() ==> (#[trigger] used_exports@[i]).0
                    < self.stmts@.len(),
            forall|i: int, j: int|
                0 <= i < j < used_exports@.len() ==> used_exports@[i].0 != used_exports@[j].0,
        ensures
            r.wf(),
            forall|k: int|
                #[trigger] r.spec_map().dom().contains(k) ==> 0 <= k < self.stmts@.len(),
            forall|i: int|
                0 <= i < used_exports@.len() ==> pair_marks_hold(
                    r.spec_map(),
                    (#[trigger] used_exports@[i]).0 as int,
                    used_exports@[i].1@,
                ) && pair_seeds_hold(
                    r.spec_map(),
                    used_exports@[i].0 as int,
                    used_exports@[i].1@,
                ),
    {
        let ghost v0 = used_exports@;
        let sorted = sort_pairs(used_exports);
        let mut r = UsedStatementMap::new();
        let n = sorted.len();
        let mut i: usize = 0;
        while i < n
            invariant
                0 <= i <= n,
                n == sorted@.len(),
                self.wf(),
                r.wf(),
                forall|k: int|
                    #[trigger] r.spec_map().dom().contains(k) ==> 0 <= k < self.stmts@.len(),
                forall|k: int| 0 <= k < sorted@.len() ==> pair_in(v0, #[trigger] sorted@[k]),
                forall|i2: int| 0 <= i2 < v0.len() ==> pair_in(sorted@, #[trigger] v0[i2]),
                forall|p: int, q: int| 0 <= p < q < sorted@.len() ==> sorted@[p].0 < sorted@[q].0,
                forall|i2: int|
                    0 <= i2 < v0.len() ==> (#[trigger] v0[i2]).0 < self.stmts@.len(),
                forall|k: int|
                    0 <= k < i ==> pair_marks_hold(
                        r.spec_map(),
                        (#[trigger] sorted@[k]).0 as int,
                        sorted@[k].1@,
                    ) && pair_seeds_hold(r.spec_map(), sorted@[k].0 as int, sorted@[k].1@),
            decreases n - i,
        {
            let sid = sorted[i].0;
            proof {
                assert(pair_in(v0, sorted@[i as int]));
                let w = choose|w: int| 0 <= w < v0.len() && (#[trigger] v0[w]) == sorted@[i as int];
                assert(v0[w].0 < self.stmts@.len());
            }
            let ghost m_before = r.spec_map();
            self.process_pair(&mut r, sid, &sorted[i].1);
            proof {
                assert forall|k: int|
                    0 <= k < i + 1 implies pair_marks_hold(
                    r.spec_map(),
                    (#[trigger] sorted@[k]).0 as int,
                    sorted@[k].1@,
                ) && pair_seeds_hold(r.spec_map(), sorted@[k].0 as int, sorted@[k].1@) by {
                    if k < i {
                        assert(sorted@[k].0 < sorted@[i as int].0);
                        lemma_pair_clauses_grow(
                            m_before,
                            r.spec_map(),
                            sid as int,
                            sorted@[k].0 as int,
                            sorted@[k].1@,
                        );
                    }
                };
            }
            i = i + 1;
        }
        proof {
            assert forall|i2: int|
                0 <= i2 < v0.len() implies pair_marks_hold(
                r.spec_map(),
                (#[trigger] v0[i2]).0 as int,
                v0[i2].1@,
            ) && pair_seeds_hold(r.spec_map(), v0[i2].0 as int, v0[i2].1@) by {
                assert(pair_in(sorted@, v0[i2]));
                let w = choose|w: int|
                    0 <= w < sorted@.len() && (#[trigger] sorted@[w]) == v0[i2];
            };
        }
        r
    }
}

} // verus!
