//! The module graph: modules keyed by id, with labeled dependency edges.
//! Every mutation keeps the graph closed: each edge's endpoints exist as
//! nodes.

use vstd::prelude::*;

verus! {

/// Opaque string identity of a module, typically a canonical filesystem
/// path with an optional query suffix.
#[derive(Debug, Eq)]
pub struct ModuleId {
    pub id: String,
}

impl ModuleId {
    pub fn new(id: String) -> (r: ModuleId)
        ensures
            r.id@ == id@,
    {
        ModuleId { id }
    }

    /// An equal id with freshly owned storage.
    pub fn duplicate(&self) -> (r: ModuleId)
        ensures
            r == *self,
    {
        ModuleId { id: self.id.clone() }
    }
}

impl PartialEq for ModuleId {
    fn eq(&self, other: &ModuleId) -> (r: bool) {
        self.id == other.id
    }
}

impl vstd::std_specs::cmp::PartialEqSpecImpl for ModuleId {
    open spec fn obeys_eq_spec() -> bool {
        true
    }

    open spec fn eq_spec(&self, other: &ModuleId) -> bool {
        self.id@ == other.id@
    }
}

/// The kind of import a dependency edge records.
#[derive(Debug, Clone, Copy, PartialEq, Eq, Structural)]
pub enum ResolveKind {
    Static,
    Dynamic,
    Require,
    CssImport,
    Url,
}

/// An edge label: the source specifier as written, the import kind, and
/// the ordering index among the importing module's dependencies. Two
/// distinct imports of one target carry different ordering indices.
#[derive(Debug, Eq)]
pub struct Dependency {
    pub source: String,
    pub resolve_type: ResolveKind,
    pub order: usize,
}

impl Dependency {
    pub fn duplicate(&self) -> (r: Dependency)
        ensures
            r == *self,
    {
        Dependency { source: self.source.clone(), resolve_type: self.resolve_type, order: self.order }
    }
}

impl PartialEq for Dependency {
    fn eq(&self, other: &Dependency) -> (r: bool) {
        self.source == other.source && self.resolve_type == other.resolve_type && self.order
            == other.order
    }
}

impl vstd::std_specs::cmp::PartialEqSpecImpl for Dependency {
    open spec fn obeys_eq_spec() -> bool {
        true
    }

    open spec fn eq_spec(&self, other: &Dependency) -> bool {
        self.source@ == other.source@ && self.resolve_type == other.resolve_type && self.order
            == other.order
    }
}

/// Value equality of dependencies, at the spec level.
pub open spec fn dep_eq(a: Dependency, b: Dependency) -> bool {
    a.source@ == b.source@ && a.resolve_type == b.resolve_type && a.order == b.order
}

/// Whether some edge among the first `bound` records runs from `x` to
/// `id`.
pub open spec fn is_dependant_upto(
    edges: Seq<ModuleGraphEdge>,
    id: Seq<char>,
    x: Seq<char>,
    bound: int,
) -> bool {
    exists|e: int|
        0 <= e < bound && e < edges.len() && (#[trigger] edges[e]).to.id@ == id && edges[e].from.id@
            == x
}

/// A larger bound keeps every dependant.
pub proof fn lemma_dependant_widen(edges: Seq<ModuleGraphEdge>, id: Seq<char>, x: Seq<char>, bound: int)
    requires
        is_dependant_upto(edges, id, x, bound),
    ensures
        is_dependant_upto(edges, id, x, bound + 1),
{
    let e = choose|e: int|
        0 <= e < bound && e < edges.len() && (#[trigger] edges[e]).to.id@ == id
            && edges[e].from.id@ == x;
    assert(0 <= e < bound + 1 && e < edges.len() && edges[e].to.id@ == id && edges[e].from.id@
        == x);
}

/// Whether `x` occurs among the ids.
pub open spec fn recorded(ids: Seq<ModuleId>, x: Seq<char>) -> bool {
    exists|i: int| 0 <= i < ids.len() && (#[trigger] ids[i]).id@ == x
}

/// Whether `edge` occurs among the records.
pub open spec fn edge_present(edges: Seq<ModuleGraphEdge>, edge: ModuleGraphEdge) -> bool {
    exists|w: int| 0 <= w < edges.len() && (#[trigger] edges[w]) == edge
}

/// The tagged parse result of a module.
#[derive(Debug, Clone, Copy, PartialEq, Eq, Structural)]
pub enum ModuleAst {
    Script,
    Css,
    Raw,
}

/// Parsed state of a module.
#[derive(Debug)]
pub struct ModuleInfo {
    pub ast: ModuleAst,
    /// Canonical path.
    pub path: String,
    /// Hash of the transformed source.
    pub raw_hash: u64,
    /// Unresolved imports found during the last build: source specifier
    /// to dependency.
    pub missing_deps: Vec<(String, Dependency)>,
    pub ignored_deps: Vec<String>,
    pub top_level_await: bool,
    pub is_async: bool,
}

impl ModuleInfo {
    /// Missing-dep specifiers are duplicate-free.
    pub open spec fn wf(&self) -> bool {
        forall|i: int, j: int|
            0 <= i < j < self.missing_deps@.len() ==> self.missing_deps@[i].0@
                != self.missing_deps@[j].0@
    }
}

/// One file participating in the bundle. `info` is absent for external,
/// non-resolved modules.
#[derive(Debug)]
pub struct Module {
    pub id: ModuleId,
    pub is_entry: bool,
    pub info: Option<ModuleInfo>,
    pub side_effects: bool,
}

impl Module {
    pub open spec fn wf(&self) -> bool {
        match self.info {
            Some(info) => info.wf(),
            None => true,
        }
    }

    /// Whether the module still has unresolved dependencies.
    pub open spec fn spec_has_missing_deps(&self) -> bool {
        match self.info {
            Some(info) => info.missing_deps@.len() > 0,
            None => false,
        }
    }

    pub fn has_missing_deps(&self) -> (r: bool)
        ensures
            r == self.spec_has_missing_deps(),
    {
        match &self.info {
            Some(info) => info.missing_deps.len() > 0,
            None => false,
        }
    }
}

/// A labeled edge of the module graph.
#[derive(Debug)]
pub struct ModuleGraphEdge {
    pub from: ModuleId,
    pub to: ModuleId,
    pub dep: Dependency,
}

/// Directed graph of modules with labeled edges, in insertion order.
#[derive(Debug)]
pub struct ModuleGraph {
    pub modules: Vec<Module>,
    pub edges: Vec<ModuleGraphEdge>,
}

impl ModuleGraph {
    /// Whether a module with id view `id` is a node.
    pub open spec fn spec_has_module(&self, id: Seq<char>) -> bool {
        exists|i: int|
            0 <= i < self.modules@.len() && (#[trigger] self.modules@[i]).id.id@ == id
    }

    /// The module with id view `id` (meaningful when present).
    pub open spec fn spec_get_module(&self, id: Seq<char>) -> Module {
        let i = choose|i: int|
            0 <= i < self.modules@.len() && (#[trigger] self.modules@[i]).id.id@ == id;
        self.modules@[i]
    }

    /// Well-formedness: module ids are unique, every module is
    /// well-formed, and every edge's endpoints are present as nodes.
    pub open spec fn wf(&self) -> bool {
        &&& forall|i: int, j: int|
            0 <= i < j < self.modules@.len() ==> self.modules@[i].id.id@ != self.modules@[j].id.id@
        &&& forall|i: int| 0 <= i < self.modules@.len() ==> (#[trigger] self.modules@[i]).wf()
        &&& forall|e: int|
            0 <= e < self.edges@.len() ==> self.spec_has_module(
                (#[trigger] self.edges@[e]).from.id@,
            ) && self.spec_has_module(self.edges@[e].to.id@)
    }

    /// Both endpoints of every edge exist as nodes.
    pub proof fn lemma_edges_closed(&self, e: int)
        requires
            self.wf(),
            0 <= e < self.edges@.len(),
        ensures
            self.spec_has_module(self.edges@[e].from.id@),
            self.spec_has_module(self.edges@[e].to.id@),
    {
    }

    /// With unique ids, index `i` holds the module `spec_get_module`
    /// returns for its id.
    pub proof fn lemma_module_unique(&self, i: int)
        requires
            self.wf(),
            0 <= i < self.modules@.len(),
        ensures
            self.spec_has_module(self.modules@[i].id.id@),
            self.spec_get_module(self.modules@[i].id.id@) == self.modules@[i],
    {
        let id = self.modules@[i].id.id@;
        assert(self.spec_has_module(id));
        let w = choose|w: int|
            0 <= w < self.modules@.len() && (#[trigger] self.modules@[w]).id.id@ == id;
        if w != i {
            if w < i {
                assert(self.modules@[w].id.id@ != self.modules@[i].id.id@);
            } else {
                assert(self.modules@[i].id.id@ != self.modules@[w].id.id@);
            }
        }
    }

    pub fn new() -> (r: ModuleGraph)
        ensures
            r.wf(),
            r.modules@.len() == 0,
            r.edges@.len() == 0,
    {
        ModuleGraph { modules: Vec::new(), edges: Vec::new() }
    }

    /// The index of the module with the given id, if present.
    fn find_module(&self, id: &ModuleId) -> (r: Option<usize>)
        ensures
            match r {
                Some(i) => i < self.modules@.len() && self.modules@[i as int].id.id@ == id.id@
                    && self.spec_has_module(id.id@),
                None => !self.spec_has_module(id.id@),
            },
    {
        let n = self.modules.len();
        let mut i: usize = 0;
        while i < n
            invariant
                0 <= i <= n,
                n == self.modules@.len(),
                forall|k: int| 0 <= k < i ==> (#[trigger] self.modules@[k]).id.id@ != id.id@,
            decreases n - i,
        {
            if self.modules[i].id == *id {
                return Some(i);
            }
            i = i + 1;
        }
        None
    }

    pub fn has_module(&self, id: &ModuleId) -> (r: bool)
        ensures
            r == self.spec_has_module(id.id@),
    {
        self.find_module(id).is_some()
    }

    /// The module with the given id; the caller has already checked that
    /// it is present.
    pub fn get_module(&self, id: &ModuleId) -> (r: &Module)
        requires
            self.wf(),
            self.spec_has_module(id.id@),
        ensures
            *r == self.spec_get_module(id.id@),
            r.id.id@ == id.id@,
    {
        let i = self.find_module(id).unwrap();
        proof {
            self.lemma_module_unique(i as int);
        }
        &self.modules[i]
    }

    /// Inserts a module; a module with the same id is replaced, keeping
    /// its incident edges.
    pub fn add_module(&mut self, m: Module)
        requires
            old(self).wf(),
            m.wf(),
        ensures
            final(self).wf(),
            final(self).edges@ == old(self).edges@,
            final(self).spec_has_module(m.id.id@),
            final(self).spec_get_module(m.id.id@) == m,
            forall|id: Seq<char>|
                final(self).spec_has_module(id) == (old(self).spec_has_module(id) || id
                    == m.id.id@),
            forall|id: Seq<char>|
                old(self).spec_has_module(id) && id != m.id.id@ ==> final(self).spec_get_module(id)
                    == old(self).spec_get_module(id),
    {
        let found = self.find_module(&m.id);
        let ghost prev = self.modules@;
        let ghost mid = m.id.id@;
        match found {
            Some(i) => {
                self.modules.set(i, m);
                proof {
                    assert(forall|k: int|
                        0 <= k < prev.len() && k != i ==> self.modules@[k] == prev[k]);
                    lemma_modules_updated(prev, self.modules@, i as int, *old(self), *self);
                }
            },
            None => {
                self.modules.push(m);
                proof {
                    assert(forall|k: int| 0 <= k < prev.len() ==> self.modules@[k] == prev[k]);
                    lemma_modules_updated(prev, self.modules@, prev.len() as int, *old(self), *self);
                }
            },
        }
    }

    /// Replaces the contents of an existing module, preserving all its
    /// incident edges.
    pub fn replace_module(&mut self, m: Module)
        requires
            old(self).wf(),
            m.wf(),
            old(self).spec_has_module(m.id.id@),
        ensures
            final(self).wf(),
            final(self).edges@ == old(self).edges@,
            final(self).spec_has_module(m.id.id@),
            final(self).spec_get_module(m.id.id@) == m,
            forall|id: Seq<char>|
                final(self).spec_has_module(id) == old(self).spec_has_module(id),
            forall|id: Seq<char>|
                old(self).spec_has_module(id) && id != m.id.id@ ==> final(self).spec_get_module(id)
                    == old(self).spec_get_module(id),
    {
        self.add_module(m);
    }

    /// Appends a dependency edge; multiple distinct dependencies between
    /// one pair of modules may coexist.
    pub fn add_dependency(&mut self, from: &ModuleId, to: &ModuleId, dep: Dependency)
        requires
            old(self).wf(),
            old(self).spec_has_module(from.id@),
            old(self).spec_has_module(to.id@),
        ensures
            final(self).wf(),
            final(self).modules@ == old(self).modules@,
            final(self).edges@.len() == old(self).edges@.len() + 1,
            forall|e: int|
                0 <= e < old(self).edges@.len() ==> final(self).edges@[e] == old(self).edges@[e],
            final(self).edges@.last().from.id@ == from.id@,
            final(self).edges@.last().to.id@ == to.id@,
            final(self).edges@.last().dep == dep,
    {
        let edge = ModuleGraphEdge { from: from.duplicate(), to: to.duplicate(), dep };
        self.edges.push(edge);
    }

    /// Removes the first edge from `from` to `to` whose label equals
    /// `dep`; without a match the graph is unchanged.
    pub fn remove_dependency(&mut self, from: &ModuleId, to: &ModuleId, dep: &Dependency)
        requires
            old(self).wf(),
        ensures
            final(self).wf(),
            final(self).modules@ == old(self).modules@,
            match first_edge_match(old(self).edges@, from.id@, to.id@, *dep) {
                Some(e) => final(self).edges@ == old(self).edges@.remove(e),
                None => final(self).edges@ == old(self).edges@,
            },
    {
        let n = self.edges.len();
        let mut e: usize = 0;
        while e < n
            invariant
                0 <= e <= n,
                n == self.edges@.len(),
                self.wf(),
                *self == *old(self),
                first_edge_match(old(self).edges@, from.id@, to.id@, *dep) == first_edge_match_from(
                    old(self).edges@,
                    from.id@,
                    to.id@,
                    *dep,
                    e as int,
                ),
            decreases n - e,
        {
            let hit = self.edges[e].from == *from && self.edges[e].to == *to && self.edges[e].dep
                == *dep;
            if hit {
                self.edges.remove(e);
                proof {
                    assert(forall|k: int|
                        0 <= k < self.edges@.len() ==> self.edges@[k] == (if k < e {
                            old(self).edges@[k]
                        } else {
                            old(self).edges@[k + 1]
                        }));
                    assert(self.edges@ =~= old(self).edges@.remove(e as int));
                }
                return;
            }
            e = e + 1;
        }
    }    /// The ids of the modules with an edge to `id`, duplicate-free.
    #[verifier::rlimit(80)]
    pub fn dependant_module_ids(&self, id: &ModuleId) -> (r: Vec<ModuleId>)
        ensures
            forall|i: int, j: int| 0 <= i < j < r@.len() ==> r@[i].id@ != r@[j].id@,
            forall|i: int|
                0 <= i < r@.len() ==> is_dependant_upto(
                    self.edges@,
                    id.id@,
                    (#[trigger] r@[i]).id@,
                    self.edges@.len() as int,
                ),
            forall|w: int|
                0 <= w < self.edges@.len() && (#[trigger] self.edges@[w]).to.id@ == id.id@
                    ==> recorded(r@, self.edges@[w].from.id@),
    {
        let n = self.edges.len();
        let mut r: Vec<ModuleId> = Vec::new();
        let mut e: usize = 0;
        while e < n
            invariant
                0 <= e <= n,
                n == self.edges@.len(),
                forall|i: int, j: int| 0 <= i < j < r@.len() ==> r@[i].id@ != r@[j].id@,
                forall|i: int|
                    0 <= i < r@.len() ==> is_dependant_upto(
                        self.edges@,
                        id.id@,
                        (#[trigger] r@[i]).id@,
                        e as int,
                    ),
                forall|w: int|
                    0 <= w < e && (#[trigger] self.edges@[w]).to.id@ == id.id@ ==> recorded(
                        r@,
                        self.edges@[w].from.id@,
                    ),
            decreases n - e,
        {
            let ghost prevr = r@;
            let tohit = self.edges[e].to == *id;
            if tohit {
                let mut seen = false;
                let m = r.len();
                let mut i: usize = 0;
                while i < m
                    invariant
                        0 <= i <= m,
                        m == r@.len(),
                        r@ == prevr,
                        0 <= e < n,
                        n == self.edges@.len(),
                        seen == exists|k: int|
                            0 <= k < i && (#[trigger] r@[k]).id@ == self.edges@[e as int].from.id@,
                    decreases m - i,
                {
                    if r[i] == self.edges[e].from {
                        seen = true;
                    }
                    i = i + 1;
                }
                if !seen {
                    r.push(self.edges[e].from.duplicate());
                    proof {
                        assert(forall|k: int| 0 <= k < prevr.len() ==> r@[k] == prevr[k]);
                        assert(r@[prevr.len() as int].id@ == self.edges@[e as int].from.id@);
                        assert(forall|k: int|
                            0 <= k < prevr.len() ==> prevr[k].id@
                                != self.edges@[e as int].from.id@);
                    }
                }
                proof {
                    if seen {
                        let k = choose|k: int|
                            0 <= k < prevr.len() && (#[trigger] prevr[k]).id@
                                == self.edges@[e as int].from.id@;
                        assert(r@[k].id@ == self.edges@[e as int].from.id@);
                    } else {
                        assert(r@[prevr.len() as int].id@ == self.edges@[e as int].from.id@);
                    }
                    assert(recorded(r@, self.edges@[e as int].from.id@));
                }
            }
            proof {
                assert forall|i2: int| 0 <= i2 < r@.len() implies is_dependant_upto(
                    self.edges@,
                    id.id@,
                    (#[trigger] r@[i2]).id@,
                    e as int + 1,
                ) by {
                    if i2 < prevr.len() {
                        assert(r@[i2] == prevr[i2]);
                        assert(is_dependant_upto(self.edges@, id.id@, prevr[i2].id@, e as int));
                        lemma_dependant_widen(self.edges@, id.id@, prevr[i2].id@, e as int);
                    } else {
                        assert(tohit);
                        assert(self.edges@[e as int].to.id@ == id.id@);
                        assert(r@[i2].id@ == self.edges@[e as int].from.id@);
                        assert(is_dependant_upto(
                            self.edges@,
                            id.id@,
                            r@[i2].id@,
                            e as int + 1,
                        ));
                    }
                };
                assert forall|w: int|
                    0 <= w < e + 1 && (#[trigger] self.edges@[w]).to.id@ == id.id@ implies recorded(
                    r@,
                    self.edges@[w].from.id@,
                ) by {
                    if w < e {
                        assert(recorded(prevr, self.edges@[w].from.id@));
                        let k = choose|k: int|
                            0 <= k < prevr.len() && (#[trigger] prevr[k]).id@
                                == self.edges@[w].from.id@;
                        assert(r@[k].id@ == self.edges@[w].from.id@);
                        assert(recorded(r@, self.edges@[w].from.id@));
                    } else {
                        assert(tohit);
                    }
                };
            }
            e = e + 1;
        }
        r
    }

    /// Atomically removes the module and every incident edge; returns
    /// the set of its former dependants.
    #[verifier::rlimit(100)]
    pub fn remove_module_and_deps(&mut self, id: &ModuleId) -> (r: Vec<ModuleId>)
        requires
            old(self).wf(),
        ensures
            final(self).wf(),
            !final(self).spec_has_module(id.id@),
            forall|x: Seq<char>|
                final(self).spec_has_module(x) == (old(self).spec_has_module(x) && x != id.id@),
            forall|x: Seq<char>|
                old(self).spec_has_module(x) && x != id.id@ ==> final(self).spec_get_module(x)
                    == old(self).spec_get_module(x),
            forall|e: int|
                0 <= e < final(self).edges@.len() ==> (#[trigger] final(self).edges@[e]).from.id@
                    != id.id@ && final(self).edges@[e].to.id@ != id.id@,
            forall|e: int|
                0 <= e < final(self).edges@.len() ==> edge_present(
                    old(self).edges@,
                    (#[trigger] final(self).edges@[e]),
                ),
            forall|w: int|
                0 <= w < old(self).edges@.len() && (#[trigger] old(self).edges@[w]).from.id@
                    != id.id@ && old(self).edges@[w].to.id@ != id.id@ ==> edge_present(
                    final(self).edges@,
                    old(self).edges@[w],
                ),
            forall|i: int, j: int| 0 <= i < j < r@.len() ==> r@[i].id@ != r@[j].id@,
            forall|i: int|
                0 <= i < r@.len() ==> is_dependant_upto(
                    old(self).edges@,
                    id.id@,
                    (#[trigger] r@[i]).id@,
                    old(self).edges@.len() as int,
                ),
            forall|w: int|
                0 <= w < old(self).edges@.len() && (#[trigger] old(self).edges@[w]).to.id@
                    == id.id@ ==> recorded(r@, old(self).edges@[w].from.id@),
    {
        let dependants = self.dependant_module_ids(id);

        // Drop incident edges.
        let n = self.edges.len();
        let mut kept: Vec<ModuleGraphEdge> = Vec::new();
        let mut e: usize = 0;
        while e < n
            invariant
                0 <= e <= n,
                n == self.edges@.len(),
                *self == *old(self),
                forall|k: int|
                    0 <= k < kept@.len() ==> (#[trigger] kept@[k]).from.id@ != id.id@
                        && kept@[k].to.id@ != id.id@,
                forall|k: int|
                    0 <= k < kept@.len() ==> edge_present(self.edges@, (#[trigger] kept@[k])),
                forall|w: int|
                    0 <= w < e && (#[trigger] self.edges@[w]).from.id@ != id.id@
                        && self.edges@[w].to.id@ != id.id@ ==> edge_present(
                        kept@,
                        self.edges@[w],
                    ),
            decreases n - e,
        {
            let ghost prevk = kept@;
            let keep = !(self.edges[e].from == *id || self.edges[e].to == *id);
            if keep {
                let edge = &self.edges[e];
                kept.push(
                    ModuleGraphEdge {
                        from: edge.from.duplicate(),
                        to: edge.to.duplicate(),
                        dep: edge.dep.duplicate(),
                    },
                );
                proof {
                    assert(forall|k: int| 0 <= k < prevk.len() ==> kept@[k] == prevk[k]);
                    assert(kept@[prevk.len() as int] == self.edges@[e as int]);
                }
            }
            proof {
                assert forall|k: int| 0 <= k < kept@.len() implies edge_present(
                    self.edges@,
                    (#[trigger] kept@[k]),
                ) by {
                    if k < prevk.len() {
                        assert(kept@[k] == prevk[k]);
                        assert(edge_present(self.edges@, prevk[k]));
                    } else {
                        assert(kept@[k] == self.edges@[e as int]);
                        assert(edge_present(self.edges@, self.edges@[e as int]));
                    }
                };
                assert forall|w: int|
                    0 <= w < e + 1 && (#[trigger] self.edges@[w]).from.id@ != id.id@
                        && self.edges@[w].to.id@ != id.id@ implies edge_present(
                    kept@,
                    self.edges@[w],
                ) by {
                    if w < e {
                        assert(edge_present(prevk, self.edges@[w]));
                        let k = choose|k: int|
                            0 <= k < prevk.len() && (#[trigger] prevk[k]) == self.edges@[w];
                        assert(kept@[k] == self.edges@[w]);
                        assert(edge_present(kept@, self.edges@[w]));
                    } else {
                        assert(keep);
                        assert(kept@[prevk.len() as int] == self.edges@[e as int]);
                        assert(edge_present(kept@, self.edges@[w]));
                    }
                };
            }
            e = e + 1;
        }
        self.edges = kept;
        proof {
            assert(self.edges@ == kept@);
        }

        // Drop the module itself.
        let found = self.find_module(id);
        match found {
            Some(i) => {
                let ghost prev = self.modules@;
                self.modules.remove(i);
                proof {
                    assert(forall|k: int|
                        0 <= k < self.modules@.len() ==> self.modules@[k] == (if k < i {
                            prev[k]
                        } else {
                            prev[k + 1]
                        }));
                    assert forall|x: Seq<char>|
                        final(self).spec_has_module(x) == (old(self).spec_has_module(x) && x
                            != id.id@) by {
                        if final(self).spec_has_module(x) {
                            let k = choose|k: int|
                                0 <= k < self.modules@.len() && (#[trigger] self.modules@[k]).id.id@
                                    == x;
                            if k < i {
                                assert(prev[k].id.id@ == x);
                                assert(k != i);
                            } else {
                                assert(prev[k + 1].id.id@ == x);
                            }
                            assert(x != id.id@);
                        }
                        if old(self).spec_has_module(x) && x != id.id@ {
                            let k = choose|k: int|
                                0 <= k < prev.len() && (#[trigger] prev[k]).id.id@ == x;
                            assert(k != i);
                            if k < i {
                                assert(self.modules@[k].id.id@ == x);
                            } else {
                                assert(self.modules@[k - 1].id.id@ == x);
                            }
                        }
                    };
                    assert forall|x: Seq<char>|
                        old(self).spec_has_module(x) && x != id.id@ implies final(self).spec_get_module(x) == old(self).spec_get_module(x) by {
                        assert(final(self).spec_has_module(x));
                        let k = choose|k: int|
                            0 <= k < self.modules@.len() && (#[trigger] self.modules@[k]).id.id@
                                == x;
                        lemma_get_module_at(*self, k, x);
                        if k < i {
                            lemma_get_module_at(*old(self), k, x);
                        } else {
                            lemma_get_module_at(*old(self), k + 1, x);
                        }
                    };
                    assert forall|e2: int| 0 <= e2 < self.edges@.len() implies self.spec_has_module(
                        (#[trigger] self.edges@[e2]).from.id@,
                    ) && self.spec_has_module(self.edges@[e2].to.id@) by {
                        assert(edge_present(old(self).edges@, self.edges@[e2]));
                        let w = choose|w: int|
                            0 <= w < old(self).edges@.len() && (#[trigger] old(self).edges@[w])
                                == self.edges@[e2];
                        old(self).lemma_edges_closed(w);
                        assert(self.edges@[e2].from.id@ != id.id@);
                        assert(self.edges@[e2].to.id@ != id.id@);
                    };
                }
            },
            None => {
                proof {
                    assert forall|x: Seq<char>|
                        final(self).spec_has_module(x) == (old(self).spec_has_module(x) && x
                            != id.id@) by {
                        if x == id.id@ {
                            assert(!old(self).spec_has_module(x));
                        }
                    };
                    assert forall|e2: int| 0 <= e2 < self.edges@.len() implies self.spec_has_module(
                        (#[trigger] self.edges@[e2]).from.id@,
                    ) && self.spec_has_module(self.edges@[e2].to.id@) by {
                        assert(edge_present(old(self).edges@, self.edges@[e2]));
                        let w = choose|w: int|
                            0 <= w < old(self).edges@.len() && (#[trigger] old(self).edges@[w])
                                == self.edges@[e2];
                        old(self).lemma_edges_closed(w);
                        assert(self.edges@[e2].from.id@ != id.id@);
                        assert(self.edges@[e2].to.id@ != id.id@);
                    };
                }
            },
        }
        dependants
    }

    /// The outgoing dependencies of `id`, in edge insertion order.
    pub fn get_dependencies(&self, id: &ModuleId) -> (r: Vec<(ModuleId, Dependency)>)
        ensures
            r@.len() == deps_upto(self.edges@, id.id@, self.edges@.len() as int).len(),
            forall|k: int|
                0 <= k < r@.len() ==> {
                    let d = deps_upto(self.edges@, id.id@, self.edges@.len() as int)[k];
                    (#[trigger] r@[k]).0.id@ == d.0 && dep_eq(r@[k].1, d.1)
                },
    {
        let n = self.edges.len();
        let mut r: Vec<(ModuleId, Dependency)> = Vec::new();
        let mut e: usize = 0;
        while e < n
            invariant
                0 <= e <= n,
                n == self.edges@.len(),
                r@.len() == deps_upto(self.edges@, id.id@, e as int).len(),
                forall|k: int|
                    0 <= k < r@.len() ==> {
                        let d = deps_upto(self.edges@, id.id@, e as int)[k];
                        (#[trigger] r@[k]).0.id@ == d.0 && dep_eq(r@[k].1, d.1)
                    },
            decreases n - e,
        {
            let ghost prevr = r@;
            if self.edges[e].from == *id {
                r.push((self.edges[e].to.duplicate(), self.edges[e].dep.duplicate()));
                proof {
                    assert(forall|k: int| 0 <= k < prevr.len() ==> r@[k] == prevr[k]);
                }
            }
            proof {
                lemma_deps_upto_step(self.edges@, id.id@, e as int);
            }
            e = e + 1;
        }
        r
    }

    /// All modules, in insertion order.
    pub fn modules(&self) -> (r: &Vec<Module>)
        ensures
            r@ == self.modules@,
    {
        &self.modules
    }
}

/// The `(to, dep)` views of the edges from `id` among the first `e`
/// edge records, in order.
pub open spec fn deps_upto(edges: Seq<ModuleGraphEdge>, id: Seq<char>, e: int) -> Seq<
    (Seq<char>, Dependency),
>
    decreases e,
{
    if e <= 0 || e > edges.len() {
        Seq::empty()
    } else if edges[e - 1].from.id@ == id {
        deps_upto(edges, id, e - 1).push((edges[e - 1].to.id@, edges[e - 1].dep))
    } else {
        deps_upto(edges, id, e - 1)
    }
}

/// One unfolding step of `deps_upto`.
proof fn lemma_deps_upto_step(edges: Seq<ModuleGraphEdge>, id: Seq<char>, e: int)
    requires
        0 <= e < edges.len(),
    ensures
        deps_upto(edges, id, e + 1) == (if edges[e].from.id@ == id {
            deps_upto(edges, id, e).push((edges[e].to.id@, edges[e].dep))
        } else {
            deps_upto(edges, id, e)
        }),
{
}

/// Index of the first edge record matching `(from, to, dep)` at or
/// after `i`.
pub open spec fn first_edge_match_from(
    edges: Seq<ModuleGraphEdge>,
    from: Seq<char>,
    to: Seq<char>,
    dep: Dependency,
    i: int,
) -> Option<int>
    decreases edges.len() - i,
{
    if i < 0 || i >= edges.len() {
        None
    } else if edges[i].from.id@ == from && edges[i].to.id@ == to && dep_eq(edges[i].dep, dep) {
        Some(i)
    } else {
        first_edge_match_from(edges, from, to, dep, i + 1)
    }
}

/// Index of the first edge record matching `(from, to, dep)`.
pub open spec fn first_edge_match(
    edges: Seq<ModuleGraphEdge>,
    from: Seq<char>,
    to: Seq<char>,
    dep: Dependency,
) -> Option<int> {
    first_edge_match_from(edges, from, to, dep, 0)
}

/// If index `k` of a well-formed graph holds id view `x`, the graph's
/// module for `x` is that entry.
proof fn lemma_get_module_at(g: ModuleGraph, k: int, x: Seq<char>)
    requires
        g.wf(),
        0 <= k < g.modules@.len(),
        g.modules@[k].id.id@ == x,
    ensures
        g.spec_get_module(x) == g.modules@[k],
{
    g.lemma_module_unique(k);
}

/// Replacing or appending the entry at `i` updates lookups at its id
/// only.
proof fn lemma_modules_updated(
    prev: Seq<Module>,
    cur: Seq<Module>,
    i: int,
    g0: ModuleGraph,
    g1: ModuleGraph,
)
    requires
        g0.modules@ == prev,
        g1.modules@ == cur,
        forall|p: int, q: int| 0 <= p < q < prev.len() ==> prev[p].id.id@ != prev[q].id.id@,
        forall|p: int| 0 <= p < prev.len() ==> (#[trigger] prev[p]).wf(),
        0 <= i < cur.len(),
        cur.len() == if i < prev.len() {
            prev.len()
        } else {
            prev.len() + 1
        },
        forall|k: int| 0 <= k < prev.len() && k != i ==> cur[k] == prev[k],
        i < prev.len() ==> prev[i].id.id@ == cur[i].id.id@,
        cur[i].wf(),
        i < prev.len() ==> !(exists|k: int|
            0 <= k < prev.len() && k != i && (#[trigger] prev[k]).id.id@ == cur[i].id.id@),
        i == prev.len() ==> !(exists|k: int|
            0 <= k < prev.len() && (#[trigger] prev[k]).id.id@ == cur[i].id.id@),
    ensures
        forall|p: int, q: int| 0 <= p < q < cur.len() ==> cur[p].id.id@ != cur[q].id.id@,
        forall|p: int| 0 <= p < cur.len() ==> (#[trigger] cur[p]).wf(),
        forall|id: Seq<char>|
            g1.spec_has_module(id) == (g0.spec_has_module(id) || id == cur[i].id.id@),
        g1.spec_has_module(cur[i].id.id@),
        g1.spec_get_module(cur[i].id.id@) == cur[i],
        forall|id: Seq<char>|
            g0.spec_has_module(id) && id != cur[i].id.id@ ==> g1.spec_get_module(id)
                == g0.spec_get_module(id),
{
    assert forall|p: int, q: int| 0 <= p < q < cur.len() implies cur[p].id.id@ != cur[q].id.id@ by {
        if p != i && q != i {
            assert(cur[p] == prev[p] && cur[q] == prev[q]);
        } else if p == i {
            assert(cur[q] == prev[q]);
        } else {
            assert(cur[p] == prev[p]);
        }
    }
    assert forall|id: Seq<char>|
        g1.spec_has_module(id) == (g0.spec_has_module(id) || id == cur[i].id.id@) by {
        if g1.spec_has_module(id) {
            let k = choose|k: int|
                0 <= k < cur.len() && (#[trigger] cur[k]).id.id@ == id;
            if k != i && k < prev.len() {
                assert(prev[k].id.id@ == id);
            }
        }
        if g0.spec_has_module(id) && id != cur[i].id.id@ {
            let k = choose|k: int|
                0 <= k < prev.len() && (#[trigger] prev[k]).id.id@ == id;
            assert(k != i);
            assert(cur[k].id.id@ == id);
        }
        if id == cur[i].id.id@ {
            assert(cur[i].id.id@ == id);
        }
    }
    let uniq = forall|p: int, q: int| 0 <= p < q < cur.len() ==> cur[p].id.id@ != cur[q].id.id@;
    assert(g1.spec_has_module(cur[i].id.id@));
    let w = choose|w: int|
        0 <= w < cur.len() && (#[trigger] cur[w]).id.id@ == cur[i].id.id@;
    assert(w == i) by {
        if w != i {
            if w < i {
                assert(cur[w].id.id@ != cur[i].id.id@);
            } else {
                assert(cur[i].id.id@ != cur[w].id.id@);
            }
        }
    }
    assert forall|id: Seq<char>|
        g0.spec_has_module(id) && id != cur[i].id.id@ implies g1.spec_get_module(id)
        == g0.spec_get_module(id) by {
        let k = choose|k: int| 0 <= k < prev.len() && (#[trigger] prev[k]).id.id@ == id;
        assert(k != i);
        assert(cur[k].id.id@ == id);
        let k0 = choose|k0: int|
            0 <= k0 < prev.len() && (#[trigger] prev[k0]).id.id@ == id;
        let k1 = choose|k1: int|
            0 <= k1 < cur.len() && (#[trigger] cur[k1]).id.id@ == id;
        assert(k1 != i);
        if k1 != k {
            if k1 < prev.len() {
                if k1 < k {
                    assert(prev[k1].id.id@ != prev[k].id.id@);
                } else {
                    assert(prev[k].id.id@ != prev[k1].id.id@);
                }
            }
        }
        if k0 != k {
            if k0 < k {
                assert(prev[k0].id.id@ != prev[k].id.id@);
            } else {
                assert(prev[k].id.id@ != prev[k0].id.id@);
            }
        }
    }
}

/// Two graphs with the same module list (and unique ids) agree on
/// membership and lookup.
pub proof fn lemma_same_modules(g1: ModuleGraph, g2: ModuleGraph)
    requires
        g1.modules@ == g2.modules@,
        forall|p: int, q: int|
            0 <= p < q < g1.modules@.len() ==> g1.modules@[p].id.id@ != g1.modules@[q].id.id@,
    ensures
        forall|x: Seq<char>| g1.spec_has_module(x) == g2.spec_has_module(x),
        forall|x: Seq<char>|
            #[trigger] g1.spec_has_module(x) ==> g1.spec_get_module(x) == g2.spec_get_module(x),
{
    assert forall|x: Seq<char>| g1.spec_has_module(x) == g2.spec_has_module(x) by {
        if g1.spec_has_module(x) {
            let i = choose|i: int|
                0 <= i < g1.modules@.len() && (#[trigger] g1.modules@[i]).id.id@ == x;
            assert(g2.modules@[i].id.id@ == x);
        }
        if g2.spec_has_module(x) {
            let i = choose|i: int|
                0 <= i < g2.modules@.len() && (#[trigger] g2.modules@[i]).id.id@ == x;
            assert(g1.modules@[i].id.id@ == x);
        }
    };
    assert forall|x: Seq<char>|
        #[trigger] g1.spec_has_module(x) implies g1.spec_get_module(x) == g2.spec_get_module(
        x,
    ) by {
        let i1 = choose|i: int|
            0 <= i < g1.modules@.len() && (#[trigger] g1.modules@[i]).id.id@ == x;
        let i2 = choose|i: int|
            0 <= i < g2.modules@.len() && (#[trigger] g2.modules@[i]).id.id@ == x;
        if i1 != i2 {
            if i1 < i2 {
                assert(g1.modules@[i1].id.id@ != g1.modules@[i2].id.id@);
            } else {
                assert(g1.modules@[i2].id.id@ != g1.modules@[i1].id.id@);
            }
        }
    };
}

/// `Some(e)` from the first-match search really is a match in range.
pub proof fn lemma_first_edge_match_props(
    edges: Seq<ModuleGraphEdge>,
    from: Seq<char>,
    to: Seq<char>,
    dep: Dependency,
    i: int,
)
    ensures
        first_edge_match_from(edges, from, to, dep, i) matches Some(e) ==> 0 <= e
            < edges.len() && edges[e].from.id@ == from && edges[e].to.id@ == to && dep_eq(
            edges[e].dep,
            dep,
        ),
    decreases edges.len() - i,
{
    if 0 <= i < edges.len() {
        if !(edges[i].from.id@ == from && edges[i].to.id@ == to && dep_eq(edges[i].dep, dep)) {
            lemma_first_edge_match_props(edges, from, to, dep, i + 1);
        }
    }
}

/// An edge whose source differs from the removed record's survives a
/// removal.
pub proof fn lemma_edge_present_after_remove(
    pre: Seq<ModuleGraphEdge>,
    post: Seq<ModuleGraphEdge>,
    e: int,
    edge: ModuleGraphEdge,
)
    requires
        0 <= e < pre.len(),
        post == pre.remove(e),
        edge_present(pre, edge),
        pre[e].from.id@ != edge.from.id@,
    ensures
        edge_present(post, edge),
{
    let w = choose|w: int| 0 <= w < pre.len() && (#[trigger] pre[w]) == edge;
    if w < e {
        assert(post[w] == pre[w]);
    } else {
        assert(w != e);
        assert(post[w - 1] == pre[w]);
    }
}

/// Any edge present after a removal was present before.
pub proof fn lemma_edge_present_under_remove(
    pre: Seq<ModuleGraphEdge>,
    post: Seq<ModuleGraphEdge>,
    e: int,
    edge: ModuleGraphEdge,
)
    requires
        0 <= e < pre.len(),
        post == pre.remove(e),
        edge_present(post, edge),
    ensures
        edge_present(pre, edge),
{
    let w = choose|w: int| 0 <= w < post.len() && (#[trigger] post[w]) == edge;
    if w < e {
        assert(pre[w] == edge);
    } else {
        assert(pre[w + 1] == edge);
    }
}

/// Each collected dependency pair of `deps_upto` names an edge among
/// the first `bound` records, and conversely.
#[verifier::rlimit(60)]
pub proof fn lemma_deps_upto_edges(edges: Seq<ModuleGraphEdge>, m: Seq<char>, bound: int)
    requires
        0 <= bound <= edges.len(),
    ensures
        forall|k: int|
            0 <= k < deps_upto(edges, m, bound).len() ==> exists|e: int|
                0 <= e < bound && (#[trigger] edges[e]).from.id@ == m && edges[e].to.id@ == (
                #[trigger] deps_upto(edges, m, bound)[k]).0 && dep_eq(
                    edges[e].dep,
                    deps_upto(edges, m, bound)[k].1,
                ),
        forall|e: int|
            0 <= e < bound && (#[trigger] edges[e]).from.id@ == m ==> exists|k: int|
                0 <= k < deps_upto(edges, m, bound).len() && (#[trigger] deps_upto(
                    edges,
                    m,
                    bound,
                )[k]).0 == edges[e].to.id@ && dep_eq(deps_upto(edges, m, bound)[k].1, edges[e].dep),
    decreases bound,
{
    if bound > 0 {
        lemma_deps_upto_edges(edges, m, bound - 1);
        let prev = deps_upto(edges, m, bound - 1);
        let cur = deps_upto(edges, m, bound);
        if edges[bound - 1].from.id@ == m {
            assert(cur == prev.push((edges[bound - 1].to.id@, edges[bound - 1].dep)));
            assert(forall|k: int| 0 <= k < prev.len() ==> cur[k] == prev[k]);
            assert(cur[prev.len() as int].0 == edges[bound - 1].to.id@ && dep_eq(
                cur[prev.len() as int].1,
                edges[bound - 1].dep,
            ));
        } else {
            assert(cur == prev);
        }
        assert forall|k: int| 0 <= k < deps_upto(edges, m, bound).len() implies exists|e: int|
            0 <= e < bound && (#[trigger] edges[e]).from.id@ == m && edges[e].to.id@ == (
            #[trigger] deps_upto(edges, m, bound)[k]).0 && dep_eq(
            edges[e].dep,
            deps_upto(edges, m, bound)[k].1,
        ) by {
            assert(deps_upto(edges, m, bound)[k] == cur[k]);
            if k < prev.len() {
                assert(cur[k] == prev[k]);
                let e = choose|e: int|
                    0 <= e < bound - 1 && (#[trigger] edges[e]).from.id@ == m && edges[e].to.id@
                        == prev[k].0 && dep_eq(edges[e].dep, prev[k].1);
                assert(0 <= e < bound && edges[e].from.id@ == m && edges[e].to.id@ == cur[k].0
                    && dep_eq(edges[e].dep, cur[k].1));
            } else {
                assert(edges[bound - 1].from.id@ == m && edges[bound - 1].to.id@ == cur[k].0
                    && dep_eq(edges[bound - 1].dep, cur[k].1));
            }
        };
        assert forall|e: int|
            0 <= e < bound && (#[trigger] edges[e]).from.id@ == m implies exists|k: int|
            0 <= k < deps_upto(edges, m, bound).len() && (#[trigger] deps_upto(
                edges,
                m,
                bound,
            )[k]).0 == edges[e].to.id@ && dep_eq(deps_upto(edges, m, bound)[k].1, edges[e].dep)
            by {
            if e < bound - 1 {
                let k = choose|k: int|
                    0 <= k < prev.len() && (#[trigger] prev[k]).0 == edges[e].to.id@ && dep_eq(
                        prev[k].1,
                        edges[e].dep,
                    );
                assert(cur[k].0 == edges[e].to.id@ && dep_eq(cur[k].1, edges[e].dep));
            } else {
                assert(cur[cur.len() - 1].0 == edges[e].to.id@ && dep_eq(
                    cur[cur.len() - 1].1,
                    edges[e].dep,
                ));
            }
        };
    }
}

} // verus!
