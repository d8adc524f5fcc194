use std::collections::HashMap;
use vstd::prelude::*;

verus! {

broadcast use vstd::std_specs::hash::group_hash_axioms;

/// A vertex identifier: compared by identity, and split into buckets by a
/// deterministic 64-bit key so that lookups need not scan the whole graph.
pub trait VertexId: Copy + Sized {
    /// The bucket that this identifier falls into.
    spec fn spec_bucket(self) -> u64;

    fn bucket(&self) -> (r: u64)
        ensures
            r == self.spec_bucket(),
    ;

    fn same(&self, other: &Self) -> (r: bool)
        ensures
            r == (*self == *other),
    ;
}

impl VertexId for u64 {
    open spec fn spec_bucket(self) -> u64 {
        self
    }

    fn bucket(&self) -> (r: u64) {
        *self
    }

    fn same(&self, other: &u64) -> (r: bool) {
        *self == *other
    }
}

/// The mathematical content of a graph: its vertex set and its edge set.
#[verifier::reject_recursive_types(V)]
pub struct GraphView<V> {
    pub vertices: Set<V>,
    pub edges: Set<(V, V)>,
}

impl<V> GraphView<V> {
    pub open spec fn empty() -> GraphView<V> {
        GraphView { vertices: Set::empty(), edges: Set::empty() }
    }

    pub open spec fn with_vertex(self, v: V) -> GraphView<V> {
        GraphView { vertices: self.vertices.insert(v), edges: self.edges }
    }

    pub open spec fn with_edge(self, from: V, to: V) -> GraphView<V> {
        GraphView {
            vertices: self.vertices.insert(from).insert(to),
            edges: self.edges.insert((from, to)),
        }
    }

    /// Every endpoint of an edge is a vertex.
    pub open spec fn closed(self) -> bool {
        forall|e: (V, V)|
            #[trigger] self.edges.contains(e) ==> self.vertices.contains(e.0)
                && self.vertices.contains(e.1)
    }

    /// The number of edges, capped at `usize::MAX`.
    pub open spec fn capped_edge_count(self) -> nat {
        if self.edges.len() < usize::MAX {
            self.edges.len()
        } else {
            usize::MAX as nat
        }
    }
}

/// One mutation of a graph.
pub enum GraphOp<V> {
    InsertVertex(V),
    InsertEdge(V, V),
}

impl<V> GraphView<V> {
    pub open spec fn apply(self, op: GraphOp<V>) -> GraphView<V> {
        match op {
            GraphOp::InsertVertex(v) => self.with_vertex(v),
            GraphOp::InsertEdge(a, b) => self.with_edge(a, b),
        }
    }

    pub open spec fn union(self, other: GraphView<V>) -> GraphView<V> {
        GraphView { vertices: self.vertices + other.vertices, edges: self.edges + other.edges }
    }
}

/// The graph that a sequence of mutations builds from the empty graph.
pub open spec fn replay<V>(ops: Seq<GraphOp<V>>) -> GraphView<V>
    decreases ops.len(),
{
    if ops.len() == 0 {
        GraphView::empty()
    } else {
        replay(ops.drop_last()).apply(ops.last())
    }
}

/// Inserting a vertex twice gives the same graph as inserting it once, and
/// inserting a vertex that is present changes nothing, so the vertex count is
/// unaffected by repeats.
pub proof fn lemma_insert_vertex_idempotent<V>(g: GraphView<V>, v: V)
    ensures
        g.with_vertex(v).with_vertex(v) == g.with_vertex(v),
        g.vertices.contains(v) ==> g.with_vertex(v) == g,
        g.with_vertex(v).with_vertex(v).vertices.len() == g.with_vertex(v).vertices.len(),
{
    assert(g.with_vertex(v).with_vertex(v).vertices =~= g.with_vertex(v).vertices);
    if g.vertices.contains(v) {
        assert(g.with_vertex(v).vertices =~= g.vertices);
    }
}

/// After an edge is inserted both of its endpoints are vertices, whether or
/// not they were inserted before, and a graph whose edges have their
/// endpoints among the vertices keeps that property.
pub proof fn lemma_edge_endpoints_are_vertices<V>(g: GraphView<V>, from: V, to: V)
    ensures
        g.with_edge(from, to).vertices.contains(from),
        g.with_edge(from, to).vertices.contains(to),
        g.with_edge(from, to).edges.contains((from, to)),
        g.closed() ==> g.with_edge(from, to).closed(),
{
}

/// Along any sequence of mutations from the empty graph, an edge is present
/// only if that very edge was inserted.
pub proof fn lemma_no_false_adjacency<V>(ops: Seq<GraphOp<V>>, a: V, b: V)
    requires
        forall|i: int| 0 <= i < ops.len() ==> ops[i] != GraphOp::InsertEdge(a, b),
    ensures
        !replay(ops).edges.contains((a, b)),
    decreases ops.len(),
{
    if ops.len() > 0 {
        lemma_no_false_adjacency(ops.drop_last(), a, b);
        assert(ops.last() == ops[ops.len() - 1]);
    }
}

/// A directed graph with set semantics: inserting a vertex or an edge that is
/// already present changes nothing.
///
/// Vertices are numbered in order of insertion; `buckets` maps a bucket key to
/// the numbers of the vertices in that bucket, and `succ` maps a vertex number
/// to the numbers of its successors.
#[verifier::reject_recursive_types(V)]
pub struct DirectedGraph<V: VertexId> {
    ids: Vec<V>,
    buckets: HashMap<u64, Vec<usize>>,
    succ: HashMap<usize, Vec<usize>>,
    n_edges: usize,
    model: Ghost<GraphView<V>>,
}

impl<V: VertexId> View for DirectedGraph<V> {
    type V = GraphView<V>;

    closed spec fn view(&self) -> GraphView<V> {
        self.model@
    }
}

impl<V: VertexId> DirectedGraph<V> {
    pub closed spec fn wf(&self) -> bool {
        let ids = self.ids@;
        let m = self.model@;
        &&& forall|i: int, j: int|
            0 <= i < ids.len() && 0 <= j < ids.len() && #[trigger] ids[i] == #[trigger] ids[j]
                ==> i == j
        &&& forall|i: int| 0 <= i < ids.len() ==> m.vertices.contains(#[trigger] ids[i])
        &&& forall|v: V| #[trigger]
            m.vertices.contains(v) ==> exists|i: int| 0 <= i < ids.len() && ids[i] == v
        &&& m.vertices.finite()
        &&& m.vertices.len() == ids.len()
        &&& forall|i: int|
            0 <= i < ids.len() ==> self.buckets@.contains_key((#[trigger] ids[i]).spec_bucket())
                && exists|q: int|
                0 <= q < self.buckets@[ids[i].spec_bucket()]@.len()
                    && #[trigger] self.buckets@[ids[i].spec_bucket()]@[q] as int == i
        &&& forall|k: u64, p: int|
            self.buckets@.contains_key(k) && 0 <= p < self.buckets@[k]@.len() ==> (
            #[trigger] self.buckets@[k]@[p]) < ids.len() && ids[self.buckets@[k]@[p] as int].spec_bucket()
                == k
        &&& forall|s: usize, p: int|
            self.succ@.contains_key(s) && 0 <= p < self.succ@[s]@.len() ==> (
            #[trigger] self.succ@[s]@[p]) < ids.len() && m.edges.contains(
                (ids[s as int], ids[self.succ@[s]@[p] as int]),
            )
        &&& forall|s: usize| #[trigger]
            self.succ@.contains_key(s) ==> s < ids.len() && self.succ@[s]@.no_duplicates()
        &&& forall|e: (V, V)| #[trigger]
            m.edges.contains(e) ==> exists|s: usize, t: usize|
                #![trigger self.succ@[s]@.contains(t)]
                self.succ@.contains_key(s) && self.succ@[s]@.contains(t) && s < ids.len() && t
                    < ids.len() && ids[s as int] == e.0 && ids[t as int] == e.1
        &&& m.edges.finite()
        &&& m.closed()
        &&& self.n_edges as nat == m.capped_edge_count()
    }

    /// Every edge of a well-formed graph has its endpoints among the vertices,
    /// and both sets are finite.
    pub proof fn lemma_wf_closed(&self)
        requires
            self.wf(),
        ensures
            self@.closed(),
            self@.vertices.finite(),
            self@.edges.finite(),
    {
    }

    /// An empty graph.
    pub fn new() -> (g: Self)
        ensures
            g.wf(),
            g@ == GraphView::<V>::empty(),
    {
        DirectedGraph {
            ids: Vec::new(),
            buckets: HashMap::new(),
            succ: HashMap::new(),
            n_edges: 0,
            model: Ghost(GraphView::empty()),
        }
    }

    /// The number of `v`, if `v` is a vertex.
    fn find(&self, v: &V) -> (r: Option<usize>)
        requires
            self.wf(),
        ensures
            match r {
                Some(i) => i < self.ids@.len() && self.ids@[i as int] == *v,
                None => !self@.vertices.contains(*v),
            },
    {
        let key = v.bucket();
        match self.buckets.get(&key) {
            None => {
                proof {
                    if self@.vertices.contains(*v) {
                        let i = choose|i: int| 0 <= i < self.ids@.len() && self.ids@[i] == *v;
                        assert(self.buckets@.contains_key(self.ids@[i].spec_bucket()));
                    }
                }
                None
            },
            Some(bucket) => {
                let mut p: usize = 0;
                while p < bucket.len()
                    invariant
                        self.wf(),
                        self.buckets@.contains_key(key),
                        bucket@ == self.buckets@[key]@,
                        key == v.spec_bucket(),
                        p <= bucket@.len(),
                        forall|q: int| 0 <= q < p ==> self.ids@[#[trigger] bucket@[q] as int] != *v,
                    decreases bucket@.len() - p,
                {
                    let i = bucket[p];
                    assert(bucket@[p as int] == self.buckets@[key]@[p as int]);
                    if self.ids[i].same(v) {
                        return Some(i);
                    }
                    p = p + 1;
                }
                proof {
                    if self@.vertices.contains(*v) {
                        let i = choose|i: int| 0 <= i < self.ids@.len() && self.ids@[i] == *v;
                        let q = choose|q: int|
                            0 <= q < bucket@.len() && #[trigger] bucket@[q] as int == i;
                        assert(self.ids@[bucket@[q] as int] == *v);
                    }
                }
                None
            },
        }
    }
    /// Inserts `v` if it is absent, and returns its number.
    fn intern(&mut self, v: V) -> (r: usize)
        requires
            old(self).wf(),
        ensures
            final(self).wf(),
            final(self)@ == old(self)@.with_vertex(v),
            r < final(self).ids@.len(),
            final(self).ids@[r as int] == v,
            old(self).ids@.len() <= final(self).ids@.len(),
            forall|i: int|
                0 <= i < old(self).ids@.len() ==> final(self).ids@[i] == old(self).ids@[i],
            final(self).succ@ == old(self).succ@,
            final(self).n_edges == old(self).n_edges,
    {
        match self.find(&v) {
            Some(i) => {
                proof {
                    assert(self@.vertices.insert(v) =~= self@.vertices);
                }
                i
            },
            None => {
                let ghost old_ids = self.ids@;
                let ghost old_buckets = self.buckets@;
                let i = self.ids.len();
                let key = v.bucket();
                let mut bucket = match self.buckets.remove(&key) {
                    Some(b) => b,
                    None => Vec::new(),
                };
                let ghost old_bucket = bucket@;
                bucket.push(i);
                self.buckets.insert(key, bucket);
                self.ids.push(v);
                self.model = Ghost(self.model@.with_vertex(v));
                proof {
                    let ids = self.ids@;
                    assert(ids[i as int] == v);
                    assert forall|a: int, b: int|
                        0 <= a < ids.len() && 0 <= b < ids.len() && #[trigger] ids[a]
                            == #[trigger] ids[b] implies a == b by {
                        if a < i && b == i {
                            assert(old(self)@.vertices.contains(old_ids[a]));
                        } else if a == i && b < i {
                            assert(old(self)@.vertices.contains(old_ids[b]));
                        }
                    }
                    assert forall|a: int| 0 <= a < ids.len() implies self@.vertices.contains(
                        #[trigger] ids[a],
                    ) by {
                        if a < i {
                            assert(old(self)@.vertices.contains(old_ids[a]));
                        }
                    }
                    assert forall|w: V| #[trigger]
                        self@.vertices.contains(w) implies exists|a: int|
                        0 <= a < ids.len() && ids[a] == w by {
                        if w == v {
                            assert(ids[i as int] == w);
                        } else {
                            let a = choose|a: int| 0 <= a < old_ids.len() && old_ids[a] == w;
                            assert(ids[a] == w);
                        }
                    }
                    assert forall|a: int| 0 <= a < ids.len() implies self.buckets@.contains_key(
                        (#[trigger] ids[a]).spec_bucket(),
                    ) && exists|q: int|
                        0 <= q < self.buckets@[ids[a].spec_bucket()]@.len()
                            && #[trigger] self.buckets@[ids[a].spec_bucket()]@[q] as int == a by {
                        if a == i {
                            assert(self.buckets@[key]@[old_bucket.len() as int] as int == a);
                        } else {
                            assert(old_ids[a] == ids[a]);
                            let k = ids[a].spec_bucket();
                            let q = choose|q: int|
                                0 <= q < old_buckets[k]@.len() && #[trigger] old_buckets[k]@[q] as int
                                    == a;
                            if k == key {
                                assert(old_bucket == old_buckets[k]@);
                                assert(self.buckets@[k]@[q] as int == a);
                            } else {
                                assert(self.buckets@[k] == old_buckets[k]);
                            }
                        }
                    }
                    assert forall|k: u64, q: int|
                        self.buckets@.contains_key(k) && 0 <= q < self.buckets@[k]@.len() implies (
                        #[trigger] self.buckets@[k]@[q]) < ids.len() && ids[self.buckets@[k]@[q] as int].spec_bucket()
                            == k by {
                        if k == key {
                            if q < old_bucket.len() {
                                assert(old_bucket == old_buckets[k]@);
                                assert(self.buckets@[k]@[q] == old_buckets[k]@[q]);
                            }
                        } else {
                            assert(self.buckets@[k] == old_buckets[k]);
                        }
                    }
                    assert forall|s: usize, p: int|
                        self.succ@.contains_key(s) && 0 <= p < self.succ@[s]@.len() implies (#[trigger] self.succ@[s]@[p]) < ids.len() && self@.edges.contains(
                        (ids[s as int], ids[self.succ@[s]@[p] as int]),
                    ) by {
                        assert(old(self).succ@ == self.succ@);
                        assert(old(self).succ@[s]@[p] < old_ids.len());
                        assert(old_ids[s as int] == ids[s as int]);
                        assert(old_ids[self.succ@[s]@[p] as int] == ids[self.succ@[s]@[p] as int]);
                    }
                    assert forall|e: (V, V)| #[trigger]
                        self@.edges.contains(e) implies exists|s: usize, t: usize|
                        #![trigger self.succ@[s]@.contains(t)]
                        self.succ@.contains_key(s) && self.succ@[s]@.contains(t) && s < ids.len()
                            && t < ids.len() && ids[s as int] == e.0 && ids[t as int] == e.1 by {
                        let (s, t) = choose|s: usize, t: usize|
                            #![trigger self.succ@[s]@.contains(t)]
                            self.succ@.contains_key(s) && self.succ@[s]@.contains(t) && s
                                < old_ids.len() && t < old_ids.len() && old_ids[s as int] == e.0
                                && old_ids[t as int] == e.1;
                        assert(ids[s as int] == e.0 && ids[t as int] == e.1);
                    }
                }
                i
            },
        }
    }
    /// Adds `v` to the vertex set; a vertex already present is left as it is.
    pub fn insert_vertex(&mut self, v: V)
        requires
            old(self).wf(),
        ensures
            final(self).wf(),
            final(self)@ == old(self)@.with_vertex(v),
    {
        self.intern(v);
    }

    pub fn contains_vertex(&self, v: &V) -> (r: bool)
        requires
            self.wf(),
        ensures
            r == self@.vertices.contains(*v),
    {
        self.find(v).is_some()
    }

    /// Records the edge `from -> to`, adding both endpoints as vertices where
    /// they are missing. An edge already present is recorded once.
    pub fn insert_edge(&mut self, from: V, to: V)
        requires
            old(self).wf(),
        ensures
            final(self).wf(),
            final(self)@ == old(self)@.with_edge(from, to),
    {
        let ghost before = self@;
        let i = self.intern(from);
        let j = self.intern(to);
        proof {
            assert(self@.vertices.contains(from));
        }
        self.link(i, j);
        proof {
            assert(self@.vertices =~= before.vertices.insert(from).insert(to));
        }
    }

    /// Records the edge between the vertices numbered `i` and `j`.
    fn link(&mut self, i: usize, j: usize)
        requires
            old(self).wf(),
            i < old(self).ids@.len(),
            j < old(self).ids@.len(),
        ensures
            final(self).wf(),
            final(self)@.vertices == old(self)@.vertices,
            final(self)@.edges == old(self)@.edges.insert(
                (old(self).ids@[i as int], old(self).ids@[j as int]),
            ),
            final(self).ids@ == old(self).ids@,
    {
        let ghost from = self.ids@[i as int];
        let ghost to = self.ids@[j as int];
        let ghost mid = *self;
        let mut row = match self.succ.remove(&i) {
            Some(r) => r,
            None => Vec::new(),
        };
        let ghost old_row = row@;
        if contains_index(&row, j) {
            self.succ.insert(i, row);
            proof {
                assert(self.succ@ =~= mid.succ@);
                let p = choose|p: int| 0 <= p < old_row.len() && old_row[p] == j;
                assert(mid.succ@[i]@[p] == j);
                assert(self@.edges.contains((from, to)));
                assert(self@.edges.insert((from, to)) =~= self@.edges);
            }
        } else {
            row.push(j);
            self.succ.insert(i, row);
            if self.n_edges < usize::MAX {
                self.n_edges = self.n_edges + 1;
            }
            let ghost before = self.model@;
            self.model = Ghost(GraphView { vertices: before.vertices, edges: before.edges.insert((from, to)) });
            proof {
                let ids = self.ids@;
                assert(!before.edges.contains((from, to))) by {
                    if before.edges.contains((from, to)) {
                        let (s, t) = choose|s: usize, t: usize|
                            #![trigger mid.succ@[s]@.contains(t)]
                            mid.succ@.contains_key(s) && mid.succ@[s]@.contains(t) && s
                                < ids.len() && t < ids.len() && ids[s as int] == from
                                && ids[t as int] == to;
                        assert(s == i && t == j);
                    }
                }
                let new_row = self.succ@[i]@;
                assert(new_row == old_row.push(j));
                assert forall|s: usize, p: int|
                    self.succ@.contains_key(s) && 0 <= p < self.succ@[s]@.len() implies (
                    #[trigger] self.succ@[s]@[p]) < ids.len() && self@.edges.contains(
                    (ids[s as int], ids[self.succ@[s]@[p] as int]),
                ) by {
                    if s == i {
                        if p < old_row.len() {
                            assert(mid.succ@[s]@[p] == self.succ@[s]@[p]);
                        }
                    } else {
                        assert(mid.succ@[s] == self.succ@[s]);
                    }
                }
                assert forall|s: usize| #[trigger]
                    self.succ@.contains_key(s) implies s < ids.len()
                    && self.succ@[s]@.no_duplicates() by {
                    if s != i {
                        assert(mid.succ@[s] == self.succ@[s]);
                    } else {
                        assert(i < ids.len());
                    }
                }
                assert forall|e: (V, V)| #[trigger]
                    self.model@.edges.contains(e) implies exists|s: usize, t: usize|
                    #![trigger self.succ@[s]@.contains(t)]
                    self.succ@.contains_key(s) && self.succ@[s]@.contains(t) && s < ids.len()
                        && t < ids.len() && ids[s as int] == e.0 && ids[t as int] == e.1 by {
                    if e == (from, to) {
                        assert(new_row[old_row.len() as int] == j);
                        assert(self.succ@[i]@.contains(j));
                    } else {
                        let (s, t) = choose|s: usize, t: usize|
                            #![trigger mid.succ@[s]@.contains(t)]
                            mid.succ@.contains_key(s) && mid.succ@[s]@.contains(t) && s
                                < ids.len() && t < ids.len() && ids[s as int] == e.0
                                && ids[t as int] == e.1;
                        if s == i {
                            let p = choose|p: int| 0 <= p < old_row.len() && old_row[p] == t;
                            assert(new_row[p] == t);
                            assert(self.succ@[s]@.contains(t));
                        } else {
                            assert(mid.succ@[s] == self.succ@[s]);
                            assert(self.succ@[s]@.contains(t));
                        }
                    }
                }
            }
        }
    }

    pub fn has_edge(&self, from: &V, to: &V) -> (r: bool)
        requires
            self.wf(),
        ensures
            r == self@.edges.contains((*from, *to)),
    {
        let i = match self.find(from) {
            Some(i) => i,
            None => return false,
        };
        let j = match self.find(to) {
            Some(j) => j,
            None => return false,
        };
        match self.succ.get(&i) {
            Some(row) => {
                let r = contains_index(row, j);
                proof {
                    if self@.edges.contains((*from, *to)) {
                        self.lemma_edge_in_row(*from, *to, i, j);
                    }
                    if r {
                        let p = choose|p: int| 0 <= p < row@.len() && row@[p] == j;
                        assert(self.succ@[i]@[p] == j);
                    }
                }
                r
            },
            None => {
                proof {
                    if self@.edges.contains((*from, *to)) {
                        self.lemma_edge_in_row(*from, *to, i, j);
                    }
                }
                false
            },
        }
    }

    /// An edge between numbered vertices is stored in the row of its source.
    proof fn lemma_edge_in_row(&self, from: V, to: V, i: usize, j: usize)
        requires
            self.wf(),
            self@.edges.contains((from, to)),
            i < self.ids@.len(),
            j < self.ids@.len(),
            self.ids@[i as int] == from,
            self.ids@[j as int] == to,
        ensures
            self.succ@.contains_key(i),
            self.succ@[i]@.contains(j),
    {
        let ids = self.ids@;
        let (s, t) = choose|s: usize, t: usize|
            #![trigger self.succ@[s]@.contains(t)]
            self.succ@.contains_key(s) && self.succ@[s]@.contains(t) && s < ids.len() && t
                < ids.len() && ids[s as int] == from && ids[t as int] == to;
        assert(ids[s as int] == ids[i as int]);
        assert(ids[t as int] == ids[j as int]);
    }
    /// The successors of `v`, each once; empty where `v` has no outgoing edge
    /// or is not a vertex.
    pub fn successors(&self, v: &V) -> (r: Vec<V>)
        requires
            self.wf(),
        ensures
            forall|w: V| r@.contains(w) <==> self@.edges.contains((*v, w)),
            r@.no_duplicates(),
    {
        let mut out: Vec<V> = Vec::new();
        let i = match self.find(v) {
            Some(i) => i,
            None => {
                proof {
                    assert forall|w: V| !self@.edges.contains((*v, w)) by {
                        if self@.edges.contains((*v, w)) {
                            assert(self@.vertices.contains(*v));
                        }
                    }
                }
                return out;
            },
        };
        match self.succ.get(&i) {
            None => {
                proof {
                    assert forall|w: V| !self@.edges.contains((*v, w)) by {
                        if self@.edges.contains((*v, w)) {
                            let j = self.index_of(w);
                            self.lemma_edge_in_row(*v, w, i, j as usize);
                        }
                    }
                }
            },
            Some(row) => {
                let mut p: usize = 0;
                while p < row.len()
                    invariant
                        self.wf(),
                        self.succ@.contains_key(i),
                        row@ == self.succ@[i]@,
                        i < self.ids@.len(),
                        self.ids@[i as int] == *v,
                        p <= row@.len(),
                        out@.len() == p,
                        forall|q: int| 0 <= q < p ==> out@[q] == self.ids@[#[trigger] row@[q] as int],
                    decreases row@.len() - p,
                {
                    assert(row@[p as int] == self.succ@[i]@[p as int]);
                    out.push(self.ids[row[p]]);
                    p = p + 1;
                }
                proof {
                    assert forall|w: V| out@.contains(w) <==> self@.edges.contains((*v, w)) by {
                        if out@.contains(w) {
                            let q = choose|q: int| 0 <= q < out@.len() && out@[q] == w;
                            assert(self.succ@[i]@[q] == row@[q]);
                        }
                        if self@.edges.contains((*v, w)) {
                            let j = self.index_of(w);
                            self.lemma_edge_in_row(*v, w, i, j as usize);
                            let q = choose|q: int| 0 <= q < row@.len() && row@[q] == j as usize;
                            assert(out@[q] == w);
                        }
                    }
                    assert forall|a: int, b: int|
                        0 <= a < out@.len() && 0 <= b < out@.len() && a != b implies out@[a]
                        != out@[b] by {
                        assert(self.succ@[i]@[a] == row@[a]);
                        assert(self.succ@[i]@[b] == row@[b]);
                        if out@[a] == out@[b] {
                            assert(self.ids@[row@[a] as int] == self.ids@[row@[b] as int]);
                        }
                    }
                }
            },
        }
        out
    }

    /// The number of a vertex.
    proof fn index_of(&self, v: V) -> (i: int)
        requires
            self.wf(),
            self@.vertices.contains(v),
        ensures
            0 <= i < self.ids@.len(),
            self.ids@[i] == v,
    {
        choose|i: int| 0 <= i < self.ids@.len() && self.ids@[i] == v
    }

    pub fn vertex_count(&self) -> (r: usize)
        requires
            self.wf(),
        ensures
            r == self@.vertices.len(),
    {
        self.ids.len()
    }

    /// The number of distinct edges (saturating at `usize::MAX`).
    pub fn edge_count(&self) -> (r: usize)
        requires
            self.wf(),
        ensures
            r == self@.capped_edge_count(),
    {
        self.n_edges
    }

}

/// Whether `j` occurs in `row`.
fn contains_index(row: &Vec<usize>, j: usize) -> (r: bool)
    ensures
        r == row@.contains(j),
{
    let mut p: usize = 0;
    while p < row.len()
        invariant
            p <= row@.len(),
            forall|q: int| 0 <= q < p ==> row@[q] != j,
        decreases row@.len() - p,
    {
        if row[p] == j {
            return true;
        }
        p = p + 1;
    }
    false
}

} // verus!
