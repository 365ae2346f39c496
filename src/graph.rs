//! The graph container: a vertex store, an edge store kept in order of
//! insertion, and for each vertex the positions of the edges that touch it.
use crate::bulk::{bulk, bulk_step, last_index, with_payload};
use crate::bulk::{
    lemma_bulk_closed, lemma_bulk_fixed, lemma_last_index_absent, lemma_last_index_found, lemma_last_index_range,
    lemma_with_payload_keeps,
};
use crate::connectivity::{
    components, count_true, edges_ok, incident, is_rep, joins, labels_ok, laplacian_at, linked, neighbors, other,
    sum_of, touches,
};
use crate::connectivity::{
    lemma_incident_bounds, lemma_incident_contains, lemma_incident_len, lemma_incident_push, lemma_labels_keep,
    lemma_labels_merge, lemma_labels_rep, lemma_labels_start, lemma_laplacian_row_sum,
};
use crate::identity::fresh_tag;
use vstd::prelude::*;

verus! {

/// Why an operation on a graph was refused.
#[derive(Debug, Clone, Copy, PartialEq, Eq, Structural)]
pub enum GraphError {
    /// The handle belongs to another graph, or names no vertex of this one.
    InvalidHandle,
    /// The two vertices are already joined by an edge.
    EdgeAlreadyExists,
    /// Both ends of the requested edge are the same vertex.
    SelfLoopRejected,
}

/// A vertex of a graph, holding its payload.
pub struct Vertex<V> {
    contents: V,
}

/// One undirected edge, recorded with the endpoints in the order given when
/// it was added.
struct Edge<E> {
    parent: usize,
    child: usize,
    weight: E,
}

/// A reference to a vertex: its position in the vertex store and the stamp
/// of the graph that issued it.  Every operation checks both.
#[derive(Debug, Clone, Copy, PartialEq, Eq, Structural)]
pub struct VRef {
    index: usize,
    owner: u64,
}

/// A reference to an edge: its two endpoints, as given when it was added, and
/// the stamp of the graph that holds it.
#[allow(non_camel_case_types)]
#[derive(Debug, Clone, Copy, PartialEq, Eq, Structural)]
pub struct eIter {
    parent: usize,
    child: usize,
    owner: u64,
}

/// Walks the handles of the vertices that existed when it was made, in
/// index order.
pub struct VIter {
    next_index: usize,
    end: usize,
    owner: u64,
}

/// An undirected graph without self-loops or parallel edges.
pub struct Graph<V, E> {
    tag: u64,
    vertices: Vec<Vertex<V>>,
    edges: Vec<Edge<E>>,
    adj_list: Vec<Vec<usize>>,
}

impl VRef {
    /// The position the handle names.
    pub closed spec fn idx(self) -> int {
        self.index as int
    }

    /// The stamp of the graph that issued the handle.
    pub closed spec fn owner(self) -> u64 {
        self.owner
    }

    /// The position of the vertex in its graph's vertex store.
    pub fn index(&self) -> (r: usize)
        ensures
            r == self.idx(),
    {
        self.index
    }
}

impl eIter {
    /// The first endpoint, as given when the edge was added.
    pub closed spec fn first(self) -> int {
        self.parent as int
    }

    /// The second endpoint, as given when the edge was added.
    pub closed spec fn second(self) -> int {
        self.child as int
    }

    /// The stamp of the graph that holds the edge.
    pub closed spec fn owner(self) -> u64 {
        self.owner
    }
}

impl VIter {
    /// The index of the next handle to hand out.
    pub closed spec fn pos(&self) -> int {
        self.next_index as int
    }

    /// One past the last index to hand out.
    pub closed spec fn end(&self) -> int {
        self.end as int
    }

    /// The stamp of the graph whose vertices are walked.
    pub closed spec fn owner(&self) -> u64 {
        self.owner
    }

    /// The handle of the next vertex, or `None` once the walk is over.
    pub fn next(&mut self) -> (r: Option<VRef>)
        ensures
            final(self).end() == old(self).end(),
            final(self).owner() == old(self).owner(),
            old(self).pos() < old(self).end() ==> {
                &&& r is Some
                &&& r->Some_0.idx() == old(self).pos()
                &&& r->Some_0.owner() == old(self).owner()
                &&& final(self).pos() == old(self).pos() + 1
            },
            old(self).pos() >= old(self).end() ==> r is None && final(self).pos() == old(self).pos(),
    {
        if self.next_index < self.end {
            let h = VRef { index: self.next_index, owner: self.owner };
            self.next_index = self.next_index + 1;
            Some(h)
        } else {
            None
        }
    }
}

impl<V, E> Graph<V, E> {
    /// The stamp of this graph instance, carried by every handle it issues.
    pub closed spec fn tag(&self) -> u64 {
        self.tag
    }

    /// The vertex payloads, by index.
    pub closed spec fn payloads(&self) -> Seq<V> {
        self.vertices@.map_values(|v: Vertex<V>| v.contents)
    }

    /// The endpoints of the edges, in order of insertion.
    pub closed spec fn ends(&self) -> Seq<(int, int)> {
        self.edges@.map_values(|e: Edge<E>| (e.parent as int, e.child as int))
    }

    /// The edge weights, in order of insertion.
    pub closed spec fn weights(&self) -> Seq<E> {
        self.edges@.map_values(|e: Edge<E>| e.weight)
    }

    /// The adjacency lists agree with the edge store.
    pub closed spec fn store_ok(&self) -> bool {
        &&& self.adj_list@.len() == self.vertices@.len()
        &&& forall|i: int|
            0 <= i < self.adj_list@.len() ==> (#[trigger] self.adj_list@[i])@.map_values(
                |k: usize| k as int,
            ) == incident(self.ends(), i)
    }

    /// The graph is well formed: its stores agree, and its edges join
    /// distinct existing vertices, at most one edge per pair.
    pub open spec fn wf(&self) -> bool {
        &&& self.store_ok()
        &&& self.weights().len() == self.ends().len()
        &&& edges_ok(self.ends(), self.nv())
    }

    /// The number of vertices.
    pub open spec fn nv(&self) -> int {
        self.payloads().len() as int
    }

    /// `h` was issued by this graph and names one of its vertices.
    pub open spec fn valid(&self, h: VRef) -> bool {
        h.owner() == self.tag() && 0 <= h.idx() < self.nv()
    }

    /// An edge joins the vertices at `i` and `j`.
    pub open spec fn adj(&self, i: int, j: int) -> bool {
        linked(self.ends(), i, j)
    }

    /// Create a new, empty graph with a fresh stamp.
    pub fn new() -> (r: Self)
        ensures
            r.wf(),
            r.payloads() == Seq::<V>::empty(),
            r.ends() == Seq::<(int, int)>::empty(),
    {
        let r = Graph { tag: fresh_tag(), vertices: Vec::new(), edges: Vec::new(), adj_list: Vec::new() };
        assert(r.payloads() =~= Seq::<V>::empty());
        assert(r.ends() =~= Seq::<(int, int)>::empty());
        r
    }

    /// `post` and `r` are what adding a vertex holding `v` leaves and returns.
    pub open spec fn vertex_added(&self, post: Self, v: V, r: VRef) -> bool {
        &&& post.wf()
        &&& post.tag() == self.tag()
        &&& post.payloads() == self.payloads().push(v)
        &&& post.ends() == self.ends()
        &&& post.weights() == self.weights()
        &&& r.idx() == self.nv()
        &&& r.owner() == self.tag()
    }

    /// Append a vertex holding `v` and return its handle.
    pub fn add_vertex(&mut self, v: V) -> (r: VRef)
        requires
            old(self).wf(),
        ensures
            old(self).vertex_added(*final(self), v, r),
    {
        let ghost ends = self.ends();
        let index = self.vertices.len();
        self.vertices.push(Vertex { contents: v });
        self.adj_list.push(Vec::new());
        assert(self.payloads() =~= old(self).payloads().push(v));
        assert(self.ends() == ends);
        proof {
            let n = self.adj_list@.len() - 1;
            assert forall|k: int| 0 <= k < ends.len() implies !touches(ends[k], n) by {
                assert(ends[k] == (#[trigger] self.edges@[k].parent as int, self.edges@[k].child as int));
            }
            assert forall|k: int| !(#[trigger] incident(ends, n).contains(k)) by {
                lemma_incident_contains(ends, n, k);
            }
            assert(incident(ends, n).len() == 0) by {
                if incident(ends, n).len() > 0 {
                    assert(incident(ends, n).contains(incident(ends, n)[0]));
                }
            }
            assert(self.adj_list@[n]@.map_values(|k: usize| k as int) =~= incident(ends, n));
            assert forall|i: int| 0 <= i < self.adj_list@.len() implies (#[trigger] self.adj_list@[i])@.map_values(
                |k: usize| k as int,
            ) == incident(self.ends(), i) by {
                if i < n {
                    assert(self.adj_list@[i] == old(self).adj_list@[i]);
                }
            }
        }
        VRef { index, owner: self.tag }
    }

    /// The number of vertices.
    pub fn num_vertices(&self) -> (r: usize)
        requires
            self.wf(),
        ensures
            r == self.nv(),
    {
        self.vertices.len()
    }

    /// The number of edges, each undirected edge counted once.
    pub fn num_edges(&self) -> (r: usize)
        requires
            self.wf(),
        ensures
            r == self.ends().len(),
    {
        self.edges.len()
    }

    fn check(&self, h: &VRef) -> (r: bool)
        requires
            self.wf(),
        ensures
            r == self.valid(*h),
    {
        h.owner == self.tag && h.index < self.vertices.len()
    }

    /// The payload of the vertex that `h` names.
    pub fn get(&self, h: &VRef) -> (r: Result<&V, GraphError>)
        requires
            self.wf(),
        ensures
            self.valid(*h) ==> r == Ok::<&V, GraphError>(&self.payloads()[h.idx()]),
            !self.valid(*h) ==> r == Err::<&V, GraphError>(GraphError::InvalidHandle),
    {
        if self.check(h) {
            Ok(&self.vertices[h.index].contents)
        } else {
            Err(GraphError::InvalidHandle)
        }
    }

    /// `post` and `r` are what putting `value` in the vertex `h` names leaves and returns.
    pub open spec fn vertex_replaced(&self, post: Self, h: VRef, value: V, r: Result<V, GraphError>) -> bool {
        &&& post.wf()
        &&& post.tag() == self.tag()
        &&& post.ends() == self.ends()
        &&& post.weights() == self.weights()
        &&& self.valid(h) ==> {
            &&& r == Ok::<V, GraphError>(self.payloads()[h.idx()])
            &&& post.payloads() == self.payloads().update(h.idx(), value)
        }
        &&& !self.valid(h) ==> {
            &&& r == Err::<V, GraphError>(GraphError::InvalidHandle)
            &&& post.payloads() == self.payloads()
        }
    }

    /// Put `value` in the vertex that `h` names and return the payload it held.
    pub fn replace_vertex(&mut self, h: &VRef, value: V) -> (r: Result<V, GraphError>)
        requires
            old(self).wf(),
        ensures
            old(self).vertex_replaced(*final(self), *h, value, r),
    {
        if !self.check(h) {
            return Err(GraphError::InvalidHandle);
        }
        let ghost given = value;
        let mut value = value;
        std::mem::swap(&mut self.vertices[h.index].contents, &mut value);
        assert(self.payloads() =~= old(self).payloads().update(h.idx(), given));
        assert(self.ends() =~= old(self).ends());
        assert(self.weights() =~= old(self).weights());
        Ok(value)
    }

    /// Why adding an edge between `h1` and `h2` is refused, if it is.
    pub open spec fn edge_error(&self, h1: VRef, h2: VRef) -> Option<GraphError> {
        if !self.valid(h1) || !self.valid(h2) {
            Some(GraphError::InvalidHandle)
        } else if h1.idx() == h2.idx() {
            Some(GraphError::SelfLoopRejected)
        } else if self.adj(h1.idx(), h2.idx()) {
            Some(GraphError::EdgeAlreadyExists)
        } else {
            None
        }
    }

    /// The position of the edge that joins `i` and `j`.
    pub open spec fn edge_at(&self, i: int, j: int) -> int {
        choose|k: int| 0 <= k < self.ends().len() && #[trigger] joins(self.ends()[k], i, j)
    }

    proof fn lemma_edge_unique(&self, i: int, j: int, k: int)
        requires
            self.wf(),
            0 <= k < self.ends().len(),
            joins(self.ends()[k], i, j),
        ensures
            self.adj(i, j),
            self.edge_at(i, j) == k,
    {
        let c = self.edge_at(i, j);
        assert(joins(self.ends()[c], i, j));
        if c < k {
            assert(!joins(self.ends()[c], self.ends()[k].0, self.ends()[k].1));
        } else if k < c {
            assert(!joins(self.ends()[k], self.ends()[c].0, self.ends()[c].1));
        }
    }

    proof fn lemma_ends_index(&self, k: int)
        requires
            0 <= k < self.edges@.len(),
        ensures
            self.ends().len() == self.edges@.len(),
            self.ends()[k] == (self.edges@[k].parent as int, self.edges@[k].child as int),
    {
    }

    /// The position of the edge between vertices `i` and `j`, if there is one.
    fn find_edge(&self, i: usize, j: usize) -> (r: Option<usize>)
        requires
            self.wf(),
            i < self.nv(),
        ensures
            r is None ==> !self.adj(i as int, j as int),
            r is Some ==> r->Some_0 < self.ends().len() && joins(self.ends()[r->Some_0 as int], i as int, j as int),
    {
        let ghost ends = self.ends();
        let bucket = &self.adj_list[i];
        proof {
            lemma_incident_bounds(ends, i as int);
            assert(bucket@.map_values(|k: usize| k as int) == incident(ends, i as int));
        }
        let mut m: usize = 0;
        while m < bucket.len()
            invariant
                self.wf(),
                i < self.nv(),
                ends == self.ends(),
                bucket == self.adj_list@[i as int],
                bucket@.map_values(|k: usize| k as int) == incident(ends, i as int),
                m <= bucket@.len(),
                forall|m2: int| 0 <= m2 < m ==> other(ends[#[trigger] bucket@[m2] as int], i as int) != j,
                forall|q: int|
                    0 <= q < incident(ends, i as int).len() ==> {
                        &&& 0 <= #[trigger] incident(ends, i as int)[q] < ends.len()
                        &&& touches(ends[incident(ends, i as int)[q]], i as int)
                    },
            decreases bucket@.len() - m,
        {
            let k = bucket[m];
            assert(incident(ends, i as int)[m as int] == k as int);
            proof {
                self.lemma_ends_index(k as int);
            }
            let e = &self.edges[k];
            let o = if e.parent == i { e.child } else { e.parent };
            if o == j {
                return Some(k);
            }
            m = m + 1;
        }
        proof {
            if self.adj(i as int, j as int) {
                let k = choose|k: int| 0 <= k < ends.len() && #[trigger] joins(ends[k], i as int, j as int);
                lemma_incident_contains(ends, i as int, k);
                let q = choose|q: int| 0 <= q < incident(ends, i as int).len() && incident(ends, i as int)[q] == k;
                assert(bucket@[q] as int == k);
                assert(other(ends[bucket@[q] as int], i as int) == j);
            }
        }
        None
    }

    /// Whether an edge joins the vertices that `h1` and `h2` name.
    pub fn adjacent(&self, h1: &VRef, h2: &VRef) -> (r: Result<bool, GraphError>)
        requires
            self.wf(),
        ensures
            self.valid(*h1) && self.valid(*h2) ==> r == Ok::<bool, GraphError>(self.adj(h1.idx(), h2.idx())),
            !(self.valid(*h1) && self.valid(*h2)) ==> r == Err::<bool, GraphError>(GraphError::InvalidHandle),
    {
        if !self.check(h1) || !self.check(h2) {
            return Err(GraphError::InvalidHandle);
        }
        let found = self.find_edge(h1.index, h2.index);
        proof {
            if found is Some {
                self.lemma_edge_unique(h1.idx(), h2.idx(), found->Some_0 as int);
            }
        }
        Ok(found.is_some())
    }

    /// `post` and `r` are what adding an edge of weight `value` between the vertices `h1` and `h2` name leaves and returns.
    pub open spec fn edge_added(&self, post: Self, h1: VRef, h2: VRef, value: E, r: Result<eIter, GraphError>) -> bool {
        &&& post.wf()
        &&& post.tag() == self.tag()
        &&& post.payloads() == self.payloads()
        &&& match self.edge_error(h1, h2) {
            Some(e) => {
                &&& r == Err::<eIter, GraphError>(e)
                &&& post.ends() == self.ends()
                &&& post.weights() == self.weights()
            },
            None => {
                &&& r is Ok
                &&& r->Ok_0.first() == h1.idx()
                &&& r->Ok_0.second() == h2.idx()
                &&& r->Ok_0.owner() == self.tag()
                &&& post.ends() == self.ends().push((h1.idx(), h2.idx()))
                &&& post.weights() == self.weights().push(value)
            },
        }
    }

    /// Join the vertices that `h1` and `h2` name by an edge of weight `value`,
    /// unless that is refused; a refusal changes nothing.
    pub fn add_edge(&mut self, h1: &VRef, h2: &VRef, value: E) -> (r: Result<eIter, GraphError>)
        requires
            old(self).wf(),
        ensures
            old(self).edge_added(*final(self), *h1, *h2, value, r),
    {
        if !self.check(h1) || !self.check(h2) {
            return Err(GraphError::InvalidHandle);
        }
        let a = h1.index;
        let b = h2.index;
        if a == b {
            return Err(GraphError::SelfLoopRejected);
        }
        let found = self.find_edge(a, b);
        if found.is_some() {
            proof {
                self.lemma_edge_unique(a as int, b as int, found->Some_0 as int);
            }
            return Err(GraphError::EdgeAlreadyExists);
        }
        let ghost ends = self.ends();
        let ghost n = self.nv();
        let k = self.edges.len();
        self.edges.push(Edge { parent: a, child: b, weight: value });
        self.adj_list[a].push(k);
        self.adj_list[b].push(k);
        proof {
            let e = (a as int, b as int);
            let ends2 = self.ends();
            assert(ends2 =~= ends.push(e));
            assert(self.weights() =~= old(self).weights().push(value));
            assert(self.payloads() == old(self).payloads());
            assert forall|x: int| 0 <= x < self.adj_list@.len() implies (#[trigger] self.adj_list@[x])@.map_values(
                |q: usize| q as int,
            ) == incident(ends2, x) by {
                lemma_incident_push(ends, e, x);
                assert(old(self).adj_list@[x]@.map_values(|q: usize| q as int) == incident(ends, x));
                if x == a || x == b {
                    assert(self.adj_list@[x]@ == old(self).adj_list@[x]@.push(k));
                    assert(self.adj_list@[x]@.map_values(|q: usize| q as int) =~= incident(ends, x).push(k as int));
                } else {
                    assert(self.adj_list@[x] == old(self).adj_list@[x]);
                }
            }
            assert forall|k1: int, k2: int| 0 <= k1 < k2 < ends2.len() implies !joins(
                #[trigger] ends2[k1],
                (#[trigger] ends2[k2]).0,
                ends2[k2].1,
            ) by {
                if k2 == ends.len() {
                    assert(ends2[k1] == ends[k1]);
                    if joins(ends[k1], a as int, b as int) {
                        assert(self.adj(a as int, b as int) || linked(ends, a as int, b as int));
                    }
                } else {
                    assert(ends2[k1] == ends[k1] && ends2[k2] == ends[k2]);
                }
            }
            assert forall|q: int| 0 <= q < ends2.len() implies {
                &&& 0 <= (#[trigger] ends2[q]).0 < n
                &&& 0 <= ends2[q].1 < n
                &&& ends2[q].0 != ends2[q].1
            } by {
                if q < ends.len() {
                    assert(ends2[q] == ends[q]);
                }
            }
        }
        Ok(eIter { parent: a, child: b, owner: self.tag })
    }

    /// `e` was issued by this graph and names one of its edges.
    pub open spec fn valid_edge(&self, e: eIter) -> bool {
        &&& e.owner() == self.tag()
        &&& 0 <= e.first() < self.nv()
        &&& 0 <= e.second() < self.nv()
        &&& self.adj(e.first(), e.second())
    }

    /// The weight of the edge that `e` names.
    pub fn edge_weight(&self, e: &eIter) -> (r: Result<&E, GraphError>)
        requires
            self.wf(),
        ensures
            self.valid_edge(*e) ==> r == Ok::<&E, GraphError>(&self.weights()[self.edge_at(e.first(), e.second())]),
            !self.valid_edge(*e) ==> r == Err::<&E, GraphError>(GraphError::InvalidHandle),
    {
        if e.owner != self.tag || e.parent >= self.vertices.len() || e.child >= self.vertices.len() {
            return Err(GraphError::InvalidHandle);
        }
        match self.find_edge(e.parent, e.child) {
            None => Err(GraphError::InvalidHandle),
            Some(k) => {
                proof {
                    self.lemma_edge_unique(e.first(), e.second(), k as int);
                    self.lemma_ends_index(k as int);
                }
                Ok(&self.edges[k].weight)
            },
        }
    }

    /// Put `value` on the edge between the vertices that `h1` and `h2` name and
    /// return the weight it held; where no such edge exists, `value` is
    /// dropped and nothing changes.
    pub fn replace_edge(&mut self, h1: &VRef, h2: &VRef, value: E) -> (r: Result<Option<E>, GraphError>)
        requires
            old(self).wf(),
        ensures
            final(self).wf(),
            final(self).tag() == old(self).tag(),
            final(self).payloads() == old(self).payloads(),
            final(self).ends() == old(self).ends(),
            !(old(self).valid(*h1) && old(self).valid(*h2)) ==> {
                &&& r == Err::<Option<E>, GraphError>(GraphError::InvalidHandle)
                &&& final(self).weights() == old(self).weights()
            },
            old(self).valid(*h1) && old(self).valid(*h2) && !old(self).adj(h1.idx(), h2.idx()) ==> {
                &&& r == Ok::<Option<E>, GraphError>(None)
                &&& final(self).weights() == old(self).weights()
            },
            old(self).valid(*h1) && old(self).valid(*h2) && old(self).adj(h1.idx(), h2.idx()) ==> {
                let k = old(self).edge_at(h1.idx(), h2.idx());
                &&& r == Ok::<Option<E>, GraphError>(Some(old(self).weights()[k]))
                &&& final(self).weights() == old(self).weights().update(k, value)
            },
    {
        if !self.check(h1) || !self.check(h2) {
            return Err(GraphError::InvalidHandle);
        }
        match self.find_edge(h1.index, h2.index) {
            None => Ok(None),
            Some(k) => {
                proof {
                    self.lemma_edge_unique(h1.idx(), h2.idx(), k as int);
                }
                let ghost given = value;
                let mut value = value;
                std::mem::swap(&mut self.edges[k].weight, &mut value);
                assert(self.ends() =~= old(self).ends());
                assert(self.weights() =~= old(self).weights().update(k as int, given));
                assert(self.payloads() == old(self).payloads());
                assert(self.adj_list == old(self).adj_list);
                Ok(Some(value))
            },
        }
    }

    /// The handles of the vertices adjacent to the one `h` names, one for each
    /// edge that touches it, in the order in which the edges were added.
    pub fn get_neighbors(&self, h: &VRef) -> (r: Result<Vec<VRef>, GraphError>)
        requires
            self.wf(),
        ensures
            !self.valid(*h) ==> r == Err::<Vec<VRef>, GraphError>(GraphError::InvalidHandle),
            self.valid(*h) ==> {
                &&& r is Ok
                &&& r->Ok_0@.len() == neighbors(self.ends(), h.idx()).len()
                &&& forall|m: int|
                    0 <= m < r->Ok_0@.len() ==> {
                        &&& (#[trigger] r->Ok_0@[m]).idx() == neighbors(self.ends(), h.idx())[m]
                        &&& r->Ok_0@[m].owner() == self.tag()
                    }
            },
    {
        if !self.check(h) {
            return Err(GraphError::InvalidHandle);
        }
        let i = h.index;
        let ghost ends = self.ends();
        let bucket = &self.adj_list[i];
        proof {
            lemma_incident_bounds(ends, i as int);
            assert(bucket@.map_values(|k: usize| k as int) == incident(ends, i as int));
        }
        let mut out: Vec<VRef> = Vec::new();
        let mut m: usize = 0;
        while m < bucket.len()
            invariant
                self.wf(),
                i < self.nv(),
                ends == self.ends(),
                bucket == self.adj_list@[i as int],
                bucket@.map_values(|k: usize| k as int) == incident(ends, i as int),
                m <= bucket@.len(),
                out@.len() == m,
                forall|m2: int|
                    0 <= m2 < m ==> {
                        &&& (#[trigger] out@[m2]).idx() == neighbors(ends, i as int)[m2]
                        &&& out@[m2].owner() == self.tag()
                    },
                forall|q: int|
                    0 <= q < incident(ends, i as int).len() ==> {
                        &&& 0 <= #[trigger] incident(ends, i as int)[q] < ends.len()
                        &&& touches(ends[incident(ends, i as int)[q]], i as int)
                    },
            decreases bucket@.len() - m,
        {
            let k = bucket[m];
            assert(incident(ends, i as int)[m as int] == k as int);
            proof {
                self.lemma_ends_index(k as int);
            }
            let e = &self.edges[k];
            let o = if e.parent == i { e.child } else { e.parent };
            out.push(VRef { index: o, owner: self.tag });
            m = m + 1;
        }
        Ok(out)
    }

    /// The Laplacian entry in row `i`, column `j`.
    pub open spec fn laplacian_entry(&self, i: int, j: int) -> int {
        laplacian_at(self.ends(), i, j)
    }

    /// The number of connected components; each isolated vertex is one.
    pub open spec fn component_count(&self) -> int {
        components(self.ends(), self.nv())
    }

    /// The adjacency matrix, row by row: entry `(i, j)` stands at
    /// `i * n + j` and is 1 where an edge joins `i` and `j`, else 0.
    pub fn get_adjacency_matrix(&self) -> (r: Vec<usize>)
        requires
            self.wf(),
        ensures
            r@.len() == self.nv() * self.nv(),
            forall|i: int, j: int|
                0 <= i < self.nv() && 0 <= j < self.nv() ==> #[trigger] r@[i * self.nv() + j] == if self.adj(i, j) {
                    1usize
                } else {
                    0usize
                },
    {
        let n = self.vertices.len();
        let ghost nn = n as int;
        let mut out: Vec<usize> = Vec::new();
        let mut i: usize = 0;
        while i < n
            invariant
                self.wf(),
                n == self.nv(),
                nn == n,
                i <= n,
                out@.len() == i * nn,
                forall|i2: int, j2: int|
                    0 <= i2 < i && 0 <= j2 < nn ==> #[trigger] out@[i2 * nn + j2] == if self.adj(i2, j2) {
                        1usize
                    } else {
                        0usize
                    },
            decreases n - i,
        {
            let ghost start = out@;
            let mut j: usize = 0;
            while j < n
                invariant
                    self.wf(),
                    n == self.nv(),
                    nn == n,
                    i < n,
                    j <= n,
                    out@.len() == i * nn + j,
                    start.len() == i * nn,
                    forall|q: int| 0 <= q < i * nn ==> #[trigger] out@[q] == start[q],
                    forall|j2: int|
                        0 <= j2 < j ==> #[trigger] out@[i * nn + j2] == if self.adj(i as int, j2) {
                            1usize
                        } else {
                            0usize
                        },
                decreases n - j,
            {
                let found = self.find_edge(i, j);
                proof {
                    if found is Some {
                        self.lemma_edge_unique(i as int, j as int, found->Some_0 as int);
                    }
                }
                if found.is_some() {
                    out.push(1);
                } else {
                    out.push(0);
                }
                j = j + 1;
            }
            proof {
                assert((i + 1) * nn == i * nn + nn) by (nonlinear_arith);
                assert forall|i2: int, j2: int| 0 <= i2 < i + 1 && 0 <= j2 < nn implies #[trigger] out@[i2 * nn + j2]
                    == if self.adj(i2, j2) {
                    1usize
                } else {
                    0usize
                } by {
                    if i2 < i {
                        assert(i2 * nn + j2 < i * nn) by (nonlinear_arith)
                            requires
                                i2 < i as int,
                                0 <= j2 < nn,
                                0 <= i2,
                        ;
                        assert(out@[i2 * nn + j2] == start[i2 * nn + j2]);
                    }
                }
            }
            i = i + 1;
        }
        out
    }

    /// The Laplacian matrix: degrees on the diagonal, -1 for each pair of
    /// adjacent vertices, 0 elsewhere.
    pub fn get_laplacian(&self) -> (r: Vec<Vec<isize>>)
        requires
            self.wf(),
            self.ends().len() <= isize::MAX,
        ensures
            r@.len() == self.nv(),
            forall|i: int| 0 <= i < self.nv() ==> (#[trigger] r@[i])@.len() == self.nv(),
            forall|i: int, j: int|
                0 <= i < self.nv() && 0 <= j < self.nv() ==> #[trigger] r@[i]@[j] == self.laplacian_entry(i, j),
    {
        let n = self.vertices.len();
        let mut out: Vec<Vec<isize>> = Vec::new();
        let mut i: usize = 0;
        while i < n
            invariant
                self.wf(),
                self.ends().len() <= isize::MAX,
                n == self.nv(),
                i <= n,
                out@.len() == i,
                forall|i2: int| 0 <= i2 < i ==> (#[trigger] out@[i2])@.len() == n,
                forall|i2: int, j2: int|
                    0 <= i2 < i && 0 <= j2 < n ==> #[trigger] out@[i2]@[j2] == self.laplacian_entry(i2, j2),
            decreases n - i,
        {
            let degree = self.adj_list[i].len();
            proof {
                assert(self.adj_list@[i as int]@.map_values(|k: usize| k as int) == incident(self.ends(), i as int));
                assert(self.adj_list@[i as int]@.len() == incident(self.ends(), i as int).len());
                lemma_incident_len(self.ends(), i as int);
            }
            let mut row: Vec<isize> = Vec::new();
            let mut j: usize = 0;
            while j < n
                invariant
                    self.wf(),
                    n == self.nv(),
                    i < n,
                    j <= n,
                    degree == neighbors(self.ends(), i as int).len(),
                    degree <= isize::MAX,
                    row@.len() == j,
                    forall|j2: int| 0 <= j2 < j ==> #[trigger] row@[j2] == self.laplacian_entry(i as int, j2),
                decreases n - j,
            {
                if j == i {
                    row.push(degree as isize);
                } else {
                    let found = self.find_edge(i, j);
                    proof {
                        if found is Some {
                            self.lemma_edge_unique(i as int, j as int, found->Some_0 as int);
                        }
                    }
                    if found.is_some() {
                        row.push(-1);
                    } else {
                        row.push(0);
                    }
                }
                j = j + 1;
            }
            out.push(row);
            i = i + 1;
        }
        out
    }

    /// The number of connected components of the graph.
    pub fn num_components(&self) -> (r: usize)
        requires
            self.wf(),
        ensures
            r == self.component_count(),
    {
        let n = self.vertices.len();
        let ghost ends = self.ends();
        let mut labels: Vec<usize> = Vec::new();
        let mut x: usize = 0;
        while x < n
            invariant
                n == self.nv(),
                x <= n,
                labels@.len() == x,
                forall|x2: int| 0 <= x2 < x ==> #[trigger] labels@[x2] == x2,
            decreases n - x,
        {
            labels.push(x);
            x = x + 1;
        }
        proof {
            lemma_labels_start(ends, n as int, labels@);
        }
        let m = self.edges.len();
        let mut k: usize = 0;
        while k < m
            invariant
                self.wf(),
                ends == self.ends(),
                n == self.nv(),
                m == ends.len(),
                k <= m,
                labels_ok(ends, k as int, n as int, labels@),
            decreases m - k,
        {
            proof {
                self.lemma_ends_index(k as int);
            }
            let a = self.edges[k].parent;
            let b = self.edges[k].child;
            let la = labels[a];
            let lb = labels[b];
            if la == lb {
                proof {
                    lemma_labels_keep(ends, k as int, n as int, labels@);
                }
            } else {
                let lo = if la < lb { la } else { lb };
                let hi = if la < lb { lb } else { la };
                let ghost before = labels@;
                let mut y: usize = 0;
                while y < n
                    invariant
                        n == before.len(),
                        labels@.len() == n,
                        y <= n,
                        forall|y2: int|
                            0 <= y2 < y ==> #[trigger] labels@[y2] == if before[y2] == hi {
                                lo
                            } else {
                                before[y2]
                            },
                        forall|y2: int| y <= y2 < n ==> #[trigger] labels@[y2] == before[y2],
                    decreases n - y,
                {
                    if labels[y] == hi {
                        labels.set(y, lo);
                    }
                    y = y + 1;
                }
                proof {
                    lemma_labels_merge(ends, k as int, n as int, before, labels@, lo, hi);
                }
            }
            k = k + 1;
        }
        let ghost reps = |v: int| is_rep(ends, n as int, v);
        let mut count: usize = 0;
        let mut x: usize = 0;
        while x < n
            invariant
                n == self.nv(),
                m == ends.len(),
                labels_ok(ends, m as int, n as int, labels@),
                x <= n,
                count <= x,
                count == count_true(reps, x as int),
                reps == (|v: int| is_rep(ends, n as int, v)),
                ends == self.ends(),
            decreases n - x,
        {
            proof {
                lemma_labels_rep(ends, n as int, labels@, x as int);
                assert(reps(x as int) == is_rep(ends, n as int, x as int));
                assert(count_true(reps, x + 1) == count_true(reps, x as int) + if reps(x as int) {
                    1int
                } else {
                    0int
                });
            }
            if labels[x] == x {
                count = count + 1;
            }
            x = x + 1;
        }
        count
    }

    /// The handles of all vertices present now, in index order.
    pub fn vertices(&self) -> (r: VIter)
        requires
            self.wf(),
        ensures
            r.pos() == 0,
            r.end() == self.nv(),
            r.owner() == self.tag(),
    {
        VIter { next_index: 0, end: self.vertices.len(), owner: self.tag }
    }
}

impl<V: Copy + Eq, E: Default> Graph<V, E> {
    /// The position of the last vertex whose payload equals `x`.
    fn find_payload(&self, x: &V) -> (r: Option<usize>)
        requires
            self.wf(),
            vstd::laws_eq::obeys_concrete_eq::<V>(),
        ensures
            r is Some ==> r->Some_0 == last_index(self.payloads(), *x),
            r is None ==> last_index(self.payloads(), *x) == -1,
    {
        let ghost p = self.payloads();
        let mut m: usize = self.vertices.len();
        while m > 0
            invariant
                p == self.payloads(),
                vstd::laws_eq::obeys_concrete_eq::<V>(),
                m <= p.len(),
                forall|k: int| m <= k < p.len() ==> p[k] != *x,
            decreases m,
        {
            let k = m - 1;
            proof {
                reveal(vstd::laws_eq::obeys_concrete_eq);
            }
            assert(p[k as int] == self.vertices@[k as int].contents);
            if self.vertices[k].contents == *x {
                proof {
                    lemma_last_index_found(p, *x, k as int);
                }
                return Some(k);
            }
            m = k;
        }
        proof {
            lemma_last_index_absent(p, *x);
        }
        None
    }

    /// The vertex holding `x`: the last one found, or a new one whose handle
    /// is appended to `created`.
    fn vertex_for(&mut self, x: V, created: &mut Vec<VRef>, Ghost(base): Ghost<int>) -> (r: usize)
        requires
            old(self).wf(),
            vstd::laws_eq::obeys_concrete_eq::<V>(),
            0 <= base <= old(self).nv(),
            old(created)@.len() == old(self).nv() - base,
            forall|m: int|
                0 <= m < old(created)@.len() ==> (#[trigger] old(created)@[m]).idx() == base + m
                    && old(created)@[m].owner() == old(self).tag(),
        ensures
            final(self).wf(),
            final(self).tag() == old(self).tag(),
            final(self).payloads() == with_payload(old(self).payloads(), x),
            final(self).ends() == old(self).ends(),
            final(self).weights() == old(self).weights(),
            r == last_index(final(self).payloads(), x),
            final(created)@.len() == final(self).nv() - base,
            forall|m: int|
                0 <= m < final(created)@.len() ==> (#[trigger] final(created)@[m]).idx() == base + m
                    && final(created)@[m].owner() == old(self).tag(),
    {
        match self.find_payload(&x) {
            Some(k) => k,
            None => {
                let h = self.add_vertex(x);
                created.push(h);
                proof {
                    lemma_last_index_found(self.payloads(), x, h.idx());
                }
                h.index
            },
        }
    }

    /// `post` and `r` are what taking in the pairs `edges` leaves and returns.
    pub open spec fn pairs_taken(&self, post: Self, edges: Seq<(V, V)>, r: Seq<VRef>) -> bool {
        &&& post.wf()
        &&& post.tag() == self.tag()
        &&& (post.payloads(), post.ends()) == bulk((self.payloads(), self.ends()), edges)
        &&& forall|k: int| 0 <= k < self.weights().len() ==> #[trigger] post.weights()[k] == self.weights()[k]
        &&& r.len() == post.nv() - self.nv()
        &&& forall|m: int|
            0 <= m < r.len() ==> (#[trigger] r[m]).idx() == self.nv() + m && r[m].owner() == self.tag()
    }

    /// Take in each pair of payloads in order: a payload equal to no vertex's
    /// becomes a new vertex, and the two vertices are joined by an edge of
    /// default weight unless they coincide or are joined already.  Returns
    /// the handles of the new vertices, in order of creation.
    pub fn extend_with_edges(&mut self, edges: &Vec<(V, V)>) -> (r: Vec<VRef>)
        requires
            old(self).wf(),
            vstd::laws_eq::obeys_concrete_eq::<V>(),
        ensures
            old(self).pairs_taken(*final(self), edges@, r@),
    {
        let ghost start = (self.payloads(), self.ends());
        let ghost base = self.nv();
        let ghost w0 = self.weights();
        let mut created: Vec<VRef> = Vec::new();
        let mut t: usize = 0;
        while t < edges.len()
            invariant
                self.wf(),
                vstd::laws_eq::obeys_concrete_eq::<V>(),
                self.tag() == old(self).tag(),
                start == (old(self).payloads(), old(self).ends()),
                base == old(self).nv(),
                w0 == old(self).weights(),
                t <= edges@.len(),
                (self.payloads(), self.ends()) == bulk(start, edges@.take(t as int)),
                base <= self.nv(),
                w0.len() <= self.weights().len(),
                forall|k: int| 0 <= k < w0.len() ==> #[trigger] self.weights()[k] == w0[k],
                created@.len() == self.nv() - base,
                forall|m: int|
                    0 <= m < created@.len() ==> (#[trigger] created@[m]).idx() == base + m && created@[m].owner()
                        == self.tag(),
            decreases edges@.len() - t,
        {
            let ghost before = (self.payloads(), self.ends());
            let ghost wb = self.weights();
            let (u, v) = edges[t];
            let iu = self.vertex_for(u, &mut created, Ghost(base));
            let ghost p1 = self.payloads();
            let iv = self.vertex_for(v, &mut created, Ghost(base));
            proof {
                lemma_with_payload_keeps(p1, v, u);
                lemma_last_index_range(self.payloads(), u);
                lemma_last_index_range(self.payloads(), v);
                lemma_last_index_range(p1, u);
            }
            let tag = self.tag;
            let _ = self.add_edge(&VRef { index: iu, owner: tag }, &VRef { index: iv, owner: tag }, E::default());
            proof {
                assert(edges@.take(t + 1).drop_last() =~= edges@.take(t as int));
                assert(edges@.take(t + 1).last() == edges@[t as int]);
                assert((self.payloads(), self.ends()) == bulk_step(before, edges@[t as int]));
                assert forall|k: int| 0 <= k < w0.len() implies #[trigger] self.weights()[k] == w0[k] by {
                    assert(self.weights()[k] == wb[k]);
                }
            }
            t = t + 1;
        }
        assert(edges@.take(edges@.len() as int) =~= edges@);
        created
    }

    /// A graph built from the pairs of payloads, as `extend_with_edges` does
    /// on an empty graph.
    pub fn new_from_edges(edges: &Vec<(V, V)>) -> (r: Self)
        requires
            vstd::laws_eq::obeys_concrete_eq::<V>(),
        ensures
            r.wf(),
            (r.payloads(), r.ends()) == bulk((Seq::<V>::empty(), Seq::<(int, int)>::empty()), edges@),
    {
        let mut g = Graph::new();
        let _ = g.extend_with_edges(edges);
        g
    }
}

/// Replacing the payload of a vertex just added hands back the payload it
/// was added with, and the vertex then holds the new one.
pub proof fn lemma_vertex_round_trip<V, E>(
    g0: Graph<V, E>,
    g1: Graph<V, E>,
    g2: Graph<V, E>,
    v: V,
    v2: V,
    h: VRef,
    r: Result<V, GraphError>,
)
    requires
        g0.wf(),
        g0.vertex_added(g1, v, h),
        g1.vertex_replaced(g2, h, v2, r),
    ensures
        r == Ok::<V, GraphError>(v),
        g2.payloads()[h.idx()] == v2,
{
}

/// Adjacency does not depend on the order of the two vertices.
pub proof fn lemma_adjacent_symmetric<V, E>(g: Graph<V, E>, h1: VRef, h2: VRef)
    requires
        g.wf(),
        g.valid(h1),
        g.valid(h2),
    ensures
        g.adj(h1.idx(), h2.idx()) == g.adj(h2.idx(), h1.idx()),
{
    let i = h1.idx();
    let j = h2.idx();
    if g.adj(i, j) {
        let k = choose|k: int| 0 <= k < g.ends().len() && #[trigger] joins(g.ends()[k], i, j);
        assert(joins(g.ends()[k], j, i));
    }
    if g.adj(j, i) {
        let k = choose|k: int| 0 <= k < g.ends().len() && #[trigger] joins(g.ends()[k], j, i);
        assert(joins(g.ends()[k], i, j));
    }
}

/// Adding the same edge twice: the second call is always refused, and where
/// the first is accepted the second reports the existing edge, so the edge
/// count grows by exactly one.
pub proof fn lemma_no_duplicate_edges<V, E>(
    g0: Graph<V, E>,
    g1: Graph<V, E>,
    g2: Graph<V, E>,
    h1: VRef,
    h2: VRef,
    w1: E,
    w2: E,
    r1: Result<eIter, GraphError>,
    r2: Result<eIter, GraphError>,
)
    requires
        g0.wf(),
        g0.edge_added(g1, h1, h2, w1, r1),
        g1.edge_added(g2, h1, h2, w2, r2),
    ensures
        r2 is Err,
        g0.edge_error(h1, h2) is None ==> {
            &&& r1 is Ok
            &&& r2 == Err::<eIter, GraphError>(GraphError::EdgeAlreadyExists)
            &&& g2.ends().len() == g0.ends().len() + 1
        },
{
    if g0.edge_error(h1, h2) is None {
        let k = g0.ends().len() as int;
        assert(joins(g1.ends()[k], h1.idx(), h2.idx()));
    }
}

/// Every row of the Laplacian sums to zero.
pub proof fn lemma_laplacian_rows_sum_to_zero<V, E>(g: Graph<V, E>, i: int)
    requires
        g.wf(),
        0 <= i < g.nv(),
    ensures
        sum_of(|j: int| g.laplacian_entry(i, j), g.nv()) == 0,
{
    lemma_laplacian_row_sum(g.ends(), g.nv(), i);
    assert((|j: int| g.laplacian_entry(i, j)) =~= (|j: int| laplacian_at(g.ends(), i, j)));
}

/// Taking in the same pairs a second time creates no vertex and no edge.
pub proof fn lemma_bulk_idempotent<V: Copy + Eq, E: Default>(
    g0: Graph<V, E>,
    g1: Graph<V, E>,
    g2: Graph<V, E>,
    pairs: Seq<(V, V)>,
    r1: Seq<VRef>,
    r2: Seq<VRef>,
)
    requires
        g0.wf(),
        g0.pairs_taken(g1, pairs, r1),
        g1.pairs_taken(g2, pairs, r2),
    ensures
        r2.len() == 0,
        g2.nv() == g1.nv(),
        g2.ends().len() == g1.ends().len(),
{
    lemma_bulk_closed((g0.payloads(), g0.ends()), pairs);
    lemma_bulk_fixed((g1.payloads(), g1.ends()), pairs);
}

/// A graph of one vertex and no edge has one component.
pub proof fn lemma_isolated_vertex<V, E>(g: Graph<V, E>)
    requires
        g.wf(),
        g.nv() == 1,
        g.ends().len() == 0,
    ensures
        g.component_count() == 1,
{
    assert(is_rep(g.ends(), 1, 0));
    assert(count_true(|v: int| is_rep(g.ends(), 1, v), 0) == 0);
}

/// A handle issued by one graph is refused by another, which is left as it
/// was.
pub proof fn lemma_foreign_handle_rejected<V, E>(
    g1: Graph<V, E>,
    g2: Graph<V, E>,
    g3: Graph<V, E>,
    h1: VRef,
    h2: VRef,
    w: E,
    r: Result<eIter, GraphError>,
)
    requires
        g1.valid(h1),
        g1.tag() != g2.tag(),
        g2.wf(),
        g2.edge_added(g3, h1, h2, w, r),
    ensures
        r == Err::<eIter, GraphError>(GraphError::InvalidHandle),
        g3.tag() == g2.tag(),
        g3.payloads() == g2.payloads(),
        g3.ends() == g2.ends(),
        g3.weights() == g2.weights(),
{
}

} // verus!
