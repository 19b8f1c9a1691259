//! The graph representation: a directed multigraph stored as its edge list,
//! in insertion order, with duplicate edges preserved.

use vstd::prelude::*;

verus! {

/// The out-neighbors of `u`, in edge-insertion order, duplicates kept.
pub open spec fn neighbors_of(edges: Seq<(u32, u32)>, u: u32) -> Seq<u32>
    decreases edges.len(),
{
    if edges.len() == 0 {
        Seq::empty()
    } else if edges.last().0 == u {
        neighbors_of(edges.drop_last(), u).push(edges.last().1)
    } else {
        neighbors_of(edges.drop_last(), u)
    }
}

/// How many edges leave `u`.
pub open spec fn out_count(edges: Seq<(u32, u32)>, u: u32) -> nat
    decreases edges.len(),
{
    if edges.len() == 0 {
        0
    } else {
        out_count(edges.drop_last(), u) + (if edges.last().0 == u {
            1nat
        } else {
            0nat
        })
    }
}

/// How many edges enter `v`.
pub open spec fn in_count(edges: Seq<(u32, u32)>, v: u32) -> nat
    decreases edges.len(),
{
    if edges.len() == 0 {
        0
    } else {
        in_count(edges.drop_last(), v) + (if edges.last().1 == v {
            1nat
        } else {
            0nat
        })
    }
}

/// How many times the edge `(u, v)` occurs.
pub open spec fn edge_multiplicity(edges: Seq<(u32, u32)>, u: u32, v: u32) -> nat
    decreases edges.len(),
{
    if edges.len() == 0 {
        0
    } else {
        edge_multiplicity(edges.drop_last(), u, v) + (if edges.last() == (u, v) {
            1nat
        } else {
            0nat
        })
    }
}

/// How many times `v` occurs in `s`.
pub open spec fn count_in(s: Seq<u32>, v: u32) -> nat
    decreases s.len(),
{
    if s.len() == 0 {
        0
    } else {
        count_in(s.drop_last(), v) + (if s.last() == v {
            1nat
        } else {
            0nat
        })
    }
}

/// A directed graph, populated through `add_edge` and immutable thereafter.
/// Its view is the sequence of inserted edges, in insertion order.
pub struct Graph {
    edges: Vec<(u32, u32)>,
}

impl View for Graph {
    type V = Seq<(u32, u32)>;

    closed spec fn view(&self) -> Seq<(u32, u32)> {
        self.edges@
    }
}

impl Graph {
    /// The out-neighbor sequence of `u`: empty when `u` was never an edge source.
    pub open spec fn neighbors_seq(self, u: u32) -> Seq<u32> {
        neighbors_of(self@, u)
    }

    /// Whether `u` has been the source of at least one inserted edge.
    pub open spec fn has_source(self, u: u32) -> bool {
        exists|i: int| 0 <= i < self@.len() && (#[trigger] self@[i]).0 == u
    }

    /// Whether `v` occurs in some edge, as source or as destination.
    pub open spec fn appears(self, v: u32) -> bool {
        exists|i: int|
            0 <= i < self@.len() && ((#[trigger] self@[i]).0 == v || self@[i].1 == v)
    }

    /// The distinct source vertices.
    pub open spec fn source_set(self) -> Set<u32> {
        Set::new(|u: u32| self.has_source(u))
    }

    /// Every vertex that occurs in some edge, as source or as destination.
    pub open spec fn vertex_set(self) -> Set<u32> {
        Set::new(|v: u32| self.appears(v))
    }

    /// Creates an empty graph: no edges, no sources.
    pub fn new() -> (g: Graph)
        ensures
            g@ == Seq::<(u32, u32)>::empty(),
    {
        Graph { edges: Vec::new() }
    }

    /// Appends the directed edge `(from, to)`. Self-loops and parallel edges
    /// are accepted as given; nothing is validated and nothing is deduplicated.
    pub fn add_edge(&mut self, from: u32, to: u32)
        ensures
            final(self)@ == old(self)@.push((from, to)),
            final(self).neighbors_seq(from) == old(self).neighbors_seq(from).push(to),
            forall|u: u32|
                u != from ==> final(self).neighbors_seq(u) == old(self).neighbors_seq(u),
            forall|u: u32| final(self).has_source(u) <==> old(self).has_source(u) || u == from,
            edge_multiplicity(final(self)@, from, to) == edge_multiplicity(old(self)@, from, to)
                + 1,
            forall|u: u32, v: u32|
                !(u == from && v == to) ==> edge_multiplicity(final(self)@, u, v)
                    == edge_multiplicity(old(self)@, u, v),
    {
        self.edges.push((from, to));
        proof {
            assert(self@.drop_last() =~= old(self)@);
            assert(forall|u: u32| u != from ==> self.neighbors_seq(u) == old(self).neighbors_seq(u));
            assert forall|u: u32| self.has_source(u) <==> old(self).has_source(u) || u == from by {
                if old(self).has_source(u) {
                    let i = choose|i: int|
                        0 <= i < old(self)@.len() && (#[trigger] old(self)@[i]).0 == u;
                    assert(self@[i].0 == u);
                }
                if u == from {
                    assert(self@[self@.len() - 1].0 == u);
                }
                if self.has_source(u) && !old(self).has_source(u) {
                    let i = choose|i: int| 0 <= i < self@.len() && (#[trigger] self@[i]).0 == u;
                    assert(i == self@.len() - 1);
                }
            }
        }
    }

    /// The out-neighbors of `node`, in insertion order, duplicates kept;
    /// empty when `node` was never an edge source.
    pub fn neighbors(&self, node: u32) -> (r: Vec<u32>)
        ensures
            r@ == self.neighbors_seq(node),
    {
        let mut r: Vec<u32> = Vec::new();
        let mut i: usize = 0;
        while i < self.edges.len()
            invariant
                i <= self.edges.len(),
                r@ == neighbors_of(self@.take(i as int), node),
            decreases self.edges.len() - i,
        {
            proof {
                assert(self@.take(i + 1).drop_last() =~= self@.take(i as int));
                assert(self@.take(i + 1).last() == self@[i as int]);
            }
            if self.edges[i].0 == node {
                r.push(self.edges[i].1);
            }
            i = i + 1;
        }
        proof {
            assert(self@.take(self@.len() as int) =~= self@);
        }
        r
    }

    /// Whether `node` has an out-neighbor record, that is, was ever an edge source.
    pub fn contains_source(&self, node: u32) -> (r: bool)
        ensures
            r == self.has_source(node),
    {
        let mut i: usize = 0;
        while i < self.edges.len()
            invariant
                i <= self.edges.len(),
                forall|j: int| 0 <= j < i ==> (#[trigger] self@[j]).0 != node,
            decreases self.edges.len() - i,
        {
            if self.edges[i].0 == node {
                proof {
                    assert(self@[i as int].0 == node);
                }
                return true;
            }
            i = i + 1;
        }
        false
    }

    /// The number of distinct source vertices (vertices with an out-neighbor
    /// record), not the count of all vertices occurring in the graph.
    pub fn vertex_count(&self) -> (r: usize)
        ensures
            r == self.source_set().len(),
            self.source_set().finite(),
    {
        let mut seen: Vec<u32> = Vec::new();
        let mut i: usize = 0;
        while i < self.edges.len()
            invariant
                i <= self.edges.len(),
                seen@.no_duplicates(),
                forall|u: u32|
                    seen@.contains(u) <==> exists|k: int|
                        0 <= k < i && (#[trigger] self@[k]).0 == u,
            decreases self.edges.len() - i,
        {
            let src = self.edges[i].0;
            let mut found = false;
            let mut j: usize = 0;
            while j < seen.len()
                invariant
                    j <= seen.len(),
                    found <==> exists|k: int| 0 <= k < j && seen@[k] == src,
                decreases seen.len() - j,
            {
                if seen[j] == src {
                    found = true;
                }
                j = j + 1;
            }
            proof {
                assert(found <==> seen@.contains(src));
            }
            let ghost prev = seen@;
            if !found {
                seen.push(src);
            }
            proof {
                assert forall|u: u32| seen@.contains(u) <==> prev.contains(u) || u == src by {
                    if found {
                        assert(seen@ == prev);
                        assert(prev.contains(src));
                    } else {
                        assert(seen@ == prev.push(src));
                        assert(seen@[seen@.len() - 1] == src);
                        if seen@.contains(u) {
                            let k = choose|k: int| 0 <= k < seen@.len() && seen@[k] == u;
                            if k < prev.len() {
                                assert(prev[k] == u);
                            }
                        }
                        if prev.contains(u) {
                            let k = choose|k: int| 0 <= k < prev.len() && prev[k] == u;
                            assert(seen@[k] == u);
                        }
                    }
                }
                assert forall|u: u32|
                    seen@.contains(u) <==> exists|k: int|
                        0 <= k < i + 1 && (#[trigger] self@[k]).0 == u by {
                    if seen@.contains(u) {
                        if prev.contains(u) {
                            let k = choose|k: int| 0 <= k < i && (#[trigger] self@[k]).0 == u;
                            assert(0 <= k < i + 1 && self@[k].0 == u);
                        } else {
                            assert(u == src);
                            assert(self@[i as int].0 == u);
                        }
                    }
                    if exists|k: int| 0 <= k < i + 1 && (#[trigger] self@[k]).0 == u {
                        let k = choose|k: int| 0 <= k < i + 1 && (#[trigger] self@[k]).0 == u;
                        if k < i {
                            assert(prev.contains(u));
                        } else {
                            assert(u == src);
                        }
                    }
                }
            }
            i = i + 1;
        }
        proof {
            assert(seen@.to_set() =~= self.source_set());
            seen@.unique_seq_to_set();
            vstd::seq_lib::seq_to_set_is_finite(seen@);
        }
        seen.len()
    }

    /// The total number of inserted edges, duplicates included.
    pub fn edge_count(&self) -> (r: usize)
        ensures
            r == self@.len(),
    {
        self.edges.len()
    }

    /// The `i`th inserted edge.
    pub(crate) fn edge_at(&self, i: usize) -> (e: (u32, u32))
        requires
            i < self@.len(),
        ensures
            e == self@[i as int],
    {
        self.edges[i]
    }
}

/// How many times `v` occurs among the out-neighbors of `u`: exactly the
/// number of times the edge `(u, v)` occurs in the edge sequence.
proof fn lemma_count_in_neighbors(edges: Seq<(u32, u32)>, u: u32, v: u32)
    ensures
        count_in(neighbors_of(edges, u), v) == edge_multiplicity(edges, u, v),
    decreases edges.len(),
{
    if edges.len() > 0 {
        lemma_count_in_neighbors(edges.drop_last(), u, v);
        if edges.last().0 == u {
            let rest = neighbors_of(edges.drop_last(), u);
            assert(rest.push(edges.last().1).drop_last() =~= rest);
        }
    }
}

/// A sequence contains a value exactly when the value's occurrence count is positive.
proof fn lemma_count_in_positive(s: Seq<u32>, v: u32)
    ensures
        count_in(s, v) > 0 <==> s.contains(v),
    decreases s.len(),
{
    if s.len() > 0 {
        lemma_count_in_positive(s.drop_last(), v);
        if s.last() == v {
            assert(s[s.len() - 1] == v);
        } else if count_in(s.drop_last(), v) > 0 {
            let i = choose|i: int| 0 <= i < s.drop_last().len() && s.drop_last()[i] == v;
            assert(s[i] == v);
        } else if s.contains(v) {
            let i = choose|i: int| 0 <= i < s.len() && s[i] == v;
            assert(s.drop_last()[i] == v);
        }
    }
}

/// Duplicate preservation: after any sequence of insertions, the number of
/// occurrences of `v` in the out-neighbors of `u` equals the number of times
/// the edge `(u, v)` was inserted, and `v` occurs among the out-neighbors of
/// `u` exactly when `(u, v)` was inserted at least once.
pub proof fn lemma_duplicate_preservation(g: Graph, u: u32, v: u32)
    ensures
        count_in(g.neighbors_seq(u), v) == edge_multiplicity(g@, u, v),
        g.neighbors_seq(u).contains(v) <==> edge_multiplicity(g@, u, v) > 0,
{
    lemma_count_in_neighbors(g@, u, v);
    lemma_count_in_positive(g.neighbors_seq(u), v);
}

} // verus!
