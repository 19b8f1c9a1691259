//! Breadth-first traversal: visitation order and visited count, with
//! reachability along directed edges as the specification.

use vstd::prelude::*;

use crate::graph::Graph;
use crate::graph::neighbors_of;

verus! {

impl Graph {
    /// A walk along directed edges: consecutive entries are joined by an edge.
    pub open spec fn is_path(self, p: Seq<u32>) -> bool {
        &&& p.len() >= 1
        &&& forall|i: int|
            0 <= i < p.len() - 1 ==> (#[trigger] self.neighbors_seq(p[i])).contains(p[i + 1])
    }

    /// Whether `to` can be reached from `from` by following directed edges;
    /// every vertex reaches itself.
    pub open spec fn reachable(self, from: u32, to: u32) -> bool {
        exists|p: Seq<u32>| self.is_path(p) && p.first() == from && p.last() == to
    }

    /// The set of vertices reachable from `from`.
    pub open spec fn reach_set(self, from: u32) -> Set<u32> {
        Set::new(|v: u32| self.reachable(from, v))
    }

    /// Every vertex reaches itself, by the one-entry walk.
    pub proof fn lemma_self_reachable(self, v: u32)
        ensures
            self.reachable(v, v),
    {
        let p = seq![v];
        assert(self.is_path(p));
        assert(p.first() == v && p.last() == v);
    }

    /// Reachability extends along an edge.
    pub proof fn lemma_reachable_step(self, from: u32, a: u32, b: u32)
        requires
            self.reachable(from, a),
            self.neighbors_seq(a).contains(b),
        ensures
            self.reachable(from, b),
    {
        let p = choose|p: Seq<u32>| self.is_path(p) && p.first() == from && p.last() == a;
        let q = p.push(b);
        assert(self.is_path(q)) by {
            assert forall|i: int|
                0 <= i < q.len() - 1 implies (#[trigger] self.neighbors_seq(q[i])).contains(
                q[i + 1],
            ) by {
                if i < p.len() - 1 {
                    assert(q[i] == p[i]);
                    assert(q[i + 1] == p[i + 1]);
                    assert(self.neighbors_seq(p[i]).contains(p[i + 1]));
                } else {
                    assert(q[i] == p[p.len() - 1]);
                    assert(q[i + 1] == b);
                    assert(self.neighbors_seq(a).contains(b));
                }
            }
        }
        assert(q.first() == from && q.last() == b);
    }

    /// A set of vertices that holds a walk's first entry and is closed under
    /// out-edges holds the walk's last entry.
    proof fn lemma_walk_stays_in_closed(self, s: Seq<u32>, p: Seq<u32>)
        requires
            self.is_path(p),
            s.contains(p.first()),
            forall|a: u32, b: u32|
                #![trigger self.neighbors_seq(a).contains(b), s.contains(a)]
                s.contains(a) && self.neighbors_seq(a).contains(b) ==> s.contains(b),
        ensures
            s.contains(p.last()),
        decreases p.len(),
    {
        if p.len() > 1 {
            assert(self.neighbors_seq(p[0]).contains(p[1]));
            assert(s.contains(p[1]));
            let q = p.drop_first();
            assert(self.is_path(q)) by {
                assert forall|i: int|
                    0 <= i < q.len() - 1 implies (#[trigger] self.neighbors_seq(q[i])).contains(
                    q[i + 1],
                ) by {
                    assert(q[i] == p[i + 1]);
                    assert(q[i + 1] == p[i + 2]);
                    assert(self.neighbors_seq(p[i + 1]).contains(p[i + 2]));
                }
            }
            assert(q.first() == p[1]);
            self.lemma_walk_stays_in_closed(s, q);
            assert(q.last() == p.last());
        }
    }

    /// The breadth-first visitation sequence from `start`: `start` first, then
    /// outward by out-edge insertion order, each vertex at most once. When
    /// `start` has no out-neighbor record the traversal short-circuits and the
    /// sequence is empty; otherwise the sequence holds exactly the vertices
    /// reachable from `start`.
    #[verifier::loop_isolation(false)]
    pub fn bfs_order(&self, start: u32) -> (order: Vec<u32>)
        ensures
            order@.no_duplicates(),
            !self.has_source(start) ==> order@ == Seq::<u32>::empty(),
            self.has_source(start) ==> order@.len() >= 1 && order@[0] == start,
            self.has_source(start) ==> (forall|v: u32|
                order@.contains(v) <==> self.reachable(start, v)),
    {
        let mut order: Vec<u32> = Vec::new();
        if !self.contains_source(start) {
            return order;
        }
        let mut visited: Vec<u32> = Vec::new();
        let mut queue: Vec<u32> = Vec::new();
        visited.push(start);
        queue.push(start);
        proof {
            self.lemma_self_reachable(start);
            lemma_vertex_set_finite(*self);
            assert(visited@ == order@ + queue@) by {
                assert(order@ + queue@ =~= visited@);
            }
            assert(visited@[0] == start);
            assert(self.vertex_set().contains(start)) by {
                let i = choose|i: int| 0 <= i < self@.len() && (#[trigger] self@[i]).0 == start;
                assert(self@[i].0 == start || self@[i].1 == start);
            }
            lemma_visited_fits(*self, visited@);
        }
        while queue.len() > 0
            invariant
                visited@ == order@ + queue@,
                visited@.no_duplicates(),
                visited@.contains(start),
                visited@[0] == start,
                forall|k: int|
                    0 <= k < visited@.len() ==> self.reachable(start, #[trigger] visited@[k]),
                forall|k: int|
                    0 <= k < visited@.len() ==> self.vertex_set().contains(#[trigger] visited@[k]),
                visited@.len() <= self.vertex_set().len(),
                self.vertex_set().finite(),
                forall|a: u32, b: u32|
                    #![trigger self.neighbors_seq(a).contains(b), order@.contains(a)]
                    order@.contains(a) && self.neighbors_seq(a).contains(b) ==> visited@.contains(
                        b,
                    ),
            decreases self.vertex_set().len() - visited@.len(), queue@.len(),
        {
            let ghost pre_order = order@;
            let ghost pre_queue = queue@;
            let node = queue.remove(0);
            order.push(node);
            proof {
                assert(order@ + queue@ =~= pre_order + pre_queue);
                assert(order@.drop_last() =~= pre_order);
                assert(visited@[pre_order.len() as int] == node);
                assert(visited@.contains(node));
                assert(self.reachable(start, node));
            }
            let nbrs = self.neighbors(node);
            let ghost mid_visited = visited@;
            let ghost mid_queue = queue@;
            let mut j: usize = 0;
            while j < nbrs.len()
                invariant
                    j <= nbrs.len(),
                    mid_visited.len() <= visited@.len(),
                    visited@.len() == mid_visited.len() ==> visited@ == mid_visited && queue@
                        == mid_queue,
                    visited@ == order@ + queue@,
                    visited@.no_duplicates(),
                    visited@.contains(start),
                    visited@[0] == start,
                    forall|k: int|
                        0 <= k < visited@.len() ==> self.reachable(start, #[trigger] visited@[k]),
                    forall|k: int|
                        0 <= k < visited@.len() ==> self.vertex_set().contains(
                            #[trigger] visited@[k],
                        ),
                    visited@.len() <= self.vertex_set().len(),
                    forall|a: u32, b: u32|
                        #![trigger self.neighbors_seq(a).contains(b), pre_order.contains(a)]
                        pre_order.contains(a) && self.neighbors_seq(a).contains(b)
                            ==> visited@.contains(b),
                    forall|jj: int| 0 <= jj < j ==> visited@.contains(#[trigger] nbrs@[jj]),
                decreases nbrs.len() - j,
            {
                let v = nbrs[j];
                if !vec_contains(&visited, v) {
                    let ghost pre_visited = visited@;
                    let ghost pre_q = queue@;
                    visited.push(v);
                    queue.push(v);
                    proof {
                        lemma_push_contains(pre_visited, v);
                        assert(visited@ == order@ + queue@) by {
                            assert((order@ + pre_q).push(v) =~= order@ + pre_q.push(v));
                        }
                        assert(visited@.no_duplicates()) by {
                            assert forall|x: int, y: int|
                                0 <= x < y < visited@.len() implies visited@[x] != visited@[y] by {
                                if y == visited@.len() - 1 {
                                    assert(visited@[x] == pre_visited[x]);
                                    if pre_visited[x] == v {
                                        assert(pre_visited.contains(v));
                                    }
                                }
                            }
                        }
                        assert(self.neighbors_seq(node).contains(v)) by {
                            assert(nbrs@[j as int] == v);
                        }
                        self.lemma_reachable_step(start, node, v);
                        assert(self.vertex_set().contains(v)) by {
                            lemma_neighbor_is_edge(self@, node, v);
                            let i = choose|i: int|
                                0 <= i < self@.len() && self@[i] == (node, v);
                            assert(self@[i].0 == node || self@[i].1 == v);
                        }
                        lemma_visited_fits(*self, visited@);
                    }
                }
                j = j + 1;
            }
            proof {
                assert forall|a: u32, b: u32|
                    #![trigger self.neighbors_seq(a).contains(b), order@.contains(a)]
                    order@.contains(a) && self.neighbors_seq(a).contains(b) implies visited@
                    .contains(b) by {
                    let k = choose|k: int| 0 <= k < order@.len() && order@[k] == a;
                    if k < order@.len() - 1 {
                        assert(pre_order[k] == a);
                        assert(pre_order.contains(a));
                    } else {
                        assert(a == node);
                        let jj = choose|jj: int|
                            0 <= jj < nbrs@.len() && nbrs@[jj] == b;
                        assert(visited@.contains(nbrs@[jj]));
                    }
                }
            }
        }
        proof {
            assert(visited@ =~= order@);
            assert forall|v: u32| order@.contains(v) <==> self.reachable(start, v) by {
                if order@.contains(v) {
                    let k = choose|k: int| 0 <= k < order@.len() && order@[k] == v;
                    assert(self.reachable(start, visited@[k]));
                }
                if self.reachable(start, v) {
                    let p = choose|p: Seq<u32>|
                        self.is_path(p) && p.first() == start && p.last() == v;
                    self.lemma_walk_stays_in_closed(order@, p);
                }
            }
        }
        order
    }

    /// The number of distinct vertices a breadth-first traversal from `start`
    /// visits: 0 when `start` has no out-neighbor record, else exactly the
    /// size of the set of vertices reachable from `start`.
    pub fn bfs(&self, start: u32) -> (count: usize)
        ensures
            !self.has_source(start) ==> count == 0,
            self.has_source(start) ==> count == self.reach_set(start).len()
                && self.reach_set(start).finite(),
    {
        let order = self.bfs_order(start);
        proof {
            if self.has_source(start) {
                assert(order@.to_set() =~= self.reach_set(start));
                order@.unique_seq_to_set();
                vstd::seq_lib::seq_to_set_is_finite(order@);
            }
        }
        order.len()
    }
}

/// Whether `x` occurs in `v`.
fn vec_contains(v: &Vec<u32>, x: u32) -> (r: bool)
    ensures
        r == v@.contains(x),
{
    let mut i: usize = 0;
    while i < v.len()
        invariant
            i <= v.len(),
            forall|k: int| 0 <= k < i ==> v@[k] != x,
        decreases v.len() - i,
    {
        if v[i] == x {
            proof {
                assert(v@[i as int] == x);
            }
            return true;
        }
        i = i + 1;
    }
    false
}

/// Pushing extends a sequence's membership by exactly the pushed value.
proof fn lemma_push_contains(s: Seq<u32>, x: u32)
    ensures
        forall|y: u32| #[trigger] s.push(x).contains(y) <==> s.contains(y) || y == x,
{
    assert forall|y: u32| #[trigger] s.push(x).contains(y) <==> s.contains(y) || y == x by {
        if s.push(x).contains(y) {
            let k = choose|k: int| 0 <= k < s.push(x).len() && s.push(x)[k] == y;
            if k < s.len() {
                assert(s[k] == y);
            }
        }
        if s.contains(y) {
            let k = choose|k: int| 0 <= k < s.len() && s[k] == y;
            assert(s.push(x)[k] == y);
        }
        assert(s.push(x)[s.len() as int] == x);
    }
}

/// An out-neighbor relation is witnessed by an edge.
proof fn lemma_neighbor_is_edge(edges: Seq<(u32, u32)>, u: u32, v: u32)
    requires
        neighbors_of(edges, u).contains(v),
    ensures
        exists|i: int| 0 <= i < edges.len() && edges[i] == (u, v),
    decreases edges.len(),
{
    let rest = neighbors_of(edges.drop_last(), u);
    if edges.last() == (u, v) {
        assert(edges[edges.len() - 1] == (u, v));
    } else {
        if edges.last().0 == u {
            assert(neighbors_of(edges, u) == rest.push(edges.last().1));
            let k = choose|k: int|
                0 <= k < rest.push(edges.last().1).len() && rest.push(edges.last().1)[k] == v;
            assert(k < rest.len());
            assert(rest[k] == v);
        }
        lemma_neighbor_is_edge(edges.drop_last(), u, v);
        let i = choose|i: int|
            0 <= i < edges.drop_last().len() && edges.drop_last()[i] == (u, v);
        assert(edges[i] == (u, v));
    }
}

/// Every vertex occurring in some edge lies in a finite set.
proof fn lemma_vertex_set_finite(g: Graph)
    ensures
        g.vertex_set().finite(),
{
    let srcs = g@.map_values(|e: (u32, u32)| e.0);
    let dsts = g@.map_values(|e: (u32, u32)| e.1);
    let all = srcs + dsts;
    assert forall|v: u32| g.vertex_set().contains(v) implies all.to_set().contains(v) by {
        let i = choose|i: int|
            0 <= i < g@.len() && ((#[trigger] g@[i]).0 == v || g@[i].1 == v);
        if g@[i].0 == v {
            assert(all[i] == v);
        } else {
            assert(all[srcs.len() + i] == v);
        }
        assert(all.contains(v));
    }
    vstd::seq_lib::seq_to_set_is_finite(all);
    assert(g.vertex_set().subset_of(all.to_set()));
    vstd::set_lib::lemma_len_subset(g.vertex_set(), all.to_set());
}

/// A duplicate-free sequence of vertices of `g` is no longer than `g`'s vertex set.
proof fn lemma_visited_fits(g: Graph, visited: Seq<u32>)
    requires
        visited.no_duplicates(),
        forall|k: int| 0 <= k < visited.len() ==> g.vertex_set().contains(#[trigger] visited[k]),
        g.vertex_set().finite(),
    ensures
        visited.len() <= g.vertex_set().len(),
{
    visited.unique_seq_to_set();
    assert forall|x: u32| visited.to_set().contains(x) implies g.vertex_set().contains(x) by {
        let k = choose|k: int| 0 <= k < visited.len() && visited[k] == x;
        assert(g.vertex_set().contains(visited[k]));
    }
    assert(visited.to_set().subset_of(g.vertex_set()));
    vstd::set_lib::lemma_len_subset(visited.to_set(), g.vertex_set());
}

} // verus!
