//! Degree centrality: for every vertex occurring in the graph, the number of
//! edges that leave it plus the number of edges that enter it, and the sum of
//! those scores over the whole table.

use vstd::prelude::*;

use crate::graph::Graph;
use crate::graph::in_count;
use crate::graph::out_count;

verus! {

/// The value stored for key `u`: 0 when `u` has no entry.
pub open spec fn value_of(entries: Seq<(u32, usize)>, u: u32) -> nat
    decreases entries.len(),
{
    if entries.len() == 0 {
        0
    } else if entries.last().0 == u {
        entries.last().1 as nat
    } else {
        value_of(entries.drop_last(), u)
    }
}

/// The sum of all stored values.
pub open spec fn table_sum(entries: Seq<(u32, usize)>) -> nat
    decreases entries.len(),
{
    if entries.len() == 0 {
        0
    } else {
        table_sum(entries.drop_last()) + entries.last().1 as nat
    }
}

/// Whether the table has an entry for `u`.
pub open spec fn has_key(entries: Seq<(u32, usize)>, u: u32) -> bool {
    exists|i: int| 0 <= i < entries.len() && (#[trigger] entries[i]).0 == u
}

/// A per-vertex degree-centrality table. Its view is the entry sequence;
/// a well-formed table holds at most one entry per vertex.
pub struct CentralityTable {
    entries: Vec<(u32, usize)>,
}

impl View for CentralityTable {
    type V = Seq<(u32, usize)>;

    closed spec fn view(&self) -> Seq<(u32, usize)> {
        self.entries@
    }
}

impl CentralityTable {
    /// Each vertex has at most one entry.
    pub open spec fn wf(self) -> bool {
        forall|i: int, j: int|
            0 <= i < j < self@.len() ==> (#[trigger] self@[i]).0 != (#[trigger] self@[j]).0
    }

    /// The centrality score recorded for `u`.
    pub open spec fn score(self, u: u32) -> nat {
        value_of(self@, u)
    }

    /// The number of entries, one per distinct vertex in a well-formed table.
    pub fn len(&self) -> (r: usize)
        ensures
            r == self@.len(),
    {
        self.entries.len()
    }

    /// Whether the table is empty.
    pub fn is_empty(&self) -> (r: bool)
        ensures
            r == (self@.len() == 0),
    {
        self.entries.len() == 0
    }

    /// The `i`th entry. Entries stand in first-occurrence order of the edge
    /// list the table was built from, which is no ranking.
    pub fn entry_at(&self, i: usize) -> (e: (u32, usize))
        requires
            i < self@.len(),
        ensures
            e == self@[i as int],
    {
        self.entries[i]
    }

    /// Whether `u` has an entry.
    pub fn contains_key(&self, u: u32) -> (r: bool)
        ensures
            r == has_key(self@, u),
    {
        let mut i: usize = 0;
        while i < self.entries.len()
            invariant
                i <= self.entries.len(),
                forall|j: int| 0 <= j < i ==> (#[trigger] self@[j]).0 != u,
            decreases self.entries.len() - i,
        {
            if self.entries[i].0 == u {
                proof {
                    assert(self@[i as int].0 == u);
                }
                return true;
            }
            i = i + 1;
        }
        false
    }

    /// The centrality score of `u`: 0 when `u` has no entry.
    #[verifier::loop_isolation(false)]
    pub fn get(&self, u: u32) -> (r: usize)
        requires
            self.wf(),
        ensures
            r == self.score(u),
    {
        let mut i: usize = 0;
        while i < self.entries.len()
            invariant
                i <= self.entries.len(),
                forall|j: int| 0 <= j < i ==> (#[trigger] self@[j]).0 != u,
            decreases self.entries.len() - i,
        {
            if self.entries[i].0 == u {
                proof {
                    lemma_value_at_key(self@, i as int, u);
                }
                return self.entries[i].1;
            }
            i = i + 1;
        }
        proof {
            lemma_value_absent(self@, u);
        }
        0
    }

    /// The sum of all centrality scores.
    pub fn total(&self) -> (r: usize)
        requires
            table_sum(self@) <= usize::MAX,
        ensures
            r == table_sum(self@),
    {
        let mut sum: usize = 0;
        let mut i: usize = 0;
        while i < self.entries.len()
            invariant
                i <= self.entries.len(),
                sum == table_sum(self@.take(i as int)),
                table_sum(self@) <= usize::MAX,
            decreases self.entries.len() - i,
        {
            proof {
                assert(self@.take(i + 1).drop_last() =~= self@.take(i as int));
                assert(self@.take(i + 1).last() == self@[i as int]);
                lemma_table_sum_prefix(self@, i + 1);
            }
            sum = sum + self.entries[i].1;
            i = i + 1;
        }
        proof {
            assert(self@.take(self@.len() as int) =~= self@);
        }
        sum
    }

    /// Adds 1 to the score of `u`, creating the entry when it is missing.
    #[verifier::loop_isolation(false)]
    fn bump(&mut self, u: u32)
        requires
            old(self).wf(),
            old(self).score(u) < usize::MAX,
        ensures
            final(self).wf(),
            final(self).score(u) == old(self).score(u) + 1,
            forall|w: u32| w != u ==> final(self).score(w) == old(self).score(w),
            table_sum(final(self)@) == table_sum(old(self)@) + 1,
            forall|w: u32| has_key(final(self)@, w) <==> has_key(old(self)@, w) || w == u,
    {
        let mut i: usize = 0;
        while i < self.entries.len()
            invariant
                i <= self.entries.len(),
                forall|j: int| 0 <= j < i ==> (#[trigger] self@[j]).0 != u,
                self == old(self),
            decreases self.entries.len() - i,
        {
            if self.entries[i].0 == u {
                let c = self.entries[i].1;
                proof {
                    lemma_value_at_key(self@, i as int, u);
                }
                self.entries[i] = (u, c + 1);
                proof {
                    lemma_update_entry(old(self)@, i as int, (u, (c + 1) as usize));
                    assert forall|w: u32|
                        has_key(self@, w) <==> has_key(old(self)@, w) || w == u by {
                        if has_key(self@, w) {
                            let k = choose|k: int|
                                0 <= k < self@.len() && (#[trigger] self@[k]).0 == w;
                            if k != i {
                                assert(old(self)@[k].0 == w);
                            }
                        }
                        if has_key(old(self)@, w) {
                            let k = choose|k: int|
                                0 <= k < old(self)@.len() && (#[trigger] old(self)@[k]).0 == w;
                            if k == i {
                                assert(self@[k].0 == w);
                            } else {
                                assert(self@[k].0 == w);
                            }
                        }
                        if w == u {
                            assert(self@[i as int].0 == u);
                        }
                    }
                }
                return ;
            }
            i = i + 1;
        }
        proof {
            lemma_value_absent(self@, u);
        }
        self.entries.push((u, 1));
        proof {
            assert(self@.drop_last() =~= old(self)@);
            assert(self@.last() == (u, 1usize));
            assert forall|w: u32| has_key(self@, w) <==> has_key(old(self)@, w) || w == u by {
                if has_key(self@, w) {
                    let k = choose|k: int| 0 <= k < self@.len() && (#[trigger] self@[k]).0 == w;
                    if k < self@.len() - 1 {
                        assert(old(self)@[k].0 == w);
                    }
                }
                if has_key(old(self)@, w) {
                    let k = choose|k: int|
                        0 <= k < old(self)@.len() && (#[trigger] old(self)@[k]).0 == w;
                    assert(self@[k].0 == w);
                }
                if w == u {
                    assert(self@[self@.len() - 1].0 == u);
                }
            }
            assert forall|i2: int, j2: int|
                0 <= i2 < j2 < self@.len() implies (#[trigger] self@[i2]).0 != (
            #[trigger] self@[j2]).0 by {
                if j2 == self@.len() - 1 {
                    assert(old(self)@[i2].0 != u);
                }
            }
        }
    }
}

/// In a table with distinct keys, the entry at a key's index holds its value.
proof fn lemma_value_at_key(entries: Seq<(u32, usize)>, i: int, u: u32)
    requires
        0 <= i < entries.len(),
        entries[i].0 == u,
        forall|a: int, b: int|
            0 <= a < b < entries.len() ==> (#[trigger] entries[a]).0 != (#[trigger] entries[b]).0,
    ensures
        value_of(entries, u) == entries[i].1,
    decreases entries.len(),
{
    if i == entries.len() - 1 {
    } else {
        assert(entries.last().0 != u);
        assert(entries.drop_last()[i] == entries[i]);
        lemma_value_at_key(entries.drop_last(), i, u);
    }
}

/// A key with no entry has value 0.
proof fn lemma_value_absent(entries: Seq<(u32, usize)>, u: u32)
    requires
        forall|j: int| 0 <= j < entries.len() ==> (#[trigger] entries[j]).0 != u,
    ensures
        value_of(entries, u) == 0,
    decreases entries.len(),
{
    if entries.len() > 0 {
        assert(entries[entries.len() - 1].0 != u);
        lemma_value_absent(entries.drop_last(), u);
    }
}

/// Replacing the entry at a key's index changes that key's value, no other
/// value, and shifts the sum by the difference; key distinctness is kept.
proof fn lemma_update_entry(entries: Seq<(u32, usize)>, i: int, e: (u32, usize))
    requires
        0 <= i < entries.len(),
        entries[i].0 == e.0,
        forall|a: int, b: int|
            0 <= a < b < entries.len() ==> (#[trigger] entries[a]).0 != (#[trigger] entries[b]).0,
    ensures
        value_of(entries.update(i, e), e.0) == e.1,
        forall|w: u32| w != e.0 ==> value_of(entries.update(i, e), w) == value_of(entries, w),
        table_sum(entries.update(i, e)) == table_sum(entries) - entries[i].1 + e.1,
        forall|a: int, b: int|
            0 <= a < b < entries.len() ==> (#[trigger] entries.update(i, e)[a]).0 != (
            #[trigger] entries.update(i, e)[b]).0,
    decreases entries.len(),
{
    let upd = entries.update(i, e);
    assert(forall|a: int, b: int|
        0 <= a < b < entries.len() ==> (#[trigger] upd[a]).0 != (#[trigger] upd[b]).0);
    if i == entries.len() - 1 {
        assert(upd.drop_last() =~= entries.drop_last());
        assert(upd.last() == e);
        assert forall|w: u32| w != e.0 implies value_of(upd, w) == value_of(entries, w) by {
            assert(entries.last().0 == e.0);
        }
    } else {
        assert(upd.last() == entries.last());
        assert(upd.drop_last() =~= entries.drop_last().update(i, e));
        assert(entries.drop_last()[i] == entries[i]);
        assert(forall|a: int, b: int|
            0 <= a < b < entries.drop_last().len() ==> (#[trigger] entries.drop_last()[a]).0 != (
            #[trigger] entries.drop_last()[b]).0);
        lemma_update_entry(entries.drop_last(), i, e);
        assert(entries.last().0 != e.0);
        assert forall|w: u32| w != e.0 implies value_of(upd, w) == value_of(entries, w) by {
            if entries.last().0 != w {
                assert(value_of(upd, w) == value_of(upd.drop_last(), w));
                assert(value_of(upd.drop_last(), w) == value_of(entries.drop_last(), w));
            }
        }
    }
}

/// A prefix of the table sums to no more than the whole table.
proof fn lemma_table_sum_prefix(entries: Seq<(u32, usize)>, i: int)
    requires
        0 <= i <= entries.len(),
    ensures
        table_sum(entries.take(i)) <= table_sum(entries),
    decreases entries.len() - i,
{
    if i < entries.len() {
        assert(entries.take(i + 1).drop_last() =~= entries.take(i));
        assert(entries.take(i + 1).last() == entries[i]);
        lemma_table_sum_prefix(entries, i + 1);
    } else {
        assert(entries.take(i) =~= entries);
    }
}

/// Every single value is bounded by the sum of all values.
proof fn lemma_value_le_sum(entries: Seq<(u32, usize)>, u: u32)
    ensures
        value_of(entries, u) <= table_sum(entries),
    decreases entries.len(),
{
    if entries.len() > 0 {
        lemma_value_le_sum(entries.drop_last(), u);
    }
}

impl Graph {
    /// The number of edges leaving `u`.
    pub open spec fn out_degree(self, u: u32) -> nat {
        out_count(self@, u)
    }

    /// The number of edges entering `v`.
    pub open spec fn in_degree(self, v: u32) -> nat {
        in_count(self@, v)
    }

    /// Builds the degree-centrality table: every vertex that occurs in some
    /// edge is keyed, with score out-degree plus in-degree; duplicate edges
    /// contribute independently. The scores sum to twice the edge count, and
    /// the table has one entry per vertex occurring in the graph.
    pub fn calculate_degree_centrality(&self) -> (t: CentralityTable)
        requires
            2 * self@.len() <= usize::MAX,
        ensures
            t.wf(),
            forall|u: u32| t.score(u) == self.out_degree(u) + self.in_degree(u),
            forall|u: u32| has_key(t@, u) <==> self.appears(u),
            table_sum(t@) == 2 * self@.len(),
            t@.len() == self.vertex_set().len(),
            self.vertex_set().finite(),
    {
        let mut t = CentralityTable { entries: Vec::new() };
        let n = self.edge_count();
        let mut i: usize = 0;
        while i < n
            invariant
                i <= n,
                n == self@.len(),
                2 * self@.len() <= usize::MAX,
                t.wf(),
                forall|u: u32|
                    t.score(u) == out_count(self@.take(i as int), u) + in_count(
                        self@.take(i as int),
                        u,
                    ),
                forall|u: u32|
                    has_key(t@, u) <==> exists|k: int|
                        0 <= k < i && ((#[trigger] self@[k]).0 == u || self@[k].1 == u),
                table_sum(t@) == 2 * i,
            decreases n - i,
        {
            let e = self.edge_at(i);
            let ghost pre = t@;
            proof {
                assert(self@.take(i + 1).drop_last() =~= self@.take(i as int));
                assert(self@.take(i + 1).last() == self@[i as int]);
                lemma_value_le_sum(t@, e.0);
            }
            t.bump(e.0);
            proof {
                lemma_value_le_sum(t@, e.1);
            }
            t.bump(e.1);
            proof {
                assert forall|u: u32|
                    has_key(t@, u) <==> exists|k: int|
                        0 <= k < i + 1 && ((#[trigger] self@[k]).0 == u || self@[k].1 == u) by {
                    if has_key(t@, u) {
                        if has_key(pre, u) {
                            let k = choose|k: int|
                                0 <= k < i && ((#[trigger] self@[k]).0 == u || self@[k].1 == u);
                            assert(0 <= k < i + 1 && (self@[k].0 == u || self@[k].1 == u));
                        } else {
                            assert(self@[i as int].0 == u || self@[i as int].1 == u);
                        }
                    }
                    if exists|k: int|
                        0 <= k < i + 1 && ((#[trigger] self@[k]).0 == u || self@[k].1 == u) {
                        let k = choose|k: int|
                            0 <= k < i + 1 && ((#[trigger] self@[k]).0 == u || self@[k].1 == u);
                        if k < i {
                            assert(has_key(pre, u));
                        }
                    }
                }
            }
            i = i + 1;
        }
        proof {
            assert(self@.take(self@.len() as int) =~= self@);
            assert(forall|u: u32| has_key(t@, u) <==> self.appears(u));
            let keys = t@.map_values(|p: (u32, usize)| p.0);
            assert(keys.no_duplicates());
            assert forall|u: u32| keys.contains(u) <==> self.appears(u) by {
                if keys.contains(u) {
                    let k = choose|k: int| 0 <= k < keys.len() && keys[k] == u;
                    assert(t@[k].0 == u);
                }
                if self.appears(u) {
                    let k = choose|k: int|
                        0 <= k < t@.len() && (#[trigger] t@[k]).0 == u;
                    assert(keys[k] == u);
                }
            }
            assert(keys.to_set() =~= self.vertex_set());
            keys.unique_seq_to_set();
            vstd::seq_lib::seq_to_set_is_finite(keys);
        }
        t
    }
}

} // verus!
