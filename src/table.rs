//! The last logical clock value reported by each neighbour, keyed by node id.
use vstd::prelude::*;
use std::collections::HashMap;

verus! {

broadcast use vstd::std_specs::hash::group_hash_axioms;

/// Whether `k` holds a largest value among those of `m` above `l`.
pub open spec fn is_top_ahead(m: Map<u64, u128>, l: u128, k: u64) -> bool {
    &&& m.contains_key(k)
    &&& m[k] > l
    &&& forall|j: u64| m.contains_key(j) && m[j] > l ==> m[j] <= m[k]
}

/// Whether `k` holds a smallest value among those of `m` below `l`.
pub open spec fn is_bottom_behind(m: Map<u64, u128>, l: u128, k: u64) -> bool {
    &&& m.contains_key(k)
    &&& m[k] < l
    &&& forall|j: u64| m.contains_key(j) && m[j] < l ==> m[j] >= m[k]
}

/// The largest value of `m` above `l`, or `l` itself when there is none.
pub open spec fn fastest_ahead(m: Map<u64, u128>, l: u128) -> u128 {
    if exists|k: u64| is_top_ahead(m, l, k) {
        m[choose|k: u64| is_top_ahead(m, l, k)]
    } else {
        l
    }
}

/// The smallest value of `m` below `l`, or `l` itself when there is none.
pub open spec fn slowest_behind(m: Map<u64, u128>, l: u128) -> u128 {
    if exists|k: u64| is_bottom_behind(m, l, k) {
        m[choose|k: u64| is_bottom_behind(m, l, k)]
    } else {
        l
    }
}

/// A neighbour table: for each neighbour id, the last clock value it reported.
pub struct NeighbourTable {
    clocks: HashMap<u64, u128>,
}

impl View for NeighbourTable {
    type V = Map<u64, u128>;

    closed spec fn view(&self) -> Map<u64, u128> {
        self.clocks@
    }
}

impl NeighbourTable {
    /// An empty table.
    pub fn new() -> (r: NeighbourTable)
        ensures
            r@ == Map::<u64, u128>::empty(),
    {
        NeighbourTable { clocks: HashMap::new() }
    }

    /// Records `time` as the value of neighbour `id`, replacing any earlier one.
    pub fn record(&mut self, id: u64, time: u128)
        ensures
            final(self)@ == old(self)@.insert(id, time),
    {
        self.clocks.insert(id, time);
    }

    /// The largest recorded value above `l`, or `l` itself when no neighbour
    /// reported more than `l`.
    pub fn fastest_ahead(&self, l: u128) -> (r: u128)
        ensures
            r == fastest_ahead(self@, l),
    {
        let ghost m = self.clocks@;
        let mut best: u128 = l;
        for v in it: self.clocks.values()
            invariant
                it.seq().unref().to_set() == m.values(),
                best >= l,
                best == l || m.values().contains(best),
                forall|j: int| 0 <= j < it.index() && *it.seq()[j] > l ==> *it.seq()[j] <= best,
        {
            if *v > best {
                proof {
                    let s = it.seq().unref();
                    assert(s[it.index() as int] == *v);
                    assert(s.to_set().contains(*v));
                }
                best = *v;
            }
        }
        proof {
            lemma_values_bounded_above(m, l, best);
        }
        best
    }

    /// The smallest recorded value below `l`, or `l` itself when no neighbour
    /// reported less than `l`.
    pub fn slowest_behind(&self, l: u128) -> (r: u128)
        ensures
            r == slowest_behind(self@, l),
    {
        let ghost m = self.clocks@;
        let mut best: u128 = l;
        for v in it: self.clocks.values()
            invariant
                it.seq().unref().to_set() == m.values(),
                best <= l,
                best == l || m.values().contains(best),
                forall|j: int| 0 <= j < it.index() && *it.seq()[j] < l ==> *it.seq()[j] >= best,
        {
            if *v < best {
                proof {
                    let s = it.seq().unref();
                    assert(s[it.index() as int] == *v);
                    assert(s.to_set().contains(*v));
                }
                best = *v;
            }
        }
        proof {
            lemma_values_bounded_below(m, l, best);
        }
        best
    }
}

/// A value of `m` that bounds all those above `l`, or `l` when it bounds them
/// all, is `fastest_ahead(m, l)`.
proof fn lemma_values_bounded_above(m: Map<u64, u128>, l: u128, best: u128)
    requires
        best >= l,
        best == l || m.values().contains(best),
        forall|v: u128| m.values().contains(v) && v > l ==> v <= best,
    ensures
        best == fastest_ahead(m, l),
{
    if best > l {
        let k = choose|k: u64| m.contains_key(k) && m[k] == best;
        assert forall|j: u64| m.contains_key(j) && m[j] > l implies m[j] <= m[k] by {
            assert(m.values().contains(m[j]));
        }
        assert(is_top_ahead(m, l, k));
        let c = choose|c: u64| is_top_ahead(m, l, c);
        assert(m.values().contains(m[c]));
    } else {
        assert forall|k: u64| !is_top_ahead(m, l, k) by {
            if m.contains_key(k) {
                assert(m.values().contains(m[k]));
            }
        }
    }
}

/// A value of `m` that bounds all those below `l` from below, or `l` when it
/// bounds them all, is `slowest_behind(m, l)`.
proof fn lemma_values_bounded_below(m: Map<u64, u128>, l: u128, best: u128)
    requires
        best <= l,
        best == l || m.values().contains(best),
        forall|v: u128| m.values().contains(v) && v < l ==> v >= best,
    ensures
        best == slowest_behind(m, l),
{
    if best < l {
        let k = choose|k: u64| m.contains_key(k) && m[k] == best;
        assert forall|j: u64| m.contains_key(j) && m[j] < l implies m[j] >= m[k] by {
            assert(m.values().contains(m[j]));
        }
        assert(is_bottom_behind(m, l, k));
        let c = choose|c: u64| is_bottom_behind(m, l, c);
        assert(m.values().contains(m[c]));
    } else {
        assert forall|k: u64| !is_bottom_behind(m, l, k) by {
            if m.contains_key(k) {
                assert(m.values().contains(m[k]));
            }
        }
    }
}

} // verus!
