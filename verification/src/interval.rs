//! An ordered interval set over `u32`: the set of contained values is stored
//! as a sorted sequence of non-empty, pairwise disjoint, non-adjacent
//! inclusive ranges.  This sequence is the unique minimal representation of
//! the underlying set of integers.

use vstd::prelude::*;

verus! {

/// A stored range sequence is well formed when every range is non-empty
/// (`lo <= hi`) and any two ranges, in order, are separated by at least one
/// absent value (`hi_i + 1 < lo_j`), so no two stored ranges could be merged.
pub open spec fn wf_seq(s: Seq<(u32, u32)>) -> bool {
    &&& forall|i: int| 0 <= i < s.len() ==> (#[trigger] s[i]).0 <= s[i].1
    &&& forall|i: int, j: int|
        #![trigger s[i], s[j]]
        0 <= i < j < s.len() ==> s[i].1 + 1 < s[j].0
}

/// The value `v` lies inside one of the stored ranges.
pub open spec fn seq_contains(s: Seq<(u32, u32)>, v: int) -> bool {
    exists|i: int| 0 <= i < s.len() && (#[trigger] s[i]).0 <= v && v <= s[i].1
}

/// An ordered set of `u32` values, stored as a minimal sorted sequence of
/// disjoint, non-adjacent inclusive ranges.
pub struct IntervalSet {
    ranges: Vec<(u32, u32)>,
}

impl IntervalSet {
    /// The stored ranges, in increasing order.
    pub closed spec fn ranges_seq(self) -> Seq<(u32, u32)> {
        self.ranges@
    }

    /// The representation invariant: the stored sequence is minimal.
    pub open spec fn wf(self) -> bool {
        wf_seq(self.ranges_seq())
    }

    /// The value `v` is a member of the set.
    pub open spec fn contains(self, v: int) -> bool {
        seq_contains(self.ranges_seq(), v)
    }

    /// An empty set.
    pub fn new() -> (s: Self)
        ensures
            s.wf(),
            s.ranges_seq() =~= Seq::<(u32, u32)>::empty(),
    {
        IntervalSet { ranges: Vec::new() }
    }

    /// An empty set; the capacity is only a hint for allocation.
    pub fn with_capacity(capacity: usize) -> (s: Self)
        ensures
            s.wf(),
            s.ranges_seq() =~= Seq::<(u32, u32)>::empty(),
    {
        IntervalSet { ranges: Vec::with_capacity(capacity) }
    }

    /// The set holding exactly the values of one inclusive range.
    pub fn from_range(lo: u32, hi: u32) -> (s: Self)
        requires
            lo <= hi,
        ensures
            s.wf(),
            s.ranges_seq() =~= seq![(lo, hi)],
            forall|v: int| s.contains(v) <==> lo as int <= v && v <= hi as int,
    {
        let mut ranges: Vec<(u32, u32)> = Vec::new();
        ranges.push((lo, hi));
        let s = IntervalSet { ranges };
        proof {
            assert forall|v: int| s.contains(v) <==> lo as int <= v && v <= hi as int by {
                if lo as int <= v && v <= hi as int {
                    assert(s.ranges_seq()[0].0 <= v && v <= s.ranges_seq()[0].1);
                }
            }
        }
        s
    }

    /// True exactly when no range (hence no value) is stored.
    pub fn is_empty(&self) -> (r: bool)
        ensures
            r <==> self.ranges_seq().len() == 0,
    {
        self.ranges.len() == 0
    }

    /// Resets the set to empty.
    pub fn clear(&mut self)
        ensures
            final(self).wf(),
            final(self).ranges_seq() =~= Seq::<(u32, u32)>::empty(),
    {
        self.ranges.clear();
    }

    /// The number of stored ranges.
    pub fn num_ranges(&self) -> (n: usize)
        ensures
            n == self.ranges_seq().len(),
    {
        self.ranges.len()
    }

    /// The `i`-th stored range.
    pub fn range_at(&self, i: usize) -> (r: (u32, u32))
        requires
            i < self.ranges_seq().len(),
        ensures
            r == self.ranges_seq()[i as int],
    {
        self.ranges[i]
    }

    /// Inserts the closed interval `[lo, hi]`, merging it with every stored
    /// range that overlaps or is adjacent to it, so that the stored sequence
    /// stays minimal.
    #[verifier::loop_isolation(false)]
    #[verifier::rlimit(50)]
    pub fn insert_range(&mut self, lo: u32, hi: u32)
        requires
            old(self).wf(),
            lo <= hi,
        ensures
            final(self).wf(),
            forall|v: int|
                #![trigger final(self).contains(v)]
                #![trigger old(self).contains(v)]
                final(self).contains(v) <==> (old(self).contains(v) || (lo as int <= v && v
                    <= hi as int)),
    {
        let ghost s0 = self.ranges@;
        let n = self.ranges.len();
        let mut out: Vec<(u32, u32)> = Vec::new();
        let mut i: usize = 0;
        // Copy the ranges that lie entirely below `lo` and are not adjacent to it.
        while i < n && lo > 0 && self.ranges[i].1 < lo - 1
            invariant
                0 <= i <= n,
                out@.len() == i as int,
                forall|k: int| 0 <= k < i ==> out@[k] == s0[k],
                forall|k: int| 0 <= k < i ==> (#[trigger] s0[k]).1 + 1 < lo,
            decreases n - i,
        {
            let r = self.ranges[i];
            out.push(r);
            i += 1;
        }
        let ghost p = i as int;
        proof {
            // Every range from position `p` on reaches up to `lo - 1` at least.
            assert forall|k: int| p <= k < n implies (#[trigger] s0[k]).1 + 1 >= lo by {
                if p < n && k > p {
                    assert(s0[p].1 + 1 < s0[k].0);
                    assert(s0[k].0 <= s0[k].1);
                }
            }
        }
        // Absorb every range that overlaps or is adjacent to `[lo, hi]`.
        let mut new_lo = lo;
        let mut new_hi = hi;
        while i < n && (self.ranges[i].0 <= hi || self.ranges[i].0 - 1 == hi)
            invariant
                p <= i as int <= n,
                new_lo <= lo,
                hi <= new_hi,
                i as int == p ==> new_lo == lo && new_hi == hi,
                i as int > p ==> (new_lo == lo || new_lo == s0[p].0),
                i as int > p ==> (new_hi == hi || new_hi == s0[i as int - 1].1),
                i as int > p ==> new_hi >= s0[i as int - 1].1,
                i as int > p ==> s0[i as int - 1].0 <= hi as int + 1,
                p > 0 ==> s0[p - 1].1 + 1 < new_lo,
                forall|k: int|
                    p <= k < i as int ==> new_lo as int <= (#[trigger] s0[k]).0 && s0[k].1
                        <= new_hi as int,
            decreases n - i,
        {
            let r = self.ranges[i];
            if r.0 < new_lo {
                new_lo = r.0;
            }
            if r.1 > new_hi {
                new_hi = r.1;
            }
            i += 1;
        }
        let ghost m = i as int;
        proof {
            if m < n {
                // The next range starts beyond `new_hi + 1`, so the merged
                // range is not adjacent to it.
                assert(s0[m].0 > hi + 1);
                if m > p {
                    assert(s0[m - 1].1 + 1 < s0[m].0);
                }
                assert(new_hi + 1 < s0[m].0);
            }
            assert forall|k: int| 0 <= k < p implies (#[trigger] s0[k]).1 + 1 < new_lo by {
                if k < p - 1 {
                    assert(s0[k].1 + 1 < s0[p - 1].0);
                    assert(s0[p - 1].0 <= s0[p - 1].1);
                }
            }
        }
        out.push((new_lo, new_hi));
        // Copy the remaining ranges, which all lie above `new_hi + 1`.
        while i < n
            invariant
                m <= i as int <= n,
                out@.len() == p + 1 + (i as int - m),
                forall|k: int| 0 <= k < p ==> out@[k] == s0[k],
                out@[p] == (new_lo, new_hi),
                forall|k: int| p < k < out@.len() ==> out@[k] == s0[m + k - p - 1],
            decreases n - i,
        {
            let r = self.ranges[i];
            out.push(r);
            i += 1;
        }
        proof {
            let so = out@;
            assert forall|a: int| 0 <= a < so.len() implies (#[trigger] so[a]).0 <= so[a].1 by {
                if a < p {
                    assert(so[a] == s0[a]);
                } else if a > p {
                    assert(so[a] == s0[m + a - p - 1]);
                }
            }
            assert forall|a: int, b: int|
                #![trigger so[a], so[b]]
                0 <= a < b < so.len() implies so[a].1 + 1 < so[b].0 by {
                if b < p {
                    assert(so[a] == s0[a] && so[b] == s0[b]);
                } else if b == p {
                    assert(so[a] == s0[a]);
                    assert(s0[a].1 + 1 < new_lo);
                } else if a == p {
                    let k = m + b - p - 1;
                    assert(so[b] == s0[k]);
                    if k > m {
                        assert(s0[m].1 + 1 < s0[k].0);
                        assert(s0[m].0 <= s0[m].1);
                    }
                    assert(new_hi + 1 < s0[k].0);
                } else if a < p {
                    let k = m + b - p - 1;
                    assert(so[a] == s0[a] && so[b] == s0[k]);
                    assert(s0[a].1 + 1 < s0[k].0);
                } else {
                    let ka = m + a - p - 1;
                    let kb = m + b - p - 1;
                    assert(so[a] == s0[ka] && so[b] == s0[kb]);
                    assert(s0[ka].1 + 1 < s0[kb].0);
                }
            }
            assert(wf_seq(so));
            assert forall|v: int|
                seq_contains(so, v) <==> (seq_contains(s0, v) || (lo as int <= v && v
                    <= hi as int)) by {
                if lo as int <= v && v <= hi as int {
                    assert(so[p].0 <= v && v <= so[p].1);
                    assert(seq_contains(so, v));
                } else if seq_contains(s0, v) {
                    let k = choose|k: int| 0 <= k < s0.len() && (#[trigger] s0[k]).0 <= v && v
                        <= s0[k].1;
                    if k < p {
                        assert(so[k] == s0[k]);
                        assert(seq_contains(so, v));
                    } else if k < m {
                        assert(new_lo as int <= s0[k].0 && s0[k].1 <= new_hi as int);
                        assert(so[p].0 <= v && v <= so[p].1);
                        assert(seq_contains(so, v));
                    } else {
                        let j = p + 1 + (k - m);
                        assert(so[j] == s0[k]);
                        assert(seq_contains(so, v));
                    }
                }
                if seq_contains(so, v) && !(lo as int <= v && v <= hi as int) {
                    let j = choose|j: int| 0 <= j < so.len() && (#[trigger] so[j]).0 <= v && v
                        <= so[j].1;
                    if j < p {
                        assert(so[j] == s0[j]);
                        assert(seq_contains(s0, v));
                    } else if j == p {
                        if v < lo as int {
                            assert(new_lo < lo);
                            assert(m > p && new_lo == s0[p].0);
                            assert(s0[p].1 + 1 >= lo);
                            assert(s0[p].0 <= v && v <= s0[p].1);
                            assert(seq_contains(s0, v));
                        } else {
                            assert(v > hi as int);
                            assert(new_hi > hi);
                            assert(m > p && new_hi == s0[m - 1].1);
                            assert(s0[m - 1].0 <= hi as int + 1);
                            assert(s0[m - 1].0 <= v && v <= s0[m - 1].1);
                            assert(seq_contains(s0, v));
                        }
                    } else {
                        let k = m + j - p - 1;
                        assert(so[j] == s0[k]);
                        assert(seq_contains(s0, v));
                    }
                }
            }
        }
        self.ranges = out;
    }

    /// Removes every value of the closed interval `[lo, hi]`.  A stored range
    /// fully inside `[lo, hi]` disappears, a partially overlapping one is
    /// truncated, and one that straddles `[lo, hi]` on both sides is split in
    /// two.  Removing absent values is a no-op.
    #[verifier::loop_isolation(false)]
    #[verifier::rlimit(50)]
    pub fn remove_range(&mut self, lo: u32, hi: u32)
        requires
            old(self).wf(),
            lo <= hi,
        ensures
            final(self).wf(),
            forall|v: int|
                #![trigger final(self).contains(v)]
                #![trigger old(self).contains(v)]
                final(self).contains(v) <==> (old(self).contains(v) && !(lo as int <= v && v
                    <= hi as int)),
    {
        let ghost s0 = self.ranges@;
        let n = self.ranges.len();
        let mut out: Vec<(u32, u32)> = Vec::new();
        let mut i: usize = 0;
        while i < n
            invariant
                0 <= i <= n,
                wf_seq(out@),
                forall|j: int, k: int|
                    #![trigger out@[j], s0[k]]
                    0 <= j < out@.len() && i as int <= k < n ==> out@[j].1 + 1 < s0[k].0,
                forall|v: int|
                    #![trigger seq_contains(out@, v)]
                    #![trigger seq_contains(s0.take(i as int), v)]
                    seq_contains(out@, v) <==> (seq_contains(s0.take(i as int), v) && !(
                    lo as int <= v && v <= hi as int)),
            decreases n - i,
        {
            let ghost out_pre = out@;
            let r = self.ranges[i];
            if r.1 < lo || r.0 > hi {
                // Entirely outside the removed interval: kept unchanged.
                out.push(r);
            } else {
                if r.0 < lo {
                    // The part below the removed interval survives.
                    out.push((r.0, lo - 1));
                }
                if r.1 > hi {
                    // The part above the removed interval survives.
                    out.push((hi + 1, r.1));
                }
            }
            i += 1;
            proof {
                let si = s0.take(i as int);
                assert(si.len() == i as int && si[i as int - 1] == s0[i as int - 1]);
                assert forall|v: int|
                    seq_contains(out@, v) <==> (seq_contains(si, v) && !(lo as int <= v && v
                        <= hi as int)) by {
                    if seq_contains(out@, v) {
                        let j = choose|j: int|
                            0 <= j < out@.len() && (#[trigger] out@[j]).0 <= v && v <= out@[j].1;
                        if j < out_pre.len() {
                            assert(out_pre[j] == out@[j]);
                            assert(seq_contains(out_pre, v));
                            let k = choose|k: int|
                                0 <= k < (i as int - 1) && (#[trigger] s0.take(i as int - 1)[k]).0
                                    <= v && v <= s0.take(i as int - 1)[k].1;
                            assert(si[k] == s0[k]);
                            assert(seq_contains(si, v));
                        } else {
                            // A piece of `r` pushed this iteration.
                            assert(r.0 <= v && v <= r.1);
                            assert(si[i as int - 1].0 <= v && v <= si[i as int - 1].1);
                            assert(seq_contains(si, v));
                        }
                    }
                    if seq_contains(si, v) && !(lo as int <= v && v <= hi as int) {
                        let k = choose|k: int|
                            0 <= k < si.len() && (#[trigger] si[k]).0 <= v && v <= si[k].1;
                        if k < i as int - 1 {
                            assert(s0.take(i as int - 1)[k] == si[k]);
                            assert(seq_contains(s0.take(i as int - 1), v));
                            assert(seq_contains(out_pre, v));
                            let j = choose|j: int|
                                0 <= j < out_pre.len() && (#[trigger] out_pre[j]).0 <= v && v
                                    <= out_pre[j].1;
                            assert(out@[j] == out_pre[j]);
                            assert(seq_contains(out@, v));
                        } else {
                            // `v` lies in `r` but outside `[lo, hi]`.
                            assert(r.0 <= v && v <= r.1);
                            if r.1 < lo || r.0 > hi {
                                let j = out_pre.len() as int;
                                assert(out@[j] == r);
                                assert(seq_contains(out@, v));
                            } else if v < lo as int {
                                let j = out_pre.len() as int;
                                assert(out@[j] == (r.0, (lo - 1) as u32));
                                assert(seq_contains(out@, v));
                            } else {
                                let j = out@.len() - 1;
                                assert(out@[j] == ((hi + 1) as u32, r.1));
                                assert(seq_contains(out@, v));
                            }
                        }
                    }
                }
            }
        }
        proof {
            assert(s0.take(n as int) =~= s0);
        }
        self.ranges = out;
    }

    /// Inserts the single value `v`; reports whether the set changed, that
    /// is, whether `v` was absent.
    pub fn insert(&mut self, v: u32) -> (r: bool)
        requires
            old(self).wf(),
        ensures
            final(self).wf(),
            forall|x: int|
                #![trigger final(self).contains(x)]
                #![trigger old(self).contains(x)]
                final(self).contains(x) <==> (old(self).contains(x) || x == v as int),
            r == !old(self).contains(v as int),
    {
        let had = self.contains_val(v);
        self.insert_range(v, v);
        !had
    }

    /// Removes the single value `v`; reports whether the set changed, that
    /// is, whether `v` was present.
    pub fn remove(&mut self, v: u32) -> (r: bool)
        requires
            old(self).wf(),
        ensures
            final(self).wf(),
            forall|x: int|
                #![trigger final(self).contains(x)]
                #![trigger old(self).contains(x)]
                final(self).contains(x) <==> (old(self).contains(x) && x != v as int),
            r == old(self).contains(v as int),
    {
        let had = self.contains_val(v);
        self.remove_range(v, v);
        had
    }

    /// Membership test by a scan of the stored ranges.
    pub fn contains_val(&self, v: u32) -> (r: bool)
        ensures
            r == self.contains(v as int),
    {
        let n = self.ranges.len();
        let mut i: usize = 0;
        while i < n
            invariant
                0 <= i <= n,
                n == self.ranges_seq().len(),
                forall|k: int|
                    0 <= k < i ==> !((#[trigger] self.ranges_seq()[k]).0 <= v as int
                        && v as int <= self.ranges_seq()[k].1),
            decreases n - i,
        {
            let r = self.ranges[i];
            if r.0 <= v && v <= r.1 {
                return true;
            }
            i += 1;
        }
        false
    }
}

/// Two well-formed range sequences that contain exactly the same values are
/// the same sequence: the minimal sorted disjoint-range representation of a
/// set of integers is unique.
pub proof fn lemma_wf_seq_unique(s1: Seq<(u32, u32)>, s2: Seq<(u32, u32)>)
    requires
        wf_seq(s1),
        wf_seq(s2),
        forall|v: int| seq_contains(s1, v) <==> seq_contains(s2, v),
    ensures
        s1 =~= s2,
    decreases s1.len(),
{
    if s1.len() == 0 {
        if s2.len() > 0 {
            assert(s2[0].0 <= s2[0].0 as int <= s2[0].1);
            assert(seq_contains(s2, s2[0].0 as int));
            assert(false);
        }
    } else if s2.len() == 0 {
        assert(s1[0].0 <= s1[0].0 as int <= s1[0].1);
        assert(seq_contains(s1, s1[0].0 as int));
        assert(false);
    } else {
        let l1 = s1[0].0;
        let h1 = s1[0].1;
        let l2 = s2[0].0;
        let h2 = s2[0].1;
        // The first stored value is the least member, so it agrees.
        assert(seq_contains(s1, l1 as int));
        assert(l2 <= l1) by {
            let k = choose|k: int|
                0 <= k < s2.len() && (#[trigger] s2[k]).0 <= l1 as int && l1 as int <= s2[k].1;
            if k > 0 {
                assert(s2[0].1 + 1 < s2[k].0);
            }
        }
        assert(seq_contains(s2, l2 as int));
        assert(l1 <= l2) by {
            let k = choose|k: int|
                0 <= k < s1.len() && (#[trigger] s1[k]).0 <= l2 as int && l2 as int <= s1[k].1;
            if k > 0 {
                assert(s1[0].1 + 1 < s1[k].0);
            }
        }
        // The first range's upper end agrees: the value just above it is
        // absent, since the next range starts strictly higher.
        if h1 < h2 {
            let v = h1 as int + 1;
            assert(s2[0].0 <= v <= s2[0].1);
            assert(seq_contains(s2, v));
            let k = choose|k: int|
                0 <= k < s1.len() && (#[trigger] s1[k]).0 <= v && v <= s1[k].1;
            if k > 0 {
                assert(s1[0].1 + 1 < s1[k].0);
            }
            assert(false);
        }
        if h2 < h1 {
            let v = h2 as int + 1;
            assert(s1[0].0 <= v <= s1[0].1);
            assert(seq_contains(s1, v));
            let k = choose|k: int|
                0 <= k < s2.len() && (#[trigger] s2[k]).0 <= v && v <= s2[k].1;
            if k > 0 {
                assert(s2[0].1 + 1 < s2[k].0);
            }
            assert(false);
        }
        assert(s1[0] == s2[0]);
        // The tails represent the same residual set; recurse.
        let t1 = s1.drop_first();
        let t2 = s2.drop_first();
        assert(wf_seq(t1) && wf_seq(t2)) by {
            assert(forall|i: int| 0 <= i < t1.len() ==> #[trigger] t1[i] == s1[i + 1]);
            assert(forall|i: int| 0 <= i < t2.len() ==> #[trigger] t2[i] == s2[i + 1]);
        }
        assert forall|v: int| seq_contains(t1, v) <==> seq_contains(t2, v) by {
            lemma_tail_contains(s1, v);
            lemma_tail_contains(s2, v);
        }
        lemma_wf_seq_unique(t1, t2);
        assert forall|i: int| 0 <= i < s1.len() implies s1[i] == s2[i] by {
            if i > 0 {
                assert(t1[i - 1] == s1[i] && t2[i - 1] == s2[i]);
            }
        }
    }
}

/// In a well-formed sequence, the tail contains exactly the members above the
/// first range.
proof fn lemma_tail_contains(s: Seq<(u32, u32)>, v: int)
    requires
        wf_seq(s),
        s.len() > 0,
    ensures
        seq_contains(s.drop_first(), v) <==> (seq_contains(s, v) && v > s[0].1),
{
    let t = s.drop_first();
    if seq_contains(t, v) {
        let k = choose|k: int| 0 <= k < t.len() && (#[trigger] t[k]).0 <= v && v <= t[k].1;
        assert(t[k] == s[k + 1]);
        assert(s[0].1 + 1 < s[k + 1].0);
        assert(seq_contains(s, v));
    }
    if seq_contains(s, v) && v > s[0].1 {
        let k = choose|k: int| 0 <= k < s.len() && (#[trigger] s[k]).0 <= v && v <= s[k].1;
        assert(k > 0);
        assert(t[k - 1] == s[k]);
        assert(seq_contains(t, v));
    }
}

/// The ascending sequence of all integers in `[lo, hi]`.
pub open spec fn span_seq(lo: int, hi: int) -> Seq<int> {
    Seq::new(
        if hi + 1 - lo >= 0 {
            (hi + 1 - lo) as nat
        } else {
            0
        },
        |k: int| lo + k,
    )
}

/// Every stored range written out value by value, in increasing order.
pub open spec fn expanded(s: Seq<(u32, u32)>) -> Seq<int>
    decreases s.len(),
{
    if s.len() == 0 {
        Seq::empty()
    } else {
        span_seq(s[0].0 as int, s[0].1 as int) + expanded(s.drop_first())
    }
}

/// The written-out value sequence holds exactly the members of the set.
pub proof fn lemma_expanded_contains(s: Seq<(u32, u32)>)
    ensures
        forall|v: int| #[trigger] expanded(s).contains(v) <==> seq_contains(s, v),
    decreases s.len(),
{
    if s.len() == 0 {
        assert forall|v: int| #[trigger] expanded(s).contains(v) <==> seq_contains(s, v) by {
            assert(!seq_contains(s, v));
            assert(expanded(s).len() == 0);
        }
    } else {
        let t = s.drop_first();
        lemma_expanded_contains(t);
        let sp = span_seq(s[0].0 as int, s[0].1 as int);
        let rest = expanded(t);
        assert forall|v: int| #[trigger] expanded(s).contains(v) <==> seq_contains(s, v) by {
            if expanded(s).contains(v) {
                let i = choose|i: int| 0 <= i < expanded(s).len() && expanded(s)[i] == v;
                if i < sp.len() {
                    assert(expanded(s)[i] == sp[i]);
                    assert(s[0].0 <= v && v <= s[0].1);
                    assert(seq_contains(s, v));
                } else {
                    assert(expanded(s)[i] == rest[i - sp.len()]);
                    assert(rest.contains(v));
                    assert(seq_contains(t, v));
                    let k = choose|k: int|
                        0 <= k < t.len() && (#[trigger] t[k]).0 <= v && v <= t[k].1;
                    assert(t[k] == s[k + 1]);
                    assert(seq_contains(s, v));
                }
            }
            if seq_contains(s, v) {
                let k = choose|k: int| 0 <= k < s.len() && (#[trigger] s[k]).0 <= v && v <= s[k].1;
                if k == 0 {
                    let i = v - s[0].0;
                    assert(sp[i] == v);
                    assert(expanded(s)[i] == sp[i]);
                    assert(expanded(s).contains(v));
                } else {
                    assert(t[k - 1] == s[k]);
                    assert(seq_contains(t, v));
                    assert(rest.contains(v));
                    let i = choose|i: int| 0 <= i < rest.len() && rest[i] == v;
                    assert(expanded(s)[sp.len() + i] == rest[i]);
                    assert(expanded(s).contains(v));
                }
            }
        }
    }
}

/// The written-out value sequence of a well-formed range sequence is strictly
/// increasing.
pub proof fn lemma_expanded_sorted(s: Seq<(u32, u32)>)
    requires
        wf_seq(s),
    ensures
        forall|a: int, b: int|
            0 <= a < b < expanded(s).len() ==> expanded(s)[a] < expanded(s)[b],
    decreases s.len(),
{
    if s.len() > 0 {
        let t = s.drop_first();
        assert(wf_seq(t)) by {
            assert(forall|i: int| 0 <= i < t.len() ==> #[trigger] t[i] == s[i + 1]);
        }
        lemma_expanded_sorted(t);
        lemma_expanded_contains(t);
        let sp = span_seq(s[0].0 as int, s[0].1 as int);
        let rest = expanded(t);
        assert forall|a: int, b: int|
            0 <= a < b < expanded(s).len() implies expanded(s)[a] < expanded(s)[b] by {
            if b < sp.len() {
                assert(expanded(s)[a] == sp[a] && expanded(s)[b] == sp[b]);
            } else if a >= sp.len() {
                assert(expanded(s)[a] == rest[a - sp.len()]);
                assert(expanded(s)[b] == rest[b - sp.len()]);
            } else {
                assert(expanded(s)[a] == sp[a]);
                assert(expanded(s)[a] <= s[0].1);
                let w = rest[b - sp.len()];
                assert(expanded(s)[b] == w);
                assert(rest.contains(w));
                assert(seq_contains(t, w));
                let k = choose|k: int|
                    0 <= k < t.len() && (#[trigger] t[k]).0 <= w && w <= t[k].1;
                assert(t[k] == s[k + 1]);
                assert(s[0].1 + 1 < s[k + 1].0);
            }
        }
    }
}

/// Unfolds the written-out value sequence of a suffix of the stored ranges by
/// one range.
pub proof fn lemma_expanded_skip(s: Seq<(u32, u32)>, k: int)
    requires
        0 <= k < s.len(),
    ensures
        expanded(s.skip(k)) == span_seq(s[k].0 as int, s[k].1 as int) + expanded(s.skip(k + 1)),
{
    assert(s.skip(k).len() > 0);
    assert(s.skip(k)[0] == s[k]);
    assert(s.skip(k).drop_first() =~= s.skip(k + 1));
}

} // verus!
