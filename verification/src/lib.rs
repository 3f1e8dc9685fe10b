//! A compact set of Unicode scalar values, stored as a minimal ordered
//! sequence of disjoint, non-adjacent inclusive code-point ranges.
//!
//! The set is built from two layers: [`interval::IntervalSet`], an ordered
//! interval set over `u32`, and [`CharSet`], a character-typed facade over
//! one such interval set that keeps the surrogate gap `0xD800..=0xDFFF`
//! unpopulated, so that every stored code point is a valid `char`.

pub mod interval;

use vstd::prelude::*;

use interval::IntervalSet;
use interval::expanded;
use interval::lemma_expanded_contains;
use interval::lemma_expanded_skip;
use interval::lemma_expanded_sorted;
use interval::lemma_wf_seq_unique;
use interval::seq_contains;
use interval::span_seq;
use interval::wf_seq;

verus! {

broadcast use vstd::utf8::char_is_scalar;

/// A code point that a `char` may hold: at most 0x10FFFF and not in the
/// surrogate gap.
pub open spec fn is_scalar_value(v: int) -> bool {
    0 <= v <= 0x10FFFF && !(0xD800 <= v <= 0xDFFF)
}

/// The set of all scalar values in `[lo, hi]`: the code points of the range
/// with the surrogate gap cut out.
pub open spec fn scalar_range(lo: int, hi: int) -> Set<int> {
    Set::new(|v: int| lo <= v <= hi && is_scalar_value(v))
}

/// The set of all integers in `[lo, hi]`.
pub open spec fn span_set(lo: int, hi: int) -> Set<int> {
    Set::new(|v: int| lo <= v <= hi)
}

/// Relies on `char::from_u32` of std: it returns the character of a code
/// point exactly when the value is a Unicode scalar value (at most 0x10FFFF
/// and not a surrogate), and that character casts back to the same value.
pub assume_specification[ char::from_u32 ](i: u32) -> (r: Option<char>)
    ensures
        r is Some <==> is_scalar_value(i as int),
        r is Some ==> r->0 as u32 == i,
;

/// A set of characters (Unicode scalar values), stored as a minimal ordered
/// sequence of disjoint, non-adjacent inclusive code-point ranges.
pub struct CharSet {
    intervals: IntervalSet,
}

impl View for CharSet {
    type V = Set<int>;

    /// The set of code points held by the set.
    open spec fn view(&self) -> Set<int> {
        Set::new(|v: int| seq_contains(self.range_seq(), v))
    }
}

impl CharSet {
    /// The stored code-point ranges, in increasing order.
    pub closed spec fn range_seq(self) -> Seq<(u32, u32)> {
        self.intervals.ranges_seq()
    }

    /// The representation invariant: the stored sequence is the minimal
    /// sorted disjoint-range representation, and every stored value is a
    /// Unicode scalar value.
    pub open spec fn inv(self) -> bool {
        &&& wf_seq(self.range_seq())
        &&& forall|v: int| #[trigger] seq_contains(self.range_seq(), v) ==> is_scalar_value(v)
    }

    /// An empty set.
    pub fn new() -> (s: Self)
        ensures
            s.inv(),
            s@ == Set::<int>::empty(),
            s.range_seq().len() == 0,
    {
        let s = CharSet { intervals: IntervalSet::new() };
        proof {
            assert(s@ =~= Set::<int>::empty());
        }
        s
    }

    /// An empty set; the capacity is only a hint for allocation.
    pub fn with_capacity(capacity: usize) -> (s: Self)
        ensures
            s.inv(),
            s@ == Set::<int>::empty(),
            s.range_seq().len() == 0,
    {
        let s = CharSet { intervals: IntervalSet::with_capacity(capacity) };
        proof {
            assert(s@ =~= Set::<int>::empty());
        }
        s
    }

    /// True exactly when the set holds no character.
    pub fn is_empty(&self) -> (r: bool)
        requires
            self.inv(),
        ensures
            r <==> self@ == Set::<int>::empty(),
    {
        let r = self.intervals.is_empty();
        proof {
            if r {
                assert(self@ =~= Set::<int>::empty());
            } else {
                let rs = self.range_seq();
                assert(rs[0].0 <= rs[0].0 as int <= rs[0].1);
                assert(seq_contains(rs, rs[0].0 as int));
                assert(self@.contains(rs[0].0 as int));
            }
        }
        r
    }

    /// Resets the set to empty.
    pub fn clear(&mut self)
        requires
            old(self).inv(),
        ensures
            final(self).inv(),
            final(self)@ == Set::<int>::empty(),
            final(self).range_seq().len() == 0,
    {
        self.intervals.clear();
        proof {
            assert(self@ =~= Set::<int>::empty());
        }
    }

    /// Consumes the set and exposes the raw interval engine.  Direct
    /// mutation of the result is no longer bound by the surrogate-gap
    /// invariant.
    pub fn into_inner(self) -> (r: IntervalSet)
        ensures
            r.ranges_seq() == self.range_seq(),
    {
        self.intervals
    }

    /// Inserts one character; reports whether it was absent.
    pub fn insert(&mut self, element: char) -> (r: bool)
        requires
            old(self).inv(),
        ensures
            final(self).inv(),
            final(self)@ == old(self)@.insert(element as u32 as int),
            r == !old(self)@.contains(element as u32 as int),
    {
        let v = element as u32;
        let r = self.intervals.insert(v);
        proof {
            assert(is_scalar_value(v as int));
            assert forall|x: int| #![trigger self@.contains(x)]
                self@.contains(x) <==> (old(self)@.contains(x) || x == v as int) by {
                assert(self@.contains(x) <==> self.intervals.contains(x));
                assert(old(self)@.contains(x) <==> old(self).intervals.contains(x));
            }
            assert(self@ =~= old(self)@.insert(v as int));
            assert(old(self)@.contains(v as int) <==> old(self).intervals.contains(v as int));
            assert forall|x: int|
                #[trigger] seq_contains(self.range_seq(), x) implies is_scalar_value(x) by {
                assert(self.intervals.contains(x));
                if old(self).intervals.contains(x) {
                    assert(seq_contains(old(self).range_seq(), x));
                }
            }
        }
        r
    }

    /// Removes one character; reports whether it was present.
    pub fn remove(&mut self, element: char) -> (r: bool)
        requires
            old(self).inv(),
        ensures
            final(self).inv(),
            final(self)@ == old(self)@.remove(element as u32 as int),
            r == old(self)@.contains(element as u32 as int),
    {
        let v = element as u32;
        let r = self.intervals.remove(v);
        proof {
            assert forall|x: int| #![trigger self@.contains(x)]
                self@.contains(x) <==> (old(self)@.contains(x) && x != v as int) by {
                assert(self@.contains(x) <==> self.intervals.contains(x));
                assert(old(self)@.contains(x) <==> old(self).intervals.contains(x));
            }
            assert(self@ =~= old(self)@.remove(v as int));
            assert(old(self)@.contains(v as int) <==> old(self).intervals.contains(v as int));
            assert forall|x: int|
                #[trigger] seq_contains(self.range_seq(), x) implies is_scalar_value(x) by {
                assert(self.intervals.contains(x));
                assert(seq_contains(old(self).range_seq(), x));
            }
        }
        r
    }

    /// Inserts every scalar value of the inclusive character range
    /// `[lo, hi]`.  A range that spans the surrogate gap is split in two
    /// before insertion, so the gap is never populated.
    pub fn insert_range(&mut self, lo: char, hi: char)
        requires
            old(self).inv(),
            lo as u32 <= hi as u32,
        ensures
            final(self).inv(),
            final(self)@ == old(self)@.union(scalar_range(lo as u32 as int, hi as u32 as int)),
    {
        let start = lo as u32;
        let end = hi as u32;
        proof {
            assert(is_scalar_value(start as int) && is_scalar_value(end as int));
        }
        if end >= 0xE000 && start < 0xD800 {
            // The requested range spans the surrogate gap: cut the gap out.
            self.intervals.insert_range(start, 0xD7FF);
            let ghost mid = self.intervals;
            self.intervals.insert_range(0xE000, end);
            proof {
                assert forall|x: int| #![trigger self@.contains(x)]
                    self@.contains(x) <==> (old(self)@.contains(x) || (start as int <= x
                        <= end as int && is_scalar_value(x))) by {
                    assert(self@.contains(x) <==> self.intervals.contains(x));
                    assert(self.intervals.contains(x) <==> (mid.contains(x) || (0xE000 <= x && x
                        <= end as int)));
                    assert(mid.contains(x) <==> (old(self).intervals.contains(x) || (
                    start as int <= x && x <= 0xD7FF)));
                    assert(old(self)@.contains(x) <==> old(self).intervals.contains(x));
                }
                assert(self@ =~= old(self)@.union(scalar_range(start as int, end as int)));
            }
        } else {
            self.intervals.insert_range(start, end);
            proof {
                assert forall|x: int| #![trigger self@.contains(x)]
                    self@.contains(x) <==> (old(self)@.contains(x) || (start as int <= x
                        <= end as int && is_scalar_value(x))) by {
                    assert(self@.contains(x) <==> self.intervals.contains(x));
                    assert(self.intervals.contains(x) <==> (old(self).intervals.contains(x) || (
                    start as int <= x && x <= end as int)));
                    assert(old(self)@.contains(x) <==> old(self).intervals.contains(x));
                }
                assert(self@ =~= old(self)@.union(scalar_range(start as int, end as int)));
            }
        }
        proof {
            assert forall|x: int|
                #[trigger] seq_contains(self.range_seq(), x) implies is_scalar_value(x) by {
                assert(self.intervals.contains(x));
                assert(self@.contains(x));
                if old(self)@.contains(x) {
                    assert(seq_contains(old(self).range_seq(), x));
                }
            }
        }
    }

    /// Removes every value of the inclusive character range `[lo, hi]`.
    pub fn remove_range(&mut self, lo: char, hi: char)
        requires
            old(self).inv(),
            lo as u32 <= hi as u32,
        ensures
            final(self).inv(),
            final(self)@ == old(self)@.difference(span_set(lo as u32 as int, hi as u32 as int)),
    {
        let start = lo as u32;
        let end = hi as u32;
        self.intervals.remove_range(start, end);
        proof {
            assert forall|x: int| #![trigger self@.contains(x)]
                self@.contains(x) <==> (old(self)@.contains(x) && !(start as int <= x
                    <= end as int)) by {
                assert(self@.contains(x) <==> self.intervals.contains(x));
                assert(old(self)@.contains(x) <==> old(self).intervals.contains(x));
            }
            assert(self@ =~= old(self)@.difference(span_set(start as int, end as int)));
            assert forall|x: int|
                #[trigger] seq_contains(self.range_seq(), x) implies is_scalar_value(x) by {
                assert(self.intervals.contains(x));
                assert(seq_contains(old(self).range_seq(), x));
            }
        }
    }

    /// The set holding exactly the scalar values of one inclusive character
    /// range; equivalent to `new` followed by one `insert_range`.
    pub fn from_range(lo: char, hi: char) -> (s: Self)
        requires
            lo as u32 <= hi as u32,
        ensures
            s.inv(),
            s@ == scalar_range(lo as u32 as int, hi as u32 as int),
    {
        let mut s = CharSet::new();
        s.insert_range(lo, hi);
        proof {
            assert(s@ =~= scalar_range(lo as u32 as int, hi as u32 as int));
        }
        s
    }

    /// A lazy iterator over the characters of the set, in increasing order.
    /// The set itself is unaffected; a fresh call restarts the iteration.
    pub fn iter<'a>(&'a self) -> (it: CharIter<'a>)
        requires
            self.inv(),
        ensures
            it.wf(),
            it.remaining() == expanded(self.range_seq()),
    {
        let n = self.intervals.num_ranges();
        let cur: u32 = if n > 0 {
            self.intervals.range_at(0).0
        } else {
            0
        };
        let it = CharIter { set: &self.intervals, idx: 0, cur };
        proof {
            let rs = self.range_seq();
            if n > 0 {
                assert(rs.skip(1) =~= rs.drop_first());
                assert(it.remaining() == expanded(rs));
            } else {
                assert(it.remaining() == expanded(rs));
            }
        }
        it
    }

    /// A lazy iterator over the stored character ranges, in increasing
    /// order.  The set itself is unaffected; a fresh call restarts the
    /// iteration.
    pub fn ranges<'a>(&'a self) -> (it: RangeIter<'a>)
        requires
            self.inv(),
        ensures
            it.wf(),
            it.remaining() == self.range_seq(),
    {
        let it = RangeIter { set: &self.intervals, idx: 0 };
        proof {
            assert(it.remaining() =~= self.range_seq());
        }
        it
    }
}

/// Law: the stored range sequence is always minimal — no range is empty and
/// no two consecutive ranges are adjacent or overlapping, so none could be
/// merged.
pub proof fn lemma_ranges_minimal(s: CharSet)
    requires
        s.inv(),
    ensures
        forall|i: int|
            0 <= i < s.range_seq().len() ==> (#[trigger] s.range_seq()[i]).0
                <= s.range_seq()[i].1,
        forall|i: int|
            0 <= i < s.range_seq().len() - 1 ==> (#[trigger] s.range_seq()[i]).1 + 1
                < s.range_seq()[i + 1].0,
{
    assert forall|i: int|
        0 <= i < s.range_seq().len() - 1 implies (#[trigger] s.range_seq()[i]).1 + 1
        < s.range_seq()[i + 1].0 by {
        let rs = s.range_seq();
        assert(rs[i].1 + 1 < rs[i + 1].0);
    }
}

/// Law: membership round trip — inserting a character makes it a member of
/// the view, and removing it afterwards takes it back out.
pub proof fn lemma_insert_remove_round_trip(s: Set<int>, c: char)
    ensures
        s.insert(c as u32 as int).contains(c as u32 as int),
        !s.insert(c as u32 as int).remove(c as u32 as int).contains(c as u32 as int),
{
}

/// Law: iteration is faithful — the value sequence that `iter` walks holds
/// exactly the members of the set, in strictly increasing order, so in
/// particular it never yields a surrogate code point.
pub proof fn lemma_iteration_faithful(s: CharSet)
    requires
        s.inv(),
    ensures
        forall|v: int| #[trigger] expanded(s.range_seq()).contains(v) <==> s@.contains(v),
        forall|a: int, b: int|
            0 <= a < b < expanded(s.range_seq()).len() ==> expanded(s.range_seq())[a] < expanded(
                s.range_seq(),
            )[b],
{
    lemma_expanded_contains(s.range_seq());
    lemma_expanded_sorted(s.range_seq());
    assert forall|v: int| #[trigger] expanded(s.range_seq()).contains(v) <==> s@.contains(
        v,
    ) by {
        assert(s@.contains(v) <==> seq_contains(s.range_seq(), v));
    }
}

/// Law: every member is a Unicode scalar value — never a surrogate and never
/// above 0x10FFFF.
pub proof fn lemma_members_are_scalar_values(s: CharSet, v: int)
    requires
        s.inv(),
        s@.contains(v),
    ensures
        is_scalar_value(v),
{
    assert(seq_contains(s.range_seq(), v));
}

/// Law: the representation is canonical — two sets with the same members
/// store the same range sequence, whatever operations built them.
pub proof fn lemma_canonical_representation(s1: CharSet, s2: CharSet)
    requires
        s1.inv(),
        s2.inv(),
        s1@ == s2@,
    ensures
        s1.range_seq() == s2.range_seq(),
{
    assert forall|v: int|
        #[trigger] seq_contains(s1.range_seq(), v) <==> seq_contains(s2.range_seq(), v) by {
        assert(s1@.contains(v) <==> seq_contains(s1.range_seq(), v));
        assert(s2@.contains(v) <==> seq_contains(s2.range_seq(), v));
    }
    lemma_wf_seq_unique(s1.range_seq(), s2.range_seq());
}

/// Law: inserting a range twice gives the same members as inserting it once;
/// by the canonical-representation law the stored ranges then agree as well.
pub proof fn lemma_insert_range_idempotent(s: Set<int>, lo: int, hi: int)
    ensures
        s.union(scalar_range(lo, hi)).union(scalar_range(lo, hi)) == s.union(
            scalar_range(lo, hi),
        ),
{
    assert(s.union(scalar_range(lo, hi)).union(scalar_range(lo, hi)) =~= s.union(
        scalar_range(lo, hi),
    ));
}

/// Law: a set holding every scalar value of the full Unicode range stores
/// exactly two ranges, split at the surrogate gap.
pub proof fn lemma_full_range_splits_at_gap(s: CharSet)
    requires
        s.inv(),
        s@ == scalar_range(0, 0x10FFFF),
    ensures
        s.range_seq() == seq![(0u32, 0xD7FFu32), (0xE000u32, 0x10FFFFu32)],
{
    let c: Seq<(u32, u32)> = seq![(0u32, 0xD7FFu32), (0xE000u32, 0x10FFFFu32)];
    assert(wf_seq(c)) by {
        assert(c[0].0 <= c[0].1 && c[1].0 <= c[1].1);
        assert forall|i: int, j: int|
            #![trigger c[i], c[j]]
            0 <= i < j < c.len() implies c[i].1 + 1 < c[j].0 by {
            assert(i == 0 && j == 1);
        }
    }
    assert forall|v: int|
        #[trigger] seq_contains(s.range_seq(), v) <==> seq_contains(c, v) by {
        assert(s@.contains(v) <==> seq_contains(s.range_seq(), v));
        if is_scalar_value(v) {
            if v <= 0xD7FF {
                assert(c[0].0 <= v && v <= c[0].1);
            } else {
                assert(c[1].0 <= v && v <= c[1].1);
            }
            assert(seq_contains(c, v));
        }
        if seq_contains(c, v) {
            let k = choose|k: int| 0 <= k < c.len() && (#[trigger] c[k]).0 <= v && v <= c[k].1;
            assert(is_scalar_value(v));
        }
    }
    lemma_wf_seq_unique(s.range_seq(), c);
}

/// Law: a set with no members stores no ranges, and its iteration walks an
/// empty value sequence.
pub proof fn lemma_empty_set_bare(s: CharSet)
    requires
        s.inv(),
        s@ == Set::<int>::empty(),
    ensures
        s.range_seq() == Seq::<(u32, u32)>::empty(),
        expanded(s.range_seq()) == Seq::<int>::empty(),
{
    assert forall|v: int|
        #[trigger] seq_contains(s.range_seq(), v) <==> seq_contains(
            Seq::<(u32, u32)>::empty(),
            v,
        ) by {
        assert(s@.contains(v) <==> seq_contains(s.range_seq(), v));
    }
    lemma_wf_seq_unique(s.range_seq(), Seq::<(u32, u32)>::empty());
}

/// A lazy iterator over the characters of a set, in increasing order.
pub struct CharIter<'a> {
    set: &'a IntervalSet,
    idx: usize,
    cur: u32,
}

impl<'a> CharIter<'a> {
    /// The iterator points into a well-formed, surrogate-free range
    /// sequence, either at a value of the current range or past the end.
    pub closed spec fn wf(self) -> bool {
        &&& wf_seq(self.set.ranges_seq())
        &&& forall|v: int|
            #[trigger] seq_contains(self.set.ranges_seq(), v) ==> is_scalar_value(v)
        &&& self.idx as int <= self.set.ranges_seq().len()
        &&& ((self.idx as int) < self.set.ranges_seq().len() ==> self.set.ranges_seq()[
        self.idx as int].0 <= self.cur && self.cur <= self.set.ranges_seq()[self.idx as int].1)
    }

    /// The code points not yet yielded, in the order they will come.
    pub closed spec fn remaining(self) -> Seq<int> {
        let rs = self.set.ranges_seq();
        if (self.idx as int) < rs.len() {
            span_seq(self.cur as int, rs[self.idx as int].1 as int) + expanded(
                rs.skip(self.idx as int + 1),
            )
        } else {
            Seq::empty()
        }
    }

    /// Yields the next character, or `None` once every member was yielded.
    pub fn next(&mut self) -> (r: Option<char>)
        requires
            old(self).wf(),
        ensures
            final(self).wf(),
            old(self).remaining().len() == 0 ==> r is None && final(self).remaining()
                == old(self).remaining(),
            old(self).remaining().len() > 0 ==> r is Some && r->0 as u32 as int == old(
                self,
            ).remaining()[0] && final(self).remaining() == old(self).remaining().drop_first(),
    {
        let ghost rs = self.set.ranges_seq();
        let n = self.set.num_ranges();
        if self.idx >= n {
            return None;
        }
        let range = self.set.range_at(self.idx);
        let v = self.cur;
        proof {
            assert(rs[self.idx as int].0 <= v as int <= rs[self.idx as int].1);
            assert(seq_contains(rs, v as int));
            assert(span_seq(v as int, range.1 as int)[0] == v as int);
        }
        let c = char::from_u32(v);
        match c {
            Some(ch) => {
                let ghost pre = *self;
                if v == range.1 {
                    self.idx = self.idx + 1;
                    if self.idx < n {
                        let next_range = self.set.range_at(self.idx);
                        self.cur = next_range.0;
                    }
                    proof {
                        assert(span_seq(v as int, range.1 as int).len() == 1);
                        assert(pre.remaining().drop_first() =~= expanded(
                            rs.skip(pre.idx as int + 1),
                        ));
                        if (self.idx as int) < rs.len() {
                            lemma_expanded_skip(rs, self.idx as int);
                            assert(self.remaining() == expanded(rs.skip(pre.idx as int + 1)));
                        } else {
                            assert(rs.skip(pre.idx as int + 1) =~= Seq::<(u32, u32)>::empty());
                            assert(expanded(rs.skip(pre.idx as int + 1)) =~= Seq::<int>::empty());
                        }
                    }
                } else {
                    self.cur = v + 1;
                    proof {
                        let tail = expanded(rs.skip(pre.idx as int + 1));
                        assert(pre.remaining().drop_first() =~= span_seq(
                            v as int + 1,
                            range.1 as int,
                        ) + tail) by {
                            assert(span_seq(v as int, range.1 as int).len() >= 2);
                        }
                        assert(self.remaining() == pre.remaining().drop_first());
                    }
                }
                Some(ch)
            },
            None => {
                proof {
                    assert(false);
                }
                None
            },
        }
    }
}

/// A lazy iterator over the stored character ranges of a set, in increasing
/// order.
pub struct RangeIter<'a> {
    set: &'a IntervalSet,
    idx: usize,
}

impl<'a> RangeIter<'a> {
    /// The iterator points into a well-formed, surrogate-free range
    /// sequence.
    pub closed spec fn wf(self) -> bool {
        &&& wf_seq(self.set.ranges_seq())
        &&& forall|v: int|
            #[trigger] seq_contains(self.set.ranges_seq(), v) ==> is_scalar_value(v)
        &&& self.idx as int <= self.set.ranges_seq().len()
    }

    /// The stored ranges not yet yielded, in the order they will come.
    pub closed spec fn remaining(self) -> Seq<(u32, u32)> {
        self.set.ranges_seq().skip(self.idx as int)
    }

    /// Yields the endpoints of the next stored range, or `None` once every
    /// range was yielded.
    pub fn next(&mut self) -> (r: Option<(char, char)>)
        requires
            old(self).wf(),
        ensures
            final(self).wf(),
            old(self).remaining().len() == 0 ==> r is None && final(self).remaining()
                == old(self).remaining(),
            old(self).remaining().len() > 0 ==> r is Some && (r->0).0 as u32
                == old(self).remaining()[0].0 && (r->0).1 as u32 == old(self).remaining()[0].1
                && final(self).remaining() == old(self).remaining().drop_first(),
    {
        let ghost rs = self.set.ranges_seq();
        let n = self.set.num_ranges();
        if self.idx >= n {
            return None;
        }
        let range = self.set.range_at(self.idx);
        proof {
            let k = self.idx as int;
            assert(rs[k].0 <= rs[k].0 as int <= rs[k].1);
            assert(rs[k].0 <= rs[k].1 as int <= rs[k].1);
            assert(seq_contains(rs, rs[k].0 as int));
            assert(seq_contains(rs, rs[k].1 as int));
            assert(old(self).remaining()[0] == rs[k]);
        }
        let lo = char::from_u32(range.0);
        let hi = char::from_u32(range.1);
        match (lo, hi) {
            (Some(l), Some(h)) => {
                self.idx = self.idx + 1;
                proof {
                    assert(final(self).remaining() =~= old(self).remaining().drop_first());
                }
                Some((l, h))
            },
            _ => {
                proof {
                    assert(false);
                }
                None
            },
        }
    }
}

} // verus!
