//! Contiguous integer intervals and their arithmetic: intersection,
//! shifting, prefixes and subtraction.

use vstd::math::{max, min};
use vstd::prelude::*;

verus! {

/// A contiguous interval of integers, `from ..= from + size - 1`.
#[derive(Clone, Copy, Debug, PartialEq, Eq, Structural)]
pub struct Range {
    pub from: i64,
    pub size: i64,
}

/// The last value inside `r`.
pub open spec fn range_end(r: Range) -> int {
    r.from + r.size - 1
}

/// A well-formed interval: strictly positive length, end representable in `i64`.
pub open spec fn range_valid(r: Range) -> bool {
    &&& r.size > 0
    &&& r.from + r.size - 1 <= i64::MAX
}

/// `v` lies inside `r`.
pub open spec fn range_covers(r: Range, v: int) -> bool {
    r.from <= v <= range_end(r)
}

/// The overlap of `a` and `b`: the interval from the larger start to the
/// smaller end, when that is non-empty.
pub open spec fn spec_intersect(a: Range, b: Range) -> Option<Range> {
    let start = max(a.from as int, b.from as int);
    let end = min(range_end(a), range_end(b));
    if start <= end {
        Some(Range { from: start as i64, size: (end - start + 1) as i64 })
    } else {
        None
    }
}

/// The length of the overlap of `a` and `b` (zero when they are disjoint).
pub open spec fn spec_intersect_len(a: Range, b: Range) -> int {
    match spec_intersect(a, b) {
        Some(i) => i.size as int,
        None => 0,
    }
}

/// What remains of `a` after removing every value that `b` covers:
/// at most one piece to the left of `b` and one to the right, in order.
pub open spec fn spec_subtract(a: Range, b: Range) -> Seq<Range> {
    let lefts: Seq<Range> = if a.from < b.from {
        let end = min(range_end(a), b.from - 1);
        seq![Range { from: a.from, size: (end - a.from + 1) as i64 }]
    } else {
        Seq::empty()
    };
    let rights: Seq<Range> = if range_end(b) < range_end(a) {
        let start = max(a.from as int, range_end(b) + 1);
        seq![Range { from: start as i64, size: (range_end(a) - start + 1) as i64 }]
    } else {
        Seq::empty()
    };
    lefts + rights
}

/// Some piece of `s` covers `v`.
pub open spec fn in_pieces(s: Seq<Range>, v: int) -> bool {
    exists|i: int| 0 <= i < s.len() && range_covers(s[i], v)
}

/// The total length of a list of intervals.
pub open spec fn sum_sizes(s: Seq<Range>) -> int
    decreases s.len(),
{
    if s.len() == 0 {
        0
    } else {
        s[0].size + sum_sizes(s.skip(1))
    }
}

impl Range {
    /// The last value inside the interval.
    pub fn to(&self) -> (r: i64)
        requires
            range_valid(*self),
        ensures
            r == range_end(*self),
    {
        self.from + (self.size - 1)
    }

    /// The interval shifted by `value`, keeping its length.
    pub fn move_by(&self, value: i64) -> (r: Range)
        requires
            range_valid(*self),
            i64::MIN <= self.from + value,
            self.from + value + self.size - 1 <= i64::MAX,
        ensures
            r == (Range { from: (self.from + value) as i64, size: self.size }),
            range_valid(r),
    {
        Range { from: self.from + value, size: self.size }
    }

    /// The interval of the same length that starts at `dest`.
    pub fn project(&self, dest: i64) -> (r: Range)
        requires
            range_valid(*self),
            dest + self.size - 1 <= i64::MAX,
        ensures
            r == (Range { from: dest, size: self.size }),
            range_valid(r),
    {
        Range { from: dest, size: self.size }
    }

    /// The overlap of the two intervals, or `None` when they are disjoint.
    pub fn intersect(&self, range: &Range) -> (r: Option<Range>)
        requires
            range_valid(*self),
            range_valid(*range),
        ensures
            r == spec_intersect(*self, *range),
            r is Some ==> range_valid(r->Some_0),
    {
        let start: i64 = if self.from >= range.from { self.from } else { range.from };
        let self_to: i64 = self.to();
        let range_to: i64 = range.to();
        let end: i64 = if self_to <= range_to { self_to } else { range_to };
        Range::start_end(start, end)
    }

    /// The part of this interval that lies strictly before `range` starts,
    /// clipped to the smaller of the two ends.
    pub fn prefix(&self, range: &Range) -> (r: Option<Range>)
        requires
            range_valid(*self),
            range_valid(*range),
        ensures
            r == (if self.from < range.from {
                let end = min(range_end(*self), range_end(*range));
                if self.from <= end {
                    Some(Range { from: self.from, size: (end - self.from + 1) as i64 })
                } else {
                    None::<Range>
                }
            } else {
                None::<Range>
            }),
            r is Some ==> range_valid(r->Some_0),
    {
        if self.from < range.from {
            let self_to: i64 = self.to();
            let range_to: i64 = range.to();
            let end: i64 = if self_to <= range_to { self_to } else { range_to };
            Range::start_end(self.from, end)
        } else {
            None
        }
    }

    /// What remains of this interval once every value covered by `range`
    /// is removed: zero, one or two pieces, left to right.
    pub fn substract(&self, range: &Range) -> (r: Vec<Range>)
        requires
            range_valid(*self),
            range_valid(*range),
        ensures
            r@ == spec_subtract(*self, *range),
    {
        let mut out: Vec<Range> = Vec::new();
        let self_to: i64 = self.to();
        let range_to: i64 = range.to();
        if self.from < range.from {
            let end: i64 = if self_to <= range.from - 1 { self_to } else { range.from - 1 };
            out.push(Range { from: self.from, size: end - self.from + 1 });
        }
        if range_to < self_to {
            let start: i64 = if self.from >= range_to + 1 { self.from } else { range_to + 1 };
            out.push(Range { from: start, size: self_to - start + 1 });
        }
        proof {
            assert(out@ =~= spec_subtract(*self, *range));
        }
        out
    }

    /// The interval running from `start` to `end` inclusive, or `None`
    /// when `start > end` makes it empty.
    pub fn start_end(start: i64, end: i64) -> (r: Option<Range>)
        requires
            start <= end ==> end - start + 1 <= i64::MAX,
        ensures
            r == (if start <= end {
                Some(Range { from: start, size: (end - start + 1) as i64 })
            } else {
                None::<Range>
            }),
            r is Some ==> range_valid(r->Some_0),
    {
        if start <= end {
            Some(Range { from: start, size: end - start + 1 })
        } else {
            None
        }
    }

    /// The interval starting at `from` with `size` values, or `None` when the
    /// size is not strictly positive or the end does not fit in `i64`.
    pub fn from_size(from: i64, size: i64) -> (r: Option<Range>)
        ensures
            r == (if size > 0 && from + size - 1 <= i64::MAX {
                Some(Range { from, size })
            } else {
                None::<Range>
            }),
            r is Some ==> range_valid(r->Some_0),
    {
        if size > 0 && from <= i64::MAX - (size - 1) {
            Some(Range { from, size })
        } else {
            None
        }
    }

    /// Translates `value` by the constant offset that carries this interval
    /// onto the one starting at `dest`; `None` when `value` lies outside.
    pub fn tr_val(&self, value: i64, dest: i64) -> (r: Option<i64>)
        requires
            range_valid(*self),
            dest + self.size - 1 <= i64::MAX,
        ensures
            r == (if range_covers(*self, value as int) {
                Some((value - self.from + dest) as i64)
            } else {
                None::<i64>
            }),
    {
        if self.from <= value && value <= self.to() {
            Some(value - self.from + dest)
        } else {
            None
        }
    }
}

/// Intersection does not depend on the order of its arguments.
pub proof fn lemma_intersect_commutative(a: Range, b: Range)
    ensures
        spec_intersect(a, b) == spec_intersect(b, a),
{
}

/// A non-empty intersection lies inside both of its arguments.
pub proof fn lemma_intersect_contained(a: Range, b: Range)
    ensures
        spec_intersect(a, b) is Some ==> {
            let i = spec_intersect(a, b)->Some_0;
            &&& a.from <= i.from
            &&& b.from <= i.from
            &&& range_end(i) <= range_end(a)
            &&& range_end(i) <= range_end(b)
        },
{
}

/// A value is covered by the intersection exactly when it is covered by both
/// arguments; in particular the intersection is `None` only when no value is.
pub proof fn lemma_intersect_pointwise(a: Range, b: Range, v: int)
    requires
        range_valid(a),
        range_valid(b),
    ensures
        (match spec_intersect(a, b) {
            Some(i) => range_covers(i, v),
            None => false,
        }) <==> (range_covers(a, v) && range_covers(b, v)),
        spec_intersect(a, b) is Some ==> range_valid(spec_intersect(a, b)->Some_0),
{
}

/// The pieces of `spec_subtract(a, b)` are valid, lie inside `a`, and cover
/// exactly the values of `a` that `b` does not cover.
pub proof fn lemma_subtract_pieces(a: Range, b: Range)
    requires
        range_valid(a),
        range_valid(b),
    ensures
        forall|i: int|
            0 <= i < spec_subtract(a, b).len() ==> {
                let p = #[trigger] spec_subtract(a, b)[i];
                &&& range_valid(p)
                &&& a.from <= p.from
                &&& range_end(p) <= range_end(a)
            },
        forall|v: int| #[trigger]
            in_pieces(spec_subtract(a, b), v) <==> (range_covers(a, v) && !range_covers(b, v)),
{
    let s = spec_subtract(a, b);
    assert forall|v: int|
        in_pieces(s, v) <==> (range_covers(a, v) && !range_covers(b, v)) by {
        if range_covers(a, v) && !range_covers(b, v) {
            if v < b.from {
                assert(range_covers(s[0], v));
            } else {
                assert(range_covers(s[s.len() - 1], v));
            }
        }
    }
}

/// Subtraction conserves length: the pieces of `a - b` total the length of
/// `a` minus the length of the overlap of `a` and `b`.
pub proof fn lemma_subtract_sum(a: Range, b: Range)
    requires
        range_valid(a),
        range_valid(b),
    ensures
        sum_sizes(spec_subtract(a, b)) == a.size - spec_intersect_len(a, b),
{
    let s = spec_subtract(a, b);
    reveal_with_fuel(sum_sizes, 4);
    assert(s.len() <= 2);
    if s.len() == 2 {
        assert(s.skip(1).len() == 1);
        assert(s.skip(1)[0] == s[1]);
        assert(s.skip(1).skip(1).len() == 0);
    } else if s.len() == 1 {
        assert(s.skip(1).len() == 0);
    }
}

/// A value is covered by a concatenation of pieces exactly when one of the
/// two parts covers it.
pub proof fn lemma_in_pieces_concat(a: Seq<Range>, b: Seq<Range>)
    ensures
        forall|v: int| #[trigger] in_pieces(a + b, v) <==> (in_pieces(a, v) || in_pieces(b, v)),
{
    assert forall|v: int| #[trigger]
        in_pieces(a + b, v) <==> (in_pieces(a, v) || in_pieces(b, v)) by {
        if in_pieces(a + b, v) {
            let i = choose|i: int| 0 <= i < (a + b).len() && range_covers((a + b)[i], v);
            if i < a.len() {
                assert(range_covers(a[i], v));
            } else {
                assert(range_covers(b[i - a.len()], v));
            }
        }
        if in_pieces(a, v) {
            let i = choose|i: int| 0 <= i < a.len() && range_covers(a[i], v);
            assert(range_covers((a + b)[i], v));
        }
        if in_pieces(b, v) {
            let i = choose|i: int| 0 <= i < b.len() && range_covers(b[i], v);
            assert(range_covers((a + b)[a.len() + i], v));
        }
    }
}

/// `sum_sizes` distributes over concatenation.
pub proof fn lemma_sum_sizes_concat(x: Seq<Range>, y: Seq<Range>)
    ensures
        sum_sizes(x + y) == sum_sizes(x) + sum_sizes(y),
    decreases x.len(),
{
    if x.len() == 0 {
        assert(x + y =~= y);
    } else {
        assert((x + y).skip(1) =~= x.skip(1) + y);
        lemma_sum_sizes_concat(x.skip(1), y);
    }
}

/// Appending one interval adds its length to the total.
pub proof fn lemma_sum_sizes_push(s: Seq<Range>, r: Range)
    ensures
        sum_sizes(s.push(r)) == sum_sizes(s) + r.size,
{
    assert(s.push(r) =~= s + seq![r]);
    lemma_sum_sizes_concat(s, seq![r]);
    reveal_with_fuel(sum_sizes, 2);
    assert(seq![r].skip(1).len() == 0);
}

} // verus!
