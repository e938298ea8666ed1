//! A single remapping rule: a source interval carried onto a destination
//! start by a constant offset, and the first-match lookup model that a list
//! of such rules denotes.

use crate::range::{
    range_covers, range_end, range_valid, spec_intersect, Range,
};
use vstd::prelude::*;

verus! {

/// One rule: values inside `range` move by the constant offset that sends
/// `range.from` to `dest`; values outside are not this rule's business.
#[derive(Clone, Copy, Debug, PartialEq, Eq, Structural)]
pub struct Translation {
    pub range: Range,
    pub dest: i64,
}

/// A well-formed rule: a valid source interval whose translated image also
/// fits in `i64`.
pub open spec fn tr_valid(t: Translation) -> bool {
    &&& range_valid(t.range)
    &&& t.dest + t.range.size - 1 <= i64::MAX
}

/// `v` lies inside the rule's source interval.
pub open spec fn tr_covers(t: Translation, v: int) -> bool {
    range_covers(t.range, v)
}

/// The value `v` translated by the rule's offset.
pub open spec fn tr_apply(t: Translation, v: int) -> int {
    v - t.range.from + t.dest
}

/// Every rule in the list is well-formed.
pub open spec fn all_valid(ts: Seq<Translation>) -> bool {
    forall|i: int| 0 <= i < ts.len() ==> tr_valid(#[trigger] ts[i])
}

/// Some rule in the list covers `v`.
pub open spec fn covered_by(ts: Seq<Translation>, v: int) -> bool {
    exists|i: int| 0 <= i < ts.len() && tr_covers(#[trigger] ts[i], v)
}

/// Any two rules of the list that both cover a value send it to the same
/// place. Rule sets whose source intervals never overlap are coherent.
pub open spec fn coherent(ts: Seq<Translation>) -> bool {
    forall|i: int, j: int, v: int|
        0 <= i < ts.len() && 0 <= j < ts.len() && #[trigger] tr_covers(ts[i], v)
            && #[trigger] tr_covers(ts[j], v) ==> tr_apply(ts[i], v) == tr_apply(ts[j], v)
}

/// The source intervals of the list are pairwise disjoint.
pub open spec fn non_overlapping(ts: Seq<Translation>) -> bool {
    forall|i: int, j: int, v: int|
        0 <= i < ts.len() && 0 <= j < ts.len() && i != j && #[trigger] tr_covers(ts[i], v)
            ==> !(#[trigger] tr_covers(ts[j], v))
}

/// The first rule of the list that covers `v`, if any: the lookup policy.
pub open spec fn first_match(ts: Seq<Translation>, v: int) -> Option<Translation>
    decreases ts.len(),
{
    if ts.len() == 0 {
        None
    } else if tr_covers(ts[0], v) {
        Some(ts[0])
    } else {
        first_match(ts.skip(1), v)
    }
}

/// Point lookup with identity fallback: the first covering rule translates
/// `v`; with no covering rule, `v` maps to itself.
pub open spec fn lookup(ts: Seq<Translation>, v: int) -> int {
    match first_match(ts, v) {
        Some(t) => tr_apply(t, v),
        None => v,
    }
}

/// A match is found exactly when some rule covers the value, and the rule
/// found is a covering member of the list.
pub proof fn lemma_first_match_covered(ts: Seq<Translation>, v: int)
    ensures
        first_match(ts, v) is Some <==> covered_by(ts, v),
        first_match(ts, v) matches Some(t) ==> tr_covers(t, v) && exists|i: int|
            0 <= i < ts.len() && #[trigger] ts[i] == t,
    decreases ts.len(),
{
    if ts.len() > 0 {
        lemma_first_match_covered(ts.skip(1), v);
        if tr_covers(ts[0], v) {
            assert(covered_by(ts, v));
        } else {
            if covered_by(ts, v) {
                let i = choose|i: int| 0 <= i < ts.len() && tr_covers(ts[i], v);
                assert(ts.skip(1)[i - 1] == ts[i]);
                assert(covered_by(ts.skip(1), v));
            }
            if first_match(ts.skip(1), v) is Some {
                let t = first_match(ts.skip(1), v)->Some_0;
                let i = choose|i: int| 0 <= i < ts.skip(1).len() && #[trigger] ts.skip(1)[i] == t;
                assert(ts[i + 1] == t);
            }
        }
    }
}

/// In a coherent list, any covering rule computes the lookup's value.
pub proof fn lemma_lookup_of_member(ts: Seq<Translation>, v: int, i: int)
    requires
        coherent(ts),
        0 <= i < ts.len(),
        tr_covers(ts[i], v),
    ensures
        lookup(ts, v) == tr_apply(ts[i], v),
{
    assert(covered_by(ts, v));
    lemma_first_match_covered(ts, v);
    let t = first_match(ts, v)->Some_0;
    let j = choose|j: int| 0 <= j < ts.len() && ts[j] == t;
    assert(tr_apply(ts[j], v) == tr_apply(ts[i], v));
}

/// With no covering rule the lookup is the identity.
pub proof fn lemma_lookup_identity(ts: Seq<Translation>, v: int)
    requires
        !covered_by(ts, v),
    ensures
        lookup(ts, v) == v,
{
    lemma_first_match_covered(ts, v);
}

/// Skipping a prefix that does not cover `v` leaves the match unchanged.
pub proof fn lemma_first_match_skip(ts: Seq<Translation>, v: int, k: int)
    requires
        0 <= k <= ts.len(),
        forall|i: int| 0 <= i < k ==> !tr_covers(#[trigger] ts[i], v),
    ensures
        first_match(ts, v) == first_match(ts.skip(k), v),
    decreases k,
{
    if k > 0 {
        assert(!tr_covers(ts[0], v));
        assert forall|i: int| 0 <= i < k - 1 implies !tr_covers(#[trigger] ts.skip(1)[i], v) by {
            assert(ts.skip(1)[i] == ts[i + 1]);
        }
        lemma_first_match_skip(ts.skip(1), v, k - 1);
        assert(ts.skip(1).skip(k - 1) =~= ts.skip(k));
    } else {
        assert(ts.skip(0) =~= ts);
    }
}

/// A value is covered by a concatenation of rule lists exactly when one of
/// the two parts covers it.
pub proof fn lemma_covered_by_concat(a: Seq<Translation>, b: Seq<Translation>)
    ensures
        forall|v: int| #[trigger] covered_by(a + b, v) <==> (covered_by(a, v) || covered_by(b, v)),
{
    assert forall|v: int| #[trigger]
        covered_by(a + b, v) <==> (covered_by(a, v) || covered_by(b, v)) by {
        if covered_by(a + b, v) {
            let i = choose|i: int| 0 <= i < (a + b).len() && tr_covers((a + b)[i], v);
            if i < a.len() {
                assert(tr_covers(a[i], v));
            } else {
                assert(tr_covers(b[i - a.len()], v));
            }
        }
        if covered_by(a, v) {
            let i = choose|i: int| 0 <= i < a.len() && tr_covers(a[i], v);
            assert(tr_covers((a + b)[i], v));
        }
        if covered_by(b, v) {
            let i = choose|i: int| 0 <= i < b.len() && tr_covers(b[i], v);
            assert(tr_covers((a + b)[a.len() + i], v));
        }
    }
}

/// Lists whose source intervals never overlap are coherent.
pub proof fn lemma_non_overlapping_coherent(ts: Seq<Translation>)
    requires
        non_overlapping(ts),
    ensures
        coherent(ts),
{
}

/// A covered value translates by the rule's constant offset — the
/// difference of the destination start and the source start — and the
/// inverse shift recovers the value.
pub proof fn lemma_translate_point_shift(t: Translation, v: int)
    requires
        tr_covers(t, v),
    ensures
        tr_apply(t, v) == v + t.dest - t.range.from,
        tr_apply(t, v) - (t.dest - t.range.from) == v,
{
}

impl Translation {
    /// This rule's translation of `val`, or `None` when `val` lies outside
    /// its source interval.
    pub fn tr_val(&self, val: i64) -> (r: Option<i64>)
        requires
            tr_valid(*self),
        ensures
            r == (if tr_covers(*self, val as int) {
                Some(tr_apply(*self, val as int) as i64)
            } else {
                None::<i64>
            }),
    {
        self.range.tr_val(val, self.dest)
    }

    /// Composes this rule with a following one: where this rule's image
    /// meets `other`'s source, one rule carries the pre-image straight to
    /// `other`'s destination, shifted by where the overlap starts inside
    /// `other`'s source. Disjoint images compose to nothing.
    pub fn join(&self, other: &Translation) -> (r: Vec<Translation>)
        requires
            tr_valid(*self),
            tr_valid(*other),
        ensures
            r@ == spec_join_pair(*self, *other),
    {
        let project: Range = self.range.project(self.dest);
        let inter: Option<Range> = project.intersect(&other.range);
        let mut out: Vec<Translation> = Vec::new();
        if let Some(inter) = inter {
            let source: Range = Range {
                from: inter.from - self.dest + self.range.from,
                size: inter.size,
            };
            let dest: i64 = other.dest + (inter.from - other.range.from);
            out.push(Translation { range: source, dest });
        }
        proof {
            assert(out@ =~= spec_join_pair(*self, *other));
        }
        out
    }
}

/// The rule, if any, that composes rule `a` with a following rule `b`.
pub open spec fn spec_join_pair(a: Translation, b: Translation) -> Seq<Translation> {
    let project = Range { from: a.dest, size: a.range.size };
    match spec_intersect(project, b.range) {
        Some(inter) => seq![
            Translation {
                range: Range {
                    from: (inter.from - a.dest + a.range.from) as i64,
                    size: inter.size,
                },
                dest: (b.dest + (inter.from - b.range.from)) as i64,
            },
        ],
        None => Seq::empty(),
    }
}

/// The composed pair rule is valid, covers exactly the values that `a`
/// sends into `b`'s source, and agrees there with applying `a` then `b`.
pub proof fn lemma_join_pair_semantics(a: Translation, b: Translation)
    requires
        tr_valid(a),
        tr_valid(b),
    ensures
        forall|i: int|
            0 <= i < spec_join_pair(a, b).len() ==> tr_valid(#[trigger] spec_join_pair(a, b)[i]),
        forall|v: int|
            (exists|i: int|
                0 <= i < spec_join_pair(a, b).len() && tr_covers(
                    #[trigger] spec_join_pair(a, b)[i],
                    v,
                )) <==> (tr_covers(a, v) && tr_covers(b, tr_apply(a, v))),
        forall|i: int, v: int|
            0 <= i < spec_join_pair(a, b).len() && #[trigger] tr_covers(spec_join_pair(a, b)[i], v)
                ==> tr_apply(spec_join_pair(a, b)[i], v) == tr_apply(b, tr_apply(a, v)),
{
    let s = spec_join_pair(a, b);
    let project = Range { from: a.dest, size: a.range.size };
    assert forall|v: int|
        (exists|i: int| 0 <= i < s.len() && tr_covers(#[trigger] s[i], v)) <==> (tr_covers(a, v)
            && tr_covers(b, tr_apply(a, v))) by {
        if tr_covers(a, v) && tr_covers(b, tr_apply(a, v)) {
            assert(spec_intersect(project, b.range) is Some);
            assert(tr_covers(s[0], v));
        }
    }
}

} // verus!
