//! Rule sets: the unordered list of rules of one pipeline stage, its
//! first-match point lookup, range translation, and the composition of two
//! consecutive stages into one equivalent rule set.

use crate::range::{
    in_pieces, lemma_in_pieces_concat, lemma_intersect_pointwise, lemma_subtract_pieces,
    lemma_subtract_sum, lemma_sum_sizes_concat, range_covers, range_end, range_valid,
    spec_intersect, sum_sizes, Range,
};
use crate::translation::{
    all_valid, covered_by, coherent, first_match, lemma_covered_by_concat,
    lemma_first_match_covered, lemma_first_match_skip, lemma_join_pair_semantics,
    lemma_lookup_identity, lemma_lookup_of_member, lookup, spec_join_pair, tr_apply, tr_covers,
    tr_valid, Translation,
};
use vstd::prelude::*;

verus! {

/// The rule set of one pipeline stage. Lookups take the first rule whose
/// source interval covers the value; uncovered values map to themselves.
#[derive(Debug)]
pub struct Translations {
    pub translations: Vec<Translation>,
}

impl View for Translations {
    type V = Seq<Translation>;

    open spec fn view(&self) -> Seq<Translation> {
        self.translations@
    }
}

impl Translations {
    /// The first matching rule's translation of `val`, or `None` when no
    /// rule covers it.
    pub fn tr_val(&self, val: i64) -> (r: Option<i64>)
        requires
            all_valid(self@),
        ensures
            r == (match first_match(self@, val as int) {
                Some(t) => Some(tr_apply(t, val as int) as i64),
                None => None::<i64>,
            }),
    {
        let mut i: usize = 0;
        while i < self.translations.len()
            invariant
                i <= self.translations.len(),
                all_valid(self@),
                forall|j: int| 0 <= j < i ==> !tr_covers(#[trigger] self@[j], val as int),
            decreases self.translations.len() - i,
        {
            let t: Translation = self.translations[i];
            let res: Option<i64> = t.tr_val(val);
            if res.is_some() {
                proof {
                    lemma_first_match_skip(self@, val as int, i as int);
                    assert(self@.skip(i as int)[0] == self@[i as int]);
                }
                return res;
            }
            i += 1;
        }
        proof {
            lemma_first_match_skip(self@, val as int, self@.len() as int);
        }
        None
    }

    /// Composes every rule of this set with the single following rule
    /// `other`: the collected pair rules cover exactly the values that some
    /// rule of this set sends into `other`'s source interval.
    pub fn join_one(&self, other: &Translation) -> (r: Vec<Translation>)
        requires
            all_valid(self@),
            tr_valid(*other),
        ensures
            all_valid(r@),
            forall|k: int| 0 <= k < r@.len() ==> pair_rule_ok(#[trigger] r@[k], self@, *other),
            forall|i: int, v: int|
                0 <= i < self@.len() && #[trigger] tr_covers(self@[i], v) && tr_covers(
                    *other,
                    tr_apply(self@[i], v),
                ) ==> covered_by(r@, v),
    {
        let ghost ats = self@;
        let mut out: Vec<Translation> = Vec::new();
        let mut i: usize = 0;
        while i < self.translations.len()
            invariant
                i <= self.translations.len(),
                ats == self@,
                all_valid(ats),
                tr_valid(*other),
                all_valid(out@),
                forall|k: int| 0 <= k < out@.len() ==> pair_rule_ok(#[trigger] out@[k], ats, *other),
                forall|i2: int, v: int|
                    0 <= i2 < i && #[trigger] tr_covers(ats[i2], v) && tr_covers(
                        *other,
                        tr_apply(ats[i2], v),
                    ) ==> covered_by(out@, v),
            decreases self.translations.len() - i,
        {
            let t: Translation = self.translations[i];
            let ghost old_out = out@;
            let ghost ps = spec_join_pair(t, *other);
            let mut pair: Vec<Translation> = t.join(other);
            out.append(&mut pair);
            proof {
                lemma_join_pair_semantics(t, *other);
                lemma_covered_by_concat(old_out, ps);
                assert(out@ == old_out + ps);
                assert forall|k: int|
                    0 <= k < out@.len() implies pair_rule_ok(#[trigger] out@[k], ats, *other) by {
                    if k >= old_out.len() {
                        let p = out@[k];
                        assert(p == ps[k - old_out.len()]);
                        assert forall|v: int| #[trigger] tr_covers(p, v) implies exists|i2: int|
                            0 <= i2 < ats.len() && #[trigger] tr_covers(ats[i2], v) && tr_covers(
                                *other,
                                tr_apply(ats[i2], v),
                            ) && tr_apply(p, v) == tr_apply(*other, tr_apply(ats[i2], v)) by {
                            assert(tr_covers(ats[i as int], v) && tr_covers(
                                *other,
                                tr_apply(ats[i as int], v),
                            ) && tr_apply(p, v) == tr_apply(*other, tr_apply(ats[i as int], v)));
                        }
                    }
                }
                assert forall|i2: int, v: int|
                    0 <= i2 < i + 1 && #[trigger] tr_covers(ats[i2], v) && tr_covers(
                        *other,
                        tr_apply(ats[i2], v),
                    ) implies covered_by(out@, v) by {
                    if i2 == i {
                        assert(exists|k: int| 0 <= k < ps.len() && tr_covers(#[trigger] ps[k], v));
                        assert(covered_by(ps, v));
                    }
                }
            }
            i += 1;
        }
        out
    }

    /// Composes this stage with the following stage `other` into one rule
    /// set. Wherever both stages' rule sets are coherent, looking a value up
    /// in the composition equals looking it up in this stage and then
    /// looking the result up in `other` — including values that fall in a
    /// gap of either stage and pass through it unchanged.
    #[verifier::loop_isolation(false)]
    pub fn join(&self, other: &Translations) -> (r: Translations)
        requires
            all_valid(self@),
            all_valid(other@),
        ensures
            all_valid(r@),
            coherent(self@) && coherent(other@) ==> coherent(r@) && (forall|v: int| #[trigger]
                lookup(r@, v) == lookup(other@, lookup(self@, v))),
    {
        let ghost ats = self@;
        let ghost bts = other@;
        let mut out: Vec<Translation> = Vec::new();

        // one pair rule wherever a rule's image meets a following rule's source
        let mut k: usize = 0;
        while k < other.translations.len()
            invariant
                k <= other.translations.len(),
                all_valid(out@),
                rules_ok(out@, ats, bts),
                pairs_covered(out@, ats, bts.take(k as int)),
            decreases other.translations.len() - k,
        {
            let rb: Translation = other.translations[k];
            let ghost old_out = out@;
            let mut pairs: Vec<Translation> = self.join_one(&rb);
            let ghost ps = pairs@;
            out.append(&mut pairs);
            proof {
                lemma_covered_by_concat(old_out, ps);
                assert(out@ == old_out + ps);
                assert forall|t: int|
                    0 <= t < out@.len() implies composed_rule_ok(#[trigger] out@[t], ats, bts) by {
                    if t >= old_out.len() {
                        let p = out@[t];
                        assert(pair_rule_ok(p, ats, rb));
                        assert forall|v: int| #[trigger] tr_covers(p, v) implies exists|i: int, j: int|
                            0 <= i < ats.len() && 0 <= j < bts.len() && tr_covers(ats[i], v)
                                && #[trigger] tr_covers(bts[j], tr_apply(ats[i], v)) && tr_apply(
                                p,
                                v,
                            ) == tr_apply(bts[j], tr_apply(ats[i], v)) by {
                            let i = choose|i: int|
                                0 <= i < ats.len() && #[trigger] tr_covers(ats[i], v) && tr_covers(
                                    rb,
                                    tr_apply(ats[i], v),
                                ) && tr_apply(p, v) == tr_apply(rb, tr_apply(ats[i], v));
                            assert(bts[k as int] == rb);
                            assert(tr_covers(bts[k as int], tr_apply(ats[i], v)) && tr_apply(p, v)
                                == tr_apply(bts[k as int], tr_apply(ats[i], v)));
                        }
                    }
                }
                assert(bts.take(k as int + 1) =~= bts.take(k as int) + seq![rb]);
                lemma_covered_by_concat(bts.take(k as int), seq![rb]);
                assert forall|v: int|
                    covered_by(ats, v) && covered_by(bts.take(k as int + 1), #[trigger] lookup(
                        ats,
                        v,
                    )) implies covered_by(out@, v) by {
                    if !covered_by(bts.take(k as int), lookup(ats, v)) {
                        let k0 = choose|k0: int|
                            0 <= k0 < seq![rb].len() && tr_covers(seq![rb][k0], lookup(ats, v));
                        assert(tr_covers(rb, lookup(ats, v)));
                        lemma_first_match_covered(ats, v);
                        let t0 = first_match(ats, v)->Some_0;
                        let i = choose|i: int| 0 <= i < ats.len() && #[trigger] ats[i] == t0;
                        assert(tr_covers(ats[i], v) && tr_covers(rb, tr_apply(ats[i], v)));
                        assert(covered_by(ps, v));
                    }
                }
            }
            k += 1;
        }
        proof {
            assert(bts.take(bts.len() as int) =~= bts);
        }

        // one identity-after-this-stage rule for each uncovered piece of a
        // rule's image: values that fall in a gap of `other` pass through it
        let mut i: usize = 0;
        while i < self.translations.len()
            invariant
                i <= self.translations.len(),
                all_valid(out@),
                rules_ok(out@, ats, bts),
                pairs_covered(out@, ats, bts),
                forall|v: int|
                    #![trigger lookup(ats, v)]
                    (exists|i2: int|
                        0 <= i2 < i && #[trigger] tr_covers(ats[i2], v) && tr_apply(ats[i2], v)
                            == lookup(ats, v)) && !covered_by(bts, lookup(ats, v)) ==> covered_by(
                        out@,
                        v,
                    ),
            decreases self.translations.len() - i,
        {
            let ra: Translation = self.translations[i];
            let project: Range = ra.range.project(ra.dest);
            let pieces: Vec<Range> = subtract_many(&project, &other.translations);
            let mut q: usize = 0;
            while q < pieces.len()
                invariant
                    q <= pieces.len(),
                    all_valid(out@),
                    rules_ok(out@, ats, bts),
                    pairs_covered(out@, ats, bts),
                    forall|v: int|
                        #![trigger lookup(ats, v)]
                        (exists|i2: int|
                            0 <= i2 < i && #[trigger] tr_covers(ats[i2], v) && tr_apply(ats[i2], v)
                                == lookup(ats, v)) && !covered_by(bts, lookup(ats, v))
                            ==> covered_by(out@, v),
                    forall|v: int|
                        #![trigger lookup(ats, v)]
                        tr_covers(ats[i as int], v) && tr_apply(ats[i as int], v) == lookup(ats, v)
                            && in_pieces(pieces@.take(q as int), lookup(ats, v)) ==> covered_by(
                            out@,
                            v,
                        ),
                decreases pieces.len() - q,
            {
                let p: Range = pieces[q];
                let t: Translation = Translation {
                    range: Range { from: p.from - ra.dest + ra.range.from, size: p.size },
                    dest: p.from,
                };
                let ghost old_out = out@;
                out.push(t);
                proof {
                    assert(out@ == old_out.push(t));
                    lemma_covered_by_concat(old_out, seq![t]);
                    assert(out@ =~= old_out + seq![t]);
                    assert forall|t2: int|
                        0 <= t2 < out@.len() implies composed_rule_ok(
                        #[trigger] out@[t2],
                        ats,
                        bts,
                    ) by {
                        if t2 == out@.len() - 1 {
                            assert forall|v: int| #[trigger] tr_covers(t, v) implies exists|i2: int|
                                0 <= i2 < ats.len() && #[trigger] tr_covers(ats[i2], v)
                                    && !covered_by(bts, tr_apply(ats[i2], v)) && tr_apply(t, v)
                                    == tr_apply(ats[i2], v) by {
                                let u = tr_apply(ra, v);
                                assert(range_covers(p, u));
                                assert(in_pieces(pieces@, u));
                                assert(tr_covers(ats[i as int], v) && !covered_by(
                                    bts,
                                    tr_apply(ats[i as int], v),
                                ) && tr_apply(t, v) == tr_apply(ats[i as int], v));
                            }
                        }
                    }
                    assert(pieces@.take(q as int + 1) =~= pieces@.take(q as int) + seq![p]);
                    lemma_in_pieces_concat(pieces@.take(q as int), seq![p]);
                    assert forall|v: int|
                        tr_covers(ats[i as int], v) && tr_apply(ats[i as int], v) == #[trigger]
                        lookup(ats, v) && in_pieces(pieces@.take(q as int + 1), lookup(ats, v))
                        implies covered_by(out@, v) by {
                        if !in_pieces(pieces@.take(q as int), lookup(ats, v)) {
                            let k0 = choose|k0: int|
                                0 <= k0 < seq![p].len() && range_covers(
                                    seq![p][k0],
                                    lookup(ats, v),
                                );
                            assert(range_covers(p, lookup(ats, v)));
                            assert(tr_covers(t, v));
                            assert(tr_covers(seq![t][0], v));
                            assert(covered_by(seq![t], v));
                        }
                    }
                }
                q += 1;
            }
            proof {
                assert(pieces@.take(pieces@.len() as int) =~= pieces@);
                assert forall|v: int|
                    (exists|i2: int|
                        0 <= i2 < i + 1 && #[trigger] tr_covers(ats[i2], v) && tr_apply(ats[i2], v)
                            == lookup(ats, v)) && !covered_by(bts, #[trigger] lookup(ats, v))
                    implies covered_by(out@, v) by {
                    let i2 = choose|i2: int|
                        0 <= i2 < i + 1 && #[trigger] tr_covers(ats[i2], v) && tr_apply(ats[i2], v)
                            == lookup(ats, v);
                    if i2 == i {
                        let u = lookup(ats, v);
                        assert(range_covers(project, u));
                        assert(in_pieces(pieces@, u));
                    }
                }
            }
            i += 1;
        }
        proof {
            assert forall|v: int|
                covered_by(ats, v) && !covered_by(bts, #[trigger] lookup(ats, v))
                implies covered_by(out@, v) by {
                lemma_first_match_covered(ats, v);
                let t0 = first_match(ats, v)->Some_0;
                let i2 = choose|i2: int| 0 <= i2 < ats.len() && #[trigger] ats[i2] == t0;
                assert(tr_covers(ats[i2], v) && tr_apply(ats[i2], v) == lookup(ats, v));
            }
            assert(gaps_covered(out@, ats, bts));
        }

        // one rule for each piece of a following rule's source that this
        // stage leaves untouched: such values reach `other` unchanged
        let mut j: usize = 0;
        while j < other.translations.len()
            invariant
                j <= other.translations.len(),
                all_valid(out@),
                rules_ok(out@, ats, bts),
                pairs_covered(out@, ats, bts),
                gaps_covered(out@, ats, bts),
                tail_covered(out@, ats, bts.take(j as int)),
            decreases other.translations.len() - j,
        {
            let rb: Translation = other.translations[j];
            let pieces: Vec<Range> = subtract_many(&rb.range, &self.translations);
            let mut q: usize = 0;
            while q < pieces.len()
                invariant
                    q <= pieces.len(),
                    all_valid(out@),
                    rules_ok(out@, ats, bts),
                    pairs_covered(out@, ats, bts),
                    gaps_covered(out@, ats, bts),
                    tail_covered(out@, ats, bts.take(j as int)),
                    forall|v: int| #[trigger]
                        in_pieces(pieces@.take(q as int), v) ==> covered_by(out@, v),
                decreases pieces.len() - q,
            {
                let p: Range = pieces[q];
                let t: Translation = Translation {
                    range: p,
                    dest: rb.dest + (p.from - rb.range.from),
                };
                let ghost old_out = out@;
                out.push(t);
                proof {
                    lemma_covered_by_concat(old_out, seq![t]);
                    assert(out@ =~= old_out + seq![t]);
                    assert forall|t2: int|
                        0 <= t2 < out@.len() implies composed_rule_ok(
                        #[trigger] out@[t2],
                        ats,
                        bts,
                    ) by {
                        if t2 == out@.len() - 1 {
                            assert forall|v: int| #[trigger] tr_covers(t, v) implies !covered_by(
                                ats,
                                v,
                            ) && exists|j2: int|
                                0 <= j2 < bts.len() && #[trigger] tr_covers(bts[j2], v)
                                    && tr_apply(t, v) == tr_apply(bts[j2], v) by {
                                assert(range_covers(p, v));
                                assert(in_pieces(pieces@, v));
                                assert(tr_covers(bts[j as int], v) && tr_apply(t, v) == tr_apply(
                                    bts[j as int],
                                    v,
                                ));
                            }
                        }
                    }
                    assert(pieces@.take(q as int + 1) =~= pieces@.take(q as int) + seq![p]);
                    lemma_in_pieces_concat(pieces@.take(q as int), seq![p]);
                    assert forall|v: int| #[trigger]
                        in_pieces(pieces@.take(q as int + 1), v) implies covered_by(out@, v) by {
                        if !in_pieces(pieces@.take(q as int), v) {
                            let k0 = choose|k0: int|
                                0 <= k0 < seq![p].len() && range_covers(seq![p][k0], v);
                            assert(range_covers(p, v));
                            assert(tr_covers(t, v));
                            assert(tr_covers(seq![t][0], v));
                            assert(covered_by(seq![t], v));
                        }
                    }
                }
                q += 1;
            }
            proof {
                assert(pieces@.take(pieces@.len() as int) =~= pieces@);
                assert(bts.take(j as int + 1) =~= bts.take(j as int) + seq![rb]);
                lemma_covered_by_concat(bts.take(j as int), seq![rb]);
                assert forall|v: int|
                    !covered_by(ats, v) && #[trigger] covered_by(bts.take(j as int + 1), v)
                    implies covered_by(out@, v) by {
                    if !covered_by(bts.take(j as int), v) {
                        let k0 = choose|k0: int|
                            0 <= k0 < seq![rb].len() && tr_covers(seq![rb][k0], v);
                        assert(tr_covers(rb, v));
                        assert(range_covers(rb.range, v));
                        assert(in_pieces(pieces@, v));
                    }
                }
            }
            j += 1;
        }
        proof {
            assert(bts.take(bts.len() as int) =~= bts);
            if coherent(ats) && coherent(bts) {
                assert forall|v: int| #[trigger]
                    lookup(out@, v) == lookup(bts, lookup(ats, v)) by {
                    if covered_by(out@, v) {
                        lemma_first_match_covered(out@, v);
                        let t0 = first_match(out@, v)->Some_0;
                        let ti = choose|ti: int| 0 <= ti < out@.len() && #[trigger] out@[ti] == t0;
                        lemma_composed_rule_value(out@[ti], ats, bts, v);
                    } else {
                        lemma_lookup_identity(out@, v);
                        if covered_by(ats, v) {
                            if covered_by(bts, lookup(ats, v)) {
                                assert(covered_by(out@, v));
                            }
                            assert(false);
                        }
                        lemma_lookup_identity(ats, v);
                        if covered_by(bts, v) {
                            assert(covered_by(out@, v));
                            assert(false);
                        }
                        lemma_lookup_identity(bts, v);
                    }
                }
                assert forall|i2: int, j2: int, v: int|
                    0 <= i2 < out@.len() && 0 <= j2 < out@.len() && #[trigger] tr_covers(
                        out@[i2],
                        v,
                    ) && #[trigger] tr_covers(out@[j2], v) implies tr_apply(out@[i2], v)
                    == tr_apply(out@[j2], v) by {
                    lemma_composed_rule_value(out@[i2], ats, bts, v);
                    lemma_composed_rule_value(out@[j2], ats, bts, v);
                }
            }
        }
        Translations { translations: out }
    }

    /// Translates a whole interval: each sub-interval covered by a rule is
    /// shifted by that rule's offset, and every sub-interval no rule covers
    /// appears unchanged, so that the pieces conserve the total length.
    #[verifier::loop_isolation(false)]
    pub fn tr_range(&self, interval: &Range) -> (out: Vec<Range>)
        requires
            all_valid(self@),
            range_valid(*interval),
        ensures
            forall|k: int| 0 <= k < out@.len() ==> range_valid(#[trigger] out@[k]),
            sum_sizes(out@) == interval.size,
            forall|v: int|
                range_covers(*interval, v) ==> in_pieces(out@, #[trigger] lookup(self@, v)),
            forall|u: int| #[trigger]
                in_pieces(out@, u) ==> exists|v: int|
                    range_covers(*interval, v) && #[trigger] lookup(self@, v) == u,
    {
        let ghost ats = self@;
        let mut out: Vec<Range> = Vec::new();
        let mut rem: Vec<Range> = Vec::new();
        rem.push(*interval);
        proof {
            assert(rem@[0] == *interval);
            assert(rem@.skip(1).len() == 0);
            assert(sum_sizes(rem@.skip(1)) == 0);
            assert(sum_sizes(rem@) == interval.size);
            assert forall|v: int| #[trigger]
                in_pieces(rem@, v) <==> (range_covers(*interval, v) && !covered_by(
                    ats.take(0),
                    v,
                )) by {
                if range_covers(*interval, v) {
                    assert(range_covers(rem@[0], v));
                }
                if covered_by(ats.take(0), v) {
                    let i = choose|i: int| 0 <= i < ats.take(0).len() && tr_covers(ats.take(0)[i], v);
                }
            }
        }
        let mut i: usize = 0;
        while i < self.translations.len()
            invariant
                i <= self.translations.len(),
                forall|k: int| 0 <= k < out@.len() ==> range_valid(#[trigger] out@[k]),
                forall|k: int| 0 <= k < rem@.len() ==> range_valid(#[trigger] rem@[k]),
                sum_sizes(out@) + sum_sizes(rem@) == interval.size,
                forall|v: int| #[trigger]
                    in_pieces(rem@, v) <==> (range_covers(*interval, v) && !covered_by(
                        ats.take(i as int),
                        v,
                    )),
                forall|v: int|
                    range_covers(*interval, v) && covered_by(ats.take(i as int), v)
                        ==> in_pieces(out@, #[trigger] lookup(ats, v)),
                forall|u: int| #[trigger]
                    in_pieces(out@, u) ==> exists|v: int|
                        range_covers(*interval, v) && #[trigger] lookup(ats, v) == u,
            decreases self.translations.len() - i,
        {
            let rule: Translation = self.translations[i];
            let ghost prev = rem@;
            proof {
                assert(prev.skip(0) =~= prev);
            }
            let mut next: Vec<Range> = Vec::new();
            let mut j: usize = 0;
            while j < rem.len()
                invariant
                    j <= rem.len(),
                    rem@ == prev,
                    forall|k: int| 0 <= k < out@.len() ==> range_valid(#[trigger] out@[k]),
                    forall|k: int| 0 <= k < next@.len() ==> range_valid(#[trigger] next@[k]),
                    sum_sizes(out@) + sum_sizes(next@) + sum_sizes(prev.skip(j as int))
                        == interval.size,
                    forall|v: int| #[trigger]
                        in_pieces(next@, v) <==> (in_pieces(prev.take(j as int), v) && !tr_covers(
                            rule,
                            v,
                        )),
                    forall|v: int|
                        range_covers(*interval, v) && (covered_by(ats.take(i as int), v) || (
                        in_pieces(prev.take(j as int), v) && tr_covers(rule, v))) ==> in_pieces(
                            out@,
                            #[trigger] lookup(ats, v),
                        ),
                    forall|u: int| #[trigger]
                        in_pieces(out@, u) ==> exists|v: int|
                            range_covers(*interval, v) && #[trigger] lookup(ats, v) == u,
                decreases rem.len() - j,
            {
                let piece: Range = rem[j];
                proof {
                    assert(range_covers(piece, piece.from as int));
                    assert(in_pieces(prev, piece.from as int));
                    assert(prev.skip(j as int)[0] == prev[j as int]);
                    assert(prev.skip(j as int).skip(1) =~= prev.skip(j as int + 1));
                    assert(sum_sizes(prev.skip(j as int)) == piece.size + sum_sizes(
                        prev.skip(j as int + 1),
                    ));
                    assert(prev.take(j as int + 1) =~= prev.take(j as int) + seq![piece]);
                    lemma_in_pieces_concat(prev.take(j as int), seq![piece]);
                }
                let inter_opt: Option<Range> = piece.intersect(&rule.range);
                if let Some(inter) = inter_opt {
                    let tr_piece: Range = Range {
                        from: inter.from - rule.range.from + rule.dest,
                        size: inter.size,
                    };
                    let ghost old_out = out@;
                    let ghost old_next = next@;
                    out.push(tr_piece);
                    let mut subs: Vec<Range> = piece.substract(&rule.range);
                    next.append(&mut subs);
                    proof {
                        let ghost sub = crate::range::spec_subtract(piece, rule.range);
                        lemma_subtract_pieces(piece, rule.range);
                        lemma_subtract_sum(piece, rule.range);
                        lemma_sum_sizes_concat(old_next, sub);
                        crate::range::lemma_sum_sizes_push(old_out, tr_piece);
                        lemma_in_pieces_concat(old_next, sub);
                        lemma_in_pieces_concat(old_out, seq![tr_piece]);
                        assert(out@ =~= old_out + seq![tr_piece]);
                        // a value fresh for the prefix and covered by this rule is
                        // looked up through exactly this rule
                        assert forall|v: int|
                            range_covers(piece, v) && tr_covers(rule, v) implies #[trigger] lookup(
                            ats,
                            v,
                        ) == tr_apply(rule, v) by {
                            assert(in_pieces(prev, v));
                            assert(!covered_by(ats.take(i as int), v));
                            assert forall|k2: int| 0 <= k2 < i implies !tr_covers(
                                #[trigger] ats[k2],
                                v,
                            ) by {
                                assert(ats.take(i as int)[k2] == ats[k2]);
                            }
                            lemma_first_match_skip(ats, v, i as int);
                            assert(ats.skip(i as int)[0] == ats[i as int]);
                        }
                        assert forall|v: int|
                            range_covers(*interval, v) && (covered_by(ats.take(i as int), v) || (
                            in_pieces(prev.take(j as int + 1), v) && tr_covers(rule, v)))
                            implies in_pieces(out@, #[trigger] lookup(ats, v)) by {
                            if !(covered_by(ats.take(i as int), v) || (in_pieces(
                                prev.take(j as int),
                                v,
                            ) && tr_covers(rule, v))) {
                                assert(range_covers(piece, v) && tr_covers(rule, v));
                                assert(range_covers(tr_piece, tr_apply(rule, v)));
                                assert(range_covers(seq![tr_piece][0], tr_apply(rule, v)));
                                assert(in_pieces(seq![tr_piece], lookup(ats, v)));
                            }
                        }
                        assert forall|u: int| #[trigger]
                            in_pieces(out@, u) implies exists|v: int|
                                range_covers(*interval, v) && #[trigger] lookup(ats, v) == u by {
                            if !in_pieces(old_out, u) {
                                assert(in_pieces(seq![tr_piece], u));
                                let k0 = choose|k0: int|
                                    0 <= k0 < seq![tr_piece].len() && range_covers(
                                        seq![tr_piece][k0],
                                        u,
                                    );
                                assert(range_covers(tr_piece, u));
                                let w = u - rule.dest + rule.range.from;
                                assert(range_covers(inter, w));
                                assert(range_covers(piece, w) && tr_covers(rule, w));
                                assert(range_covers(prev[j as int], w));
                                assert(in_pieces(prev, w));
                                assert(lookup(ats, w) == tr_apply(rule, w));
                                assert(tr_apply(rule, w) == u);
                                assert(range_covers(*interval, w) && lookup(ats, w) == u);
                            }
                        }
                    }
                } else {
                    let ghost old_next = next@;
                    next.push(piece);
                    proof {
                        lemma_in_pieces_concat(old_next, seq![piece]);
                        assert(next@ =~= old_next + seq![piece]);
                        crate::range::lemma_sum_sizes_push(old_next, piece);
                        assert forall|v: int| #[trigger]
                            in_pieces(next@, v) <==> (in_pieces(prev.take(j as int + 1), v)
                                && !tr_covers(rule, v)) by {
                            lemma_intersect_pointwise(piece, rule.range, v);
                            if range_covers(piece, v) {
                                assert(range_covers(seq![piece][0], v));
                            }
                            if in_pieces(seq![piece], v) {
                                assert(range_covers(piece, v));
                            }
                        }
                    }
                }
                j += 1;
            }
            rem = next;
            proof {
                assert(prev.take(prev.len() as int) =~= prev);
                assert(prev.skip(prev.len() as int).len() == 0);
                assert(ats.take(i as int + 1) =~= ats.take(i as int) + seq![ats[i as int]]);
                lemma_covered_by_concat(ats.take(i as int), seq![ats[i as int]]);
                assert forall|v: int| #[trigger]
                    in_pieces(rem@, v) <==> (range_covers(*interval, v) && !covered_by(
                        ats.take(i as int + 1),
                        v,
                    )) by {
                    if covered_by(seq![ats[i as int]], v) {
                        let k0 = choose|k0: int|
                            0 <= k0 < seq![ats[i as int]].len() && tr_covers(
                                seq![ats[i as int]][k0],
                                v,
                            );
                        assert(tr_covers(ats[i as int], v));
                    }
                    if tr_covers(ats[i as int], v) {
                        assert(tr_covers(seq![ats[i as int]][0], v));
                    }
                }
                assert forall|v: int|
                    range_covers(*interval, v) && covered_by(ats.take(i as int + 1), v)
                    implies in_pieces(out@, #[trigger] lookup(ats, v)) by {
                    if !covered_by(ats.take(i as int), v) {
                        assert(in_pieces(prev, v) && tr_covers(ats[i as int], v));
                    }
                }
            }
            i += 1;
        }
        let ghost covered_out = out@;
        let mut tail: Vec<Range> = rem;
        out.append(&mut tail);
        proof {
            assert(ats.take(ats.len() as int) =~= ats);
            lemma_sum_sizes_concat(covered_out, rem@);
            lemma_in_pieces_concat(covered_out, rem@);
            assert forall|v: int|
                range_covers(*interval, v) implies in_pieces(out@, #[trigger] lookup(ats, v)) by {
                if !covered_by(ats, v) {
                    lemma_lookup_identity(ats, v);
                    assert(in_pieces(rem@, v));
                }
            }
            assert forall|u: int| #[trigger]
                in_pieces(out@, u) implies exists|v: int|
                    range_covers(*interval, v) && #[trigger] lookup(ats, v) == u by {
                if in_pieces(rem@, u) {
                    assert(range_covers(*interval, u) && !covered_by(ats, u));
                    lemma_lookup_identity(ats, u);
                    assert(range_covers(*interval, u) && lookup(ats, u) == u);
                }
            }
        }
        out
    }

    /// Translates a list of intervals: each interval fans out into its
    /// translated pieces, and the pieces of all of them conserve the total
    /// length.
    #[verifier::loop_isolation(false)]
    pub fn tr_ranges(&self, ranges: &Vec<Range>) -> (out: Vec<Range>)
        requires
            all_valid(self@),
            forall|k: int| 0 <= k < ranges@.len() ==> range_valid(#[trigger] ranges@[k]),
        ensures
            forall|k: int| 0 <= k < out@.len() ==> range_valid(#[trigger] out@[k]),
            sum_sizes(out@) == sum_sizes(ranges@),
            forall|v: int|
                in_pieces(ranges@, v) ==> in_pieces(out@, #[trigger] lookup(self@, v)),
            forall|u: int| #[trigger]
                in_pieces(out@, u) ==> exists|v: int|
                    in_pieces(ranges@, v) && #[trigger] lookup(self@, v) == u,
    {
        let ghost ats = self@;
        let mut out: Vec<Range> = Vec::new();
        proof {
            assert(sum_sizes(ranges@.take(0)) == 0);
        }
        let mut k: usize = 0;
        while k < ranges.len()
            invariant
                k <= ranges.len(),
                forall|k2: int| 0 <= k2 < out@.len() ==> range_valid(#[trigger] out@[k2]),
                sum_sizes(out@) == sum_sizes(ranges@.take(k as int)),
                forall|v: int|
                    in_pieces(ranges@.take(k as int), v) ==> in_pieces(
                        out@,
                        #[trigger] lookup(ats, v),
                    ),
                forall|u: int| #[trigger]
                    in_pieces(out@, u) ==> exists|v: int|
                        in_pieces(ranges@, v) && #[trigger] lookup(ats, v) == u,
            decreases ranges.len() - k,
        {
            let interval: Range = ranges[k];
            let ghost old_out = out@;
            let mut pieces: Vec<Range> = self.tr_range(&interval);
            let ghost ps = pieces@;
            out.append(&mut pieces);
            proof {
                lemma_in_pieces_concat(old_out, ps);
                lemma_sum_sizes_concat(old_out, ps);
                assert(out@ == old_out + ps);
                assert(ranges@.take(k as int + 1) =~= ranges@.take(k as int) + seq![interval]);
                lemma_in_pieces_concat(ranges@.take(k as int), seq![interval]);
                lemma_sum_sizes_concat(ranges@.take(k as int), seq![interval]);
                assert(sum_sizes(seq![interval]) == interval.size) by {
                    assert(seq![interval].skip(1).len() == 0);
                    assert(sum_sizes(seq![interval].skip(1)) == 0);
                }
                assert forall|v: int|
                    in_pieces(ranges@.take(k as int + 1), v) implies in_pieces(
                    out@,
                    #[trigger] lookup(ats, v),
                ) by {
                    if !in_pieces(ranges@.take(k as int), v) {
                        let k0 = choose|k0: int|
                            0 <= k0 < seq![interval].len() && range_covers(seq![interval][k0], v);
                        assert(range_covers(interval, v));
                    }
                }
                assert forall|u: int| #[trigger]
                    in_pieces(out@, u) implies exists|v: int|
                        in_pieces(ranges@, v) && #[trigger] lookup(ats, v) == u by {
                    if in_pieces(ps, u) {
                        let v = choose|v: int|
                            range_covers(interval, v) && #[trigger] lookup(ats, v) == u;
                        assert(range_covers(ranges@[k as int], v));
                        assert(in_pieces(ranges@, v));
                    }
                }
            }
            k += 1;
        }
        proof {
            assert(ranges@.take(ranges@.len() as int) =~= ranges@);
        }
        out
    }
}

/// Every value the rule covers is carried, by the rule, to where applying
/// some rule of `ats` and then `b` would carry it.
pub open spec fn pair_rule_ok(t: Translation, ats: Seq<Translation>, b: Translation) -> bool {
    forall|v: int| #[trigger]
        tr_covers(t, v) ==> exists|i: int|
            0 <= i < ats.len() && #[trigger] tr_covers(ats[i], v) && tr_covers(
                b,
                tr_apply(ats[i], v),
            ) && tr_apply(t, v) == tr_apply(b, tr_apply(ats[i], v))
}

/// Every value the rule covers is carried to where the two-stage pipeline
/// `ats` then `bts` would carry it: through a rule of each stage, through a
/// rule of `ats` into a gap of `bts`, or, outside `ats`, through a rule of
/// `bts` alone.
pub open spec fn composed_rule_ok(
    t: Translation,
    ats: Seq<Translation>,
    bts: Seq<Translation>,
) -> bool {
    forall|v: int| #[trigger]
        tr_covers(t, v) ==> {
            ||| exists|i: int, j: int|
                0 <= i < ats.len() && 0 <= j < bts.len() && tr_covers(ats[i], v) && #[trigger]
                tr_covers(bts[j], tr_apply(ats[i], v)) && tr_apply(t, v) == tr_apply(
                    bts[j],
                    tr_apply(ats[i], v),
                )
            ||| exists|i: int|
                0 <= i < ats.len() && #[trigger] tr_covers(ats[i], v) && !covered_by(
                    bts,
                    tr_apply(ats[i], v),
                ) && tr_apply(t, v) == tr_apply(ats[i], v)
            ||| (!covered_by(ats, v) && exists|j: int|
                0 <= j < bts.len() && #[trigger] tr_covers(bts[j], v) && tr_apply(t, v)
                    == tr_apply(bts[j], v))
        }
}

/// For coherent stages, a composed rule sends each value it covers to the
/// stage-wise lookup of the two stages.
pub proof fn lemma_composed_rule_value(
    t: Translation,
    ats: Seq<Translation>,
    bts: Seq<Translation>,
    v: int,
)
    requires
        composed_rule_ok(t, ats, bts),
        coherent(ats),
        coherent(bts),
        tr_covers(t, v),
    ensures
        tr_apply(t, v) == lookup(bts, lookup(ats, v)),
{
    if exists|i: int, j: int|
        0 <= i < ats.len() && 0 <= j < bts.len() && tr_covers(ats[i], v) && #[trigger] tr_covers(
            bts[j],
            tr_apply(ats[i], v),
        ) && tr_apply(t, v) == tr_apply(bts[j], tr_apply(ats[i], v)) {
        let (i, j) = choose|i: int, j: int|
            0 <= i < ats.len() && 0 <= j < bts.len() && tr_covers(ats[i], v) && #[trigger]
            tr_covers(bts[j], tr_apply(ats[i], v)) && tr_apply(t, v) == tr_apply(
                bts[j],
                tr_apply(ats[i], v),
            );
        lemma_lookup_of_member(ats, v, i);
        lemma_lookup_of_member(bts, tr_apply(ats[i], v), j);
    } else if exists|i: int|
        0 <= i < ats.len() && #[trigger] tr_covers(ats[i], v) && !covered_by(
            bts,
            tr_apply(ats[i], v),
        ) && tr_apply(t, v) == tr_apply(ats[i], v) {
        let i = choose|i: int|
            0 <= i < ats.len() && #[trigger] tr_covers(ats[i], v) && !covered_by(
                bts,
                tr_apply(ats[i], v),
            ) && tr_apply(t, v) == tr_apply(ats[i], v);
        lemma_lookup_of_member(ats, v, i);
        lemma_lookup_identity(bts, tr_apply(ats[i], v));
    } else {
        let j = choose|j: int|
            0 <= j < bts.len() && #[trigger] tr_covers(bts[j], v) && tr_apply(t, v) == tr_apply(
                bts[j],
                v,
            );
        lemma_lookup_identity(ats, v);
        lemma_lookup_of_member(bts, v, j);
    }
}

/// Values sent by a rule of `ats` into a source interval of `bts_part` are
/// covered by `out`.
spec fn pairs_covered(out: Seq<Translation>, ats: Seq<Translation>, bts_part: Seq<Translation>) -> bool {
    forall|v: int|
        #![trigger lookup(ats, v)]
        covered_by(ats, v) && covered_by(bts_part, lookup(ats, v)) ==> covered_by(out, v)
}

/// Values sent by a rule of `ats` into a gap of `bts` are covered by `out`.
spec fn gaps_covered(out: Seq<Translation>, ats: Seq<Translation>, bts: Seq<Translation>) -> bool {
    forall|v: int|
        #![trigger lookup(ats, v)]
        covered_by(ats, v) && !covered_by(bts, lookup(ats, v)) ==> covered_by(out, v)
}

/// Values outside every rule of `ats` but inside a source interval of
/// `bts_part` are covered by `out`.
spec fn tail_covered(out: Seq<Translation>, ats: Seq<Translation>, bts_part: Seq<Translation>) -> bool {
    forall|v: int|
        #![trigger covered_by(bts_part, v)]
        !covered_by(ats, v) && covered_by(bts_part, v) ==> covered_by(out, v)
}

/// Every rule of `out` is a faithful composed rule for the stages `ats`
/// then `bts`.
spec fn rules_ok(out: Seq<Translation>, ats: Seq<Translation>, bts: Seq<Translation>) -> bool {
    forall|t: int| 0 <= t < out.len() ==> composed_rule_ok(#[trigger] out[t], ats, bts)
}

/// The pieces of `r` that no rule of `rules` covers: everything `r` covers,
/// minus every rule's source interval.
pub fn subtract_many(r: &Range, rules: &Vec<Translation>) -> (out: Vec<Range>)
    requires
        range_valid(*r),
        all_valid(rules@),
    ensures
        forall|k: int|
            0 <= k < out@.len() ==> {
                let p = #[trigger] out@[k];
                &&& range_valid(p)
                &&& r.from <= p.from
                &&& range_end(p) <= range_end(*r)
            },
        forall|v: int| #[trigger]
            in_pieces(out@, v) <==> (range_covers(*r, v) && !covered_by(rules@, v)),
{
    let mut rem: Vec<Range> = Vec::new();
    rem.push(*r);
    proof {
        assert(rem@[0] == *r);
        assert forall|v: int| #[trigger]
            in_pieces(rem@, v) <==> (range_covers(*r, v) && !covered_by(rules@.take(0), v)) by {
            if range_covers(*r, v) {
                assert(range_covers(rem@[0], v));
            }
            if covered_by(rules@.take(0), v) {
                let i = choose|i: int|
                    0 <= i < rules@.take(0).len() && tr_covers(rules@.take(0)[i], v);
            }
        }
    }
    let mut i: usize = 0;
    while i < rules.len()
        invariant
            i <= rules.len(),
            range_valid(*r),
            all_valid(rules@),
            forall|k: int|
                0 <= k < rem@.len() ==> {
                    let p = #[trigger] rem@[k];
                    &&& range_valid(p)
                    &&& r.from <= p.from
                    &&& range_end(p) <= range_end(*r)
                },
            forall|v: int| #[trigger]
                in_pieces(rem@, v) <==> (range_covers(*r, v) && !covered_by(
                    rules@.take(i as int),
                    v,
                )),
        decreases rules.len() - i,
    {
        let rule: Translation = rules[i];
        let ghost prev = rem@;
        let mut next: Vec<Range> = Vec::new();
        let mut j: usize = 0;
        while j < rem.len()
            invariant
                j <= rem.len(),
                rem@ == prev,
                range_valid(rule.range),
                forall|k: int|
                    0 <= k < prev.len() ==> {
                        let p = #[trigger] prev[k];
                        &&& range_valid(p)
                        &&& r.from <= p.from
                        &&& range_end(p) <= range_end(*r)
                    },
                forall|k: int|
                    0 <= k < next@.len() ==> {
                        let p = #[trigger] next@[k];
                        &&& range_valid(p)
                        &&& r.from <= p.from
                        &&& range_end(p) <= range_end(*r)
                    },
                forall|v: int| #[trigger]
                    in_pieces(next@, v) <==> (in_pieces(prev.take(j as int), v) && !tr_covers(
                        rule,
                        v,
                    )),
            decreases rem.len() - j,
        {
            let piece: Range = rem[j];
            let ghost old_next = next@;
            let mut sub: Vec<Range> = piece.substract(&rule.range);
            next.append(&mut sub);
            proof {
                lemma_subtract_pieces(piece, rule.range);
                lemma_in_pieces_concat(old_next, crate::range::spec_subtract(piece, rule.range));
                assert(prev.take(j as int + 1) =~= prev.take(j as int) + seq![prev[j as int]]);
                lemma_in_pieces_concat(prev.take(j as int), seq![prev[j as int]]);
                assert forall|v: int| #[trigger]
                    in_pieces(next@, v) <==> (in_pieces(prev.take(j as int + 1), v) && !tr_covers(
                        rule,
                        v,
                    )) by {
                    if in_pieces(seq![prev[j as int]], v) {
                        assert(range_covers(prev[j as int], v));
                    }
                    if range_covers(prev[j as int], v) {
                        assert(range_covers(seq![prev[j as int]][0], v));
                    }
                }
            }
            j += 1;
        }
        rem = next;
        proof {
            assert(prev.take(prev.len() as int) =~= prev);
            assert(rules@.take(i as int + 1) =~= rules@.take(i as int) + seq![rules@[i as int]]);
            lemma_covered_by_concat(rules@.take(i as int), seq![rules@[i as int]]);
            assert forall|v: int| #[trigger]
                in_pieces(rem@, v) <==> (range_covers(*r, v) && !covered_by(
                    rules@.take(i as int + 1),
                    v,
                )) by {
                if covered_by(seq![rules@[i as int]], v) {
                    let k = choose|k: int|
                        0 <= k < seq![rules@[i as int]].len() && tr_covers(
                            seq![rules@[i as int]][k],
                            v,
                        );
                    assert(tr_covers(rules@[i as int], v));
                }
                if tr_covers(rules@[i as int], v) {
                    assert(tr_covers(seq![rules@[i as int]][0], v));
                }
            }
        }
        i += 1;
    }
    proof {
        assert(rules@.take(rules@.len() as int) =~= rules@);
    }
    rem
}

} // verus!
