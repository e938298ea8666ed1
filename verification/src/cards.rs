//! Scratch cards: each line lists winning numbers, a `|`, and drawn
//! numbers. Part one scores each card as two to the power of one less than
//! its match count; part two lets each card win copies of the following
//! cards and counts all cards held at the end.

use crate::errors::ParseError;
use crate::parse::{find_byte, first_byte_pos, lemma_first_byte_pos, parse_u32, spec_split,
    split_bytes, sub_bytes, u32_val};
use vstd::math::max;
use vstd::prelude::*;

verus! {

/// The numbers a card field list denotes: the non-empty fields between
/// spaces, each a `u32`.
pub open spec fn spec_numbers_fold(fields: Seq<Seq<u8>>, acc: Seq<int>) -> Result<
    Seq<int>,
    ParseError,
>
    decreases fields.len(),
{
    if fields.len() == 0 {
        Ok(acc)
    } else if fields[0].len() == 0 {
        spec_numbers_fold(fields.skip(1), acc)
    } else {
        match u32_val(fields[0]) {
            Some(v) => spec_numbers_fold(fields.skip(1), acc.push(v)),
            None => Err(ParseError::BadInteger),
        }
    }
}

/// The numbers one side of a card line denotes.
pub open spec fn spec_numbers(s: Seq<u8>) -> Result<Seq<int>, ParseError> {
    spec_numbers_fold(spec_split(s, 32), Seq::empty())
}

/// `x` occurs in the list.
pub open spec fn in_list(w: Seq<int>, x: int) -> bool {
    exists|j: int| 0 <= j < w.len() && w[j] == x
}

/// How many drawn numbers occur among the winners, counting duplicates of
/// the draw separately.
pub open spec fn match_count(w: Seq<int>, d: Seq<int>) -> int
    decreases d.len(),
{
    if d.len() == 0 {
        0
    } else {
        match_count(w, d.drop_last()) + if in_list(w, d.last()) {
            1int
        } else {
            0int
        }
    }
}

/// Two to the power `e`, and one for powers at or below zero.
pub open spec fn spec_pow2(e: int) -> int
    decreases e,
{
    if e <= 0 {
        1
    } else {
        2 * spec_pow2(e - 1)
    }
}

/// Powers of two are strictly positive.
pub proof fn lemma_pow2_pos(a: int)
    ensures
        spec_pow2(a) >= 1,
    decreases (if a <= 0 { 0int } else { a }),
{
    if a > 0 {
        lemma_pow2_pos(a - 1);
    }
}

/// Powers of two grow with the exponent.
pub proof fn lemma_pow2_le(a: int, b: int)
    requires
        a <= b,
    ensures
        spec_pow2(a) <= spec_pow2(b),
    decreases b - a,
{
    if a < b {
        lemma_pow2_le(a, b - 1);
        lemma_pow2_pos(b - 1);
    }
}

/// The match count never exceeds the number of drawn values.
pub proof fn lemma_match_count_bounds(w: Seq<int>, d: Seq<int>)
    ensures
        0 <= match_count(w, d) <= d.len(),
    decreases d.len(),
{
    if d.len() > 0 {
        lemma_match_count_bounds(w, d.drop_last());
    }
}

/// Reads the non-empty space-separated fields of `chars` as numbers.
#[verifier::loop_isolation(false)]
pub fn numbers_in(chars: &[u8]) -> (r: Result<Vec<u32>, ParseError>)
    ensures
        ({
            match spec_numbers(chars@) {
                Result::Ok(vals) => r matches Ok(v) && v@.len() == vals.len() && (forall|k: int|
                    0 <= k < vals.len() ==> v@[k] == vals[k]),
                Result::Err(e) => r == Result::<Vec<u32>, ParseError>::Err(e),
            }
        }),
{
    let fields: Vec<Vec<u8>> = split_bytes(chars, 32);
    let ghost fs = fields.deep_view();
    let mut out: Vec<u32> = Vec::new();
    let mut i: usize = 0;
    proof {
        assert(fs.skip(0) =~= fs);
        assert(out@.map_values(|x: u32| x as int) =~= Seq::<int>::empty());
    }
    while i < fields.len()
        invariant
            i <= fields@.len(),
            spec_numbers(chars@) == spec_numbers_fold(
                fs.skip(i as int),
                out@.map_values(|x: u32| x as int),
            ),
        decreases fields.len() - i,
    {
        proof {
            assert(fs[i as int] =~= fields@[i as int]@);
            assert(fs.skip(i as int)[0] == fs[i as int]);
            assert(fs.skip(i as int).skip(1) =~= fs.skip(i as int + 1));
        }
        if fields[i].len() > 0 {
            let ghost old_out = out@;
            match parse_u32(fields[i].as_slice()) {
                Some(v) => {
                    out.push(v);
                    proof {
                        assert(out@.map_values(|x: u32| x as int) =~= old_out.map_values(
                            |x: u32| x as int,
                        ).push(v as int));
                    }
                },
                None => {
                    return Err(ParseError::BadInteger);
                },
            }
        }
        i += 1;
    }
    Ok(out)
}

/// Whether `x` occurs in `v`.
fn contains_u32(v: &Vec<u32>, x: u32) -> (r: bool)
    ensures
        r == in_list(v@.map_values(|y: u32| y as int), x as int),
{
    let ghost w = v@.map_values(|y: u32| y as int);
    let mut j: usize = 0;
    while j < v.len()
        invariant
            j <= v@.len(),
            w == v@.map_values(|y: u32| y as int),
            forall|k: int| 0 <= k < j ==> w[k] != x as int,
        decreases v.len() - j,
    {
        if v[j] == x {
            proof {
                assert(w[j as int] == x as int);
            }
            return true;
        }
        j += 1;
    }
    false
}

/// How many of the drawn numbers are winners.
#[verifier::loop_isolation(false)]
fn count_matches(winners: &Vec<u32>, drawn: &Vec<u32>) -> (r: usize)
    ensures
        r == match_count(
            winners@.map_values(|y: u32| y as int),
            drawn@.map_values(|y: u32| y as int),
        ),
{
    let ghost w = winners@.map_values(|y: u32| y as int);
    let ghost d = drawn@.map_values(|y: u32| y as int);
    let n: usize = drawn.len();
    proof {
        assert(d.len() == n);
    }
    let mut cnt: usize = 0;
    let mut i: usize = 0;
    proof {
        assert(d.take(0).len() == 0);
        lemma_match_count_bounds(w, d);
    }
    while i < drawn.len()
        invariant
            i <= drawn@.len(),
            cnt == match_count(w, d.take(i as int)),
            cnt <= i,
        decreases drawn.len() - i,
    {
        proof {
            assert(d.take(i as int + 1).drop_last() =~= d.take(i as int));
            assert(d.take(i as int + 1).last() == d[i as int]);
            assert(d[i as int] == drawn@[i as int] as int);
        }
        if contains_u32(winners, drawn[i]) {
            cnt += 1;
        }
        i += 1;
    }
    proof {
        assert(d.take(d.len() as int) =~= d);
    }
    cnt
}

/// The score of a card: two to the power of one less than its match
/// count, and zero with no match at all.
#[verifier::loop_isolation(false)]
#[verifier::rlimit(60)]
pub fn winners_in(winners: &Vec<u32>, drawn: &Vec<u32>) -> (r: u32)
    requires
        match_count(
            winners@.map_values(|y: u32| y as int),
            drawn@.map_values(|y: u32| y as int),
        ) <= 32,
    ensures
        ({
            let mc = match_count(
                winners@.map_values(|y: u32| y as int),
                drawn@.map_values(|y: u32| y as int),
            );
            r == (if mc > 0 {
                spec_pow2(mc - 1)
            } else {
                0int
            })
        }),
{
    let ghost w = winners@.map_values(|y: u32| y as int);
    let ghost d = drawn@.map_values(|y: u32| y as int);
    proof {
        lemma_match_count_bounds(w, d);
    }
    let count: usize = count_matches(winners, drawn);
    if count > 0 {
        let mut p: u32 = 1;
        let mut j: usize = 0;
        proof {
            lemma_pow2_le(0, 31);
            reveal_with_fuel(spec_pow2, 33);
            assert(spec_pow2(31) == 0x8000_0000);
        }
        while j < count - 1
            invariant
                j <= count - 1 <= 31,
                p == spec_pow2(j as int),
            decreases count - j,
        {
            proof {
                lemma_pow2_pos(j as int);
                lemma_pow2_le(j as int + 1, 31);
            }
            p = p * 2;
            j += 1;
        }
        p
    } else {
        0
    }
}

/// The number of matches a card has, for the copy-winning game.
pub fn winners_in_p2(winners: &Vec<u32>, drawn: &Vec<u32>) -> (r: usize)
    ensures
        r == match_count(
            winners@.map_values(|y: u32| y as int),
            drawn@.map_values(|y: u32| y as int),
        ),
{
    count_matches(winners, drawn)
}

/// What one card line denotes: its winners and its drawn numbers.
pub open spec fn spec_card(line: Seq<u8>) -> Result<(Seq<int>, Seq<int>), ParseError> {
    match first_byte_pos(line, 58) {
        None => Err(ParseError::NoColon),
        Some(colon) => match first_byte_pos(line, 124) {
            None => Err(ParseError::NoPipe),
            Some(pipe) => match spec_numbers(line.subrange(colon + 1, pipe)) {
                Err(e) => Err(e),
                Ok(winners) => match spec_numbers(line.skip(pipe + 1)) {
                    Err(e) => Err(e),
                    Ok(drawn) => Ok((winners, drawn)),
                },
            },
        },
    }
}

/// The card slices of every line lie in order: the `|` comes after the
/// `:`; a line that breaks this would abort the scorer.
pub open spec fn cards_ordered(lines: Seq<Seq<u8>>) -> bool {
    forall|i: int|
        0 <= i < lines.len() ==> match (
            first_byte_pos(#[trigger] lines[i], 58),
            first_byte_pos(lines[i], 124),
        ) {
            (Some(colon), Some(pipe)) => colon + 1 <= pipe,
            _ => true,
        }
}

/// Reads one card line into its winners and drawn numbers.
#[verifier::loop_isolation(false)]
pub fn read_card(line: &[u8]) -> (r: Result<(Vec<u32>, Vec<u32>), ParseError>)
    requires
        ({
            match (first_byte_pos(line@, 58), first_byte_pos(line@, 124)) {
                (Some(colon), Some(pipe)) => colon + 1 <= pipe,
                _ => true,
            }
        }),
    ensures
        ({
            match spec_card(line@) {
                Result::Ok((winners, drawn)) => r matches Ok(p) && p.0@.len() == winners.len()
                    && (forall|k: int| 0 <= k < winners.len() ==> p.0@[k] == winners[k])
                    && p.1@.len() == drawn.len() && (forall|k: int|
                    0 <= k < drawn.len() ==> p.1@[k] == drawn[k]),
                Result::Err(e) => r == Result::<(Vec<u32>, Vec<u32>), ParseError>::Err(e),
            }
        }),
{
    let colon: usize = match find_byte(line, 58) {
        Some(i) => i,
        None => { return Err(ParseError::NoColon) },
    };
    let pipe: usize = match find_byte(line, 124) {
        Some(i) => i,
        None => { return Err(ParseError::NoPipe) },
    };
    let len: usize = line.len();
    proof {
        lemma_first_byte_pos(line@, 58);
        lemma_first_byte_pos(line@, 124);
        assert(colon < len && pipe < len);
    }
    let wpart: Vec<u8> = sub_bytes(line, colon + 1, pipe);
    let dpart: Vec<u8> = sub_bytes(line, pipe + 1, len);
    proof {
        assert(dpart@ =~= line@.skip(pipe + 1));
    }
    let winners: Vec<u32> = match numbers_in(wpart.as_slice()) {
        Ok(v) => v,
        Err(e) => { return Err(e) },
    };
    let drawn: Vec<u32> = match numbers_in(dpart.as_slice()) {
        Ok(v) => v,
        Err(e) => { return Err(e) },
    };
    Ok((winners, drawn))
}

/// The score of one parsed card.
pub open spec fn spec_score(w: Seq<int>, d: Seq<int>) -> int {
    let mc = match_count(w, d);
    if mc > 0 {
        spec_pow2(mc - 1)
    } else {
        0
    }
}

/// The card line's colon comes before its pipe, so that the winners slice
/// between them is well-formed. The scorers assume this rather than
/// reporting it as an error.
pub open spec fn card_ordered(line: Seq<u8>) -> bool {
    match (first_byte_pos(line, 58), first_byte_pos(line, 124)) {
        (Some(colon), Some(pipe)) => colon + 1 <= pipe,
        _ => true,
    }
}

/// The sum of the card scores, folded over the lines.
pub open spec fn spec_scratch_sum(lines: Seq<Seq<u8>>, acc: int) -> Result<int, ParseError>
    decreases lines.len(),
{
    if lines.len() == 0 {
        Ok(acc)
    } else {
        match spec_card(lines[0]) {
            Err(e) => Err(e),
            Ok((w, d)) => spec_scratch_sum(lines.skip(1), acc + spec_score(w, d)),
        }
    }
}

/// Every card's slices lie in order, its match count leaves the score a
/// `u32`, and the running sum stays within `u32`.
pub open spec fn scratch_fits(lines: Seq<Seq<u8>>, acc: int) -> bool
    decreases lines.len(),
{
    if lines.len() == 0 {
        true
    } else {
        &&& card_ordered(lines[0])
        &&& (match spec_card(lines[0]) {
            Err(e) => true,
            Ok((w, d)) => {
                &&& match_count(w, d) <= 32
                &&& 0 <= acc + spec_score(w, d) <= u32::MAX
                &&& scratch_fits(lines.skip(1), acc + spec_score(w, d))
            },
        })
    }
}

/// The total score of all cards: part one of the scratch-card puzzle.
#[verifier::loop_isolation(false)]
pub fn scratch_sum(lines: &Vec<Vec<u8>>) -> (r: Result<u32, ParseError>)
    requires
        scratch_fits(lines.deep_view(), 0),
    ensures
        ({
            match spec_scratch_sum(lines.deep_view(), 0) {
                Result::Ok(v) => r == Result::<u32, ParseError>::Ok(v as u32),
                Result::Err(e) => r == Result::<u32, ParseError>::Err(e),
            }
        }),
{
    let ghost bigl = lines.deep_view();
    proof {
        assert(bigl.skip(0) =~= bigl);
        assert(bigl.len() == lines@.len());
    }
    let mut sum: u32 = 0;
    let mut i: usize = 0;
    while i < lines.len()
        invariant
            i <= lines@.len(),
            spec_scratch_sum(bigl, 0) == spec_scratch_sum(bigl.skip(i as int), sum as int),
            scratch_fits(bigl.skip(i as int), sum as int),
        decreases lines.len() - i,
    {
        proof {
            assert(bigl[i as int] =~= lines@[i as int]@);
            assert(bigl.skip(i as int)[0] == bigl[i as int]);
            assert(bigl.skip(i as int).skip(1) =~= bigl.skip(i as int + 1));
        }
        let (winners, drawn) = match read_card(lines[i].as_slice()) {
            Ok(p) => p,
            Err(e) => { return Err(e) },
        };
        proof {
            assert(winners@.map_values(|y: u32| y as int) =~= spec_card(
                bigl[i as int],
            )->Ok_0.0);
            assert(drawn@.map_values(|y: u32| y as int) =~= spec_card(bigl[i as int])->Ok_0.1);
        }
        let res: u32 = winners_in(&winners, &drawn);
        sum = sum + res;
        i += 1;
    }
    Ok(sum)
}

/// The backlog grown to hold `n` cards, new cards starting at zero copies.
pub open spec fn spec_resize(b: Seq<int>, n: int) -> Seq<int> {
    if n <= b.len() {
        b
    } else {
        Seq::new(n as nat, |j: int| if j < b.len() {
            b[j]
        } else {
            0int
        })
    }
}

/// The backlog with `win` copies added to every card from `lo` up to,
/// not including, `hi`.
pub open spec fn spec_add_win(b: Seq<int>, lo: int, hi: int, win: int) -> Seq<int> {
    Seq::new(b.len(), |j: int| if lo <= j < hi {
        b[j] + win
    } else {
        b[j]
    })
}

/// The copy backlog after playing the cards from line `i` on: each card
/// adds one original of itself, then its copies win one copy each of the
/// following cards, as many as it has matches.
pub open spec fn spec_backlog(lines: Seq<Seq<u8>>, b: Seq<int>, i: int) -> Result<
    Seq<int>,
    ParseError,
>
    recommends
        0 <= i,
    decreases lines.len(),
{
    if lines.len() == 0 {
        Ok(b)
    } else {
        match spec_card(lines[0]) {
            Err(e) => Err(e),
            Ok((w, d)) => {
                let res = match_count(w, d);
                let b1 = spec_resize(b, max(i + 1 + res, b.len() as int));
                let b2 = b1.update(i, b1[i] + 1);
                let win = b2[i];
                let b3 = spec_add_win(b2, i + 1, i + 1 + res, win);
                spec_backlog(lines.skip(1), b3, i + 1)
            },
        }
    }
}

/// The total of the backlog's copy counts.
pub open spec fn sum_ints(s: Seq<int>) -> int
    decreases s.len(),
{
    if s.len() == 0 {
        0
    } else {
        sum_ints(s.drop_last()) + s.last()
    }
}

/// Every card's slices lie in order and every copy count and the final
/// total stay within `usize`.
pub open spec fn backlog_fits(lines: Seq<Seq<u8>>, b: Seq<int>, i: int) -> bool
    decreases lines.len(),
{
    if lines.len() == 0 {
        sum_ints(b) <= usize::MAX
    } else {
        &&& card_ordered(lines[0])
        &&& (match spec_card(lines[0]) {
            Err(e) => true,
            Ok((w, d)) => {
                let res = match_count(w, d);
                let b1 = spec_resize(b, max(i + 1 + res, b.len() as int));
                let b2 = b1.update(i, b1[i] + 1);
                let win = b2[i];
                let b3 = spec_add_win(b2, i + 1, i + 1 + res, win);
                &&& i + 1 + res <= usize::MAX
                &&& b1[i] + 1 <= usize::MAX
                &&& 0 <= win <= usize::MAX
                &&& (forall|j: int|
                    i + 1 <= j < i + 1 + res && j < b2.len() ==> #[trigger] b2[j] <= usize::MAX
                        - win)
                &&& backlog_fits(lines.skip(1), b3, i + 1)
            },
        })
    }
}

/// A backlog of non-negative counts stays non-negative through the play.
pub proof fn lemma_backlog_nonneg(lines: Seq<Seq<u8>>, b: Seq<int>, i: int)
    requires
        0 <= i,
        forall|j: int| 0 <= j < b.len() ==> #[trigger] b[j] >= 0,
    ensures
        spec_backlog(lines, b, i) matches Ok(b9) ==> forall|j: int|
            0 <= j < b9.len() ==> #[trigger] b9[j] >= 0,
    decreases lines.len(),
{
    if lines.len() > 0 {
        match spec_card(lines[0]) {
            Err(e) => {},
            Ok((w, d)) => {
                let res = match_count(w, d);
                lemma_match_count_bounds(w, d);
                let b1 = spec_resize(b, max(i + 1 + res, b.len() as int));
                let b2 = b1.update(i, b1[i] + 1);
                let win = b2[i];
                let b3 = spec_add_win(b2, i + 1, i + 1 + res, win);
                assert(forall|j: int| 0 <= j < b3.len() ==> #[trigger] b3[j] >= 0);
                lemma_backlog_nonneg(lines.skip(1), b3, i + 1);
            },
        }
    }
}

/// Non-negative counts total a non-negative sum.
pub proof fn lemma_sum_ints_nonneg(s: Seq<int>)
    requires
        forall|j: int| 0 <= j < s.len() ==> #[trigger] s[j] >= 0,
    ensures
        sum_ints(s) >= 0,
    decreases s.len(),
{
    if s.len() > 0 {
        assert(s[s.len() - 1] >= 0);
        assert(forall|j: int| 0 <= j < s.drop_last().len() ==> #[trigger] s.drop_last()[j] == s[j]);
        lemma_sum_ints_nonneg(s.drop_last());
    }
}

/// A prefix of non-negative counts never totals more than all of them.
pub proof fn lemma_sum_ints_prefix(s: Seq<int>, k: int)
    requires
        0 <= k <= s.len(),
        forall|j: int| 0 <= j < s.len() ==> #[trigger] s[j] >= 0,
    ensures
        0 <= sum_ints(s.take(k)) <= sum_ints(s),
    decreases s.len() - k,
{
    if k == s.len() {
        assert(s.take(k) =~= s);
        lemma_sum_ints_nonneg(s);
    } else {
        assert(s.take(k + 1).drop_last() =~= s.take(k));
        assert(s.take(k + 1).last() == s[k]);
        assert(s[k] >= 0);
        assert forall|j: int| 0 <= j < s.take(k).len() implies #[trigger] s.take(k)[j] >= 0 by {
            assert(s.take(k)[j] == s[j]);
        }
        lemma_sum_ints_nonneg(s.take(k));
        lemma_sum_ints_prefix(s, k + 1);
    }
}

/// The number of cards held at the end of the copy game: part two of the
/// scratch-card puzzle.
#[verifier::loop_isolation(false)]
pub fn card_totals(lines: &Vec<Vec<u8>>) -> (r: Result<usize, ParseError>)
    requires
        backlog_fits(lines.deep_view(), Seq::empty(), 0),
    ensures
        ({
            match spec_backlog(lines.deep_view(), Seq::empty(), 0) {
                Result::Ok(b) => r == Result::<usize, ParseError>::Ok(sum_ints(b) as usize),
                Result::Err(e) => r == Result::<usize, ParseError>::Err(e),
            }
        }),
{
    let ghost bigl = lines.deep_view();
    proof {
        assert(bigl.skip(0) =~= bigl);
        assert(bigl.len() == lines@.len());
    }
    let mut backlog: Vec<usize> = Vec::new();
    proof {
        assert(backlog@.map_values(|x: usize| x as int) =~= Seq::<int>::empty());
    }
    let mut i: usize = 0;
    while i < lines.len()
        invariant
            i <= lines@.len(),
            spec_backlog(bigl, Seq::empty(), 0) == spec_backlog(
                bigl.skip(i as int),
                backlog@.map_values(|x: usize| x as int),
                i as int,
            ),
            backlog_fits(
                bigl.skip(i as int),
                backlog@.map_values(|x: usize| x as int),
                i as int,
            ),
        decreases lines.len() - i,
    {
        proof {
            assert(bigl[i as int] =~= lines@[i as int]@);
            assert(bigl.skip(i as int)[0] == bigl[i as int]);
            assert(bigl.skip(i as int).skip(1) =~= bigl.skip(i as int + 1));
        }
        let (winners, drawn) = match read_card(lines[i].as_slice()) {
            Ok(p) => p,
            Err(e) => { return Err(e) },
        };
        proof {
            assert(winners@.map_values(|y: u32| y as int) =~= spec_card(
                bigl[i as int],
            )->Ok_0.0);
            assert(drawn@.map_values(|y: u32| y as int) =~= spec_card(bigl[i as int])->Ok_0.1);
        }
        let res: usize = winners_in_p2(&winners, &drawn);
        let ghost b0 = backlog@.map_values(|x: usize| x as int);
        let ghost w = spec_card(bigl[i as int])->Ok_0.0;
        let ghost d = spec_card(bigl[i as int])->Ok_0.1;
        proof {
            lemma_match_count_bounds(w, d);
        }
        let needed: usize = if i + 1 + res >= backlog.len() {
            i + 1 + res
        } else {
            backlog.len()
        };
        proof {
            assert(backlog@.map_values(|x: usize| x as int) =~= spec_resize(
                b0,
                backlog@.len() as int,
            ));
        }
        while backlog.len() < needed
            invariant
                needed == max(i as int + 1 + res as int, b0.len() as int),
                b0.len() <= backlog@.len() <= needed,
                backlog@.map_values(|x: usize| x as int) == spec_resize(
                    b0,
                    backlog@.len() as int,
                ),
            decreases needed - backlog.len(),
        {
            let ghost before = backlog@.map_values(|x: usize| x as int);
            backlog.push(0);
            proof {
                let after = backlog@.map_values(|x: usize| x as int);
                assert(after.len() == before.len() + 1);
                assert forall|j: int|
                    0 <= j < after.len() implies after[j] == spec_resize(
                    b0,
                    after.len() as int,
                )[j] by {
                    if j < before.len() {
                        assert(after[j] == before[j]);
                        assert(before[j] == spec_resize(b0, before.len() as int)[j]);
                    } else {
                        assert(after[j] == 0);
                    }
                }
                assert(after =~= spec_resize(b0, backlog@.len() as int));
            }
        }
        let ghost b1 = spec_resize(b0, max(i as int + 1 + res as int, b0.len() as int));
        proof {
            assert(backlog@.map_values(|x: usize| x as int) =~= b1);
        }
        let cur: usize = backlog[i];
        backlog.set(i, cur + 1);
        let ghost b2 = b1.update(i as int, b1[i as int] + 1);
        proof {
            assert(backlog@.map_values(|x: usize| x as int) =~= b2);
        }
        let win: usize = backlog[i];
        proof {
            assert(match_count(w, d) == res as int);
            assert(win as int == b2[i as int]);
            assert forall|j: int|
                i + 1 <= j < i + 1 + res && j < b2.len() implies #[trigger] b2[j] <= usize::MAX
                - (win as int) by {}
            assert(backlog@.map_values(|x: usize| x as int) =~= spec_add_win(
                b2,
                i as int + 1,
                i as int + 1,
                win as int,
            ));
        }
        if res > 0 {
            let mut j: usize = i + 1;
            while j < i + 1 + res
                invariant
                    i + 1 <= j <= i + 1 + res,
                    i + 1 + res <= backlog@.len(),
                    win as int == b2[i as int],
                    forall|j2: int|
                        i + 1 <= j2 < i + 1 + res && j2 < b2.len() ==> #[trigger] b2[j2]
                            <= usize::MAX - (win as int),
                    backlog@.map_values(|x: usize| x as int) == spec_add_win(
                        b2,
                        i as int + 1,
                        j as int,
                        win as int,
                    ),
                decreases i + 1 + res - j,
            {
                let ghost before = backlog@.map_values(|x: usize| x as int);
                proof {
                    assert(before[j as int] == b2[j as int]);
                    assert(b2[j as int] <= usize::MAX - win);
                }
                let old_val: usize = backlog[j];
                backlog.set(j, old_val + win);
                proof {
                    let after = backlog@.map_values(|x: usize| x as int);
                    assert forall|k: int|
                        0 <= k < after.len() implies after[k] == spec_add_win(
                        b2,
                        i as int + 1,
                        j as int + 1,
                        win as int,
                    )[k] by {
                        if k != j {
                            assert(after[k] == before[k]);
                        } else {
                            assert(after[k] == old_val + win);
                        }
                    }
                    assert(after =~= spec_add_win(b2, i as int + 1, j as int + 1, win as int));
                }
                j += 1;
            }
        }
        proof {
            assert(backlog@.map_values(|x: usize| x as int) =~= spec_add_win(
                b2,
                i as int + 1,
                i as int + 1 + res as int,
                win as int,
            ));
        }
        i += 1;
    }
    let ghost bfinal = backlog@.map_values(|x: usize| x as int);
    proof {
        assert(bigl.skip(lines@.len() as int).len() == 0);
        assert(spec_backlog(bigl, Seq::empty(), 0) == Result::<Seq<int>, ParseError>::Ok(bfinal));
        assert(sum_ints(bfinal) <= usize::MAX);
        lemma_backlog_nonneg(bigl, Seq::empty(), 0);
        assert(bfinal.take(0).len() == 0);
    }
    let mut total: usize = 0;
    let mut k: usize = 0;
    while k < backlog.len()
        invariant
            k <= backlog@.len(),
            total == sum_ints(bfinal.take(k as int)),
            bfinal == backlog@.map_values(|x: usize| x as int),
        decreases backlog.len() - k,
    {
        proof {
            assert(bfinal.take(k as int + 1).drop_last() =~= bfinal.take(k as int));
            assert(bfinal.take(k as int + 1).last() == bfinal[k as int]);
            lemma_sum_ints_prefix(bfinal, k as int + 1);
        }
        total = total + backlog[k];
        k += 1;
    }
    proof {
        assert(bfinal.take(bfinal.len() as int) =~= bfinal);
    }
    Ok(total)
}

} // verus!
