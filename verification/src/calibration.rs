//! Calibration lines: each line's value is ten times the value of the
//! pattern found earliest in it plus the value of the pattern found
//! latest, and the answer is the sum over all lines.

use crate::errors::ParseError;
use crate::parse::{
    find_sub, first_match_pos, last_match_pos, lemma_first_match_pos, lemma_first_match_pos_none,
    lemma_last_match_pos, lemma_last_match_pos_none, rfind_sub,
};
use vstd::prelude::*;

verus! {

/// The fold that scans the value map for the earliest match in `line`:
/// among entries whose pattern occurs, the one with the smallest first
/// occurrence wins, later entries winning ties.
pub open spec fn spec_first(
    map: Seq<(Vec<u8>, i32)>,
    line: Seq<u8>,
    acc: Option<(i32, int)>,
) -> Option<(i32, int)>
    decreases map.len(),
{
    if map.len() == 0 {
        acc
    } else {
        let pos = first_match_pos(line, map[0].0@);
        let acc2 = match (acc, pos) {
            (Some(a), Some(p)) => if a.1 < p {
                Some(a)
            } else {
                Some((map[0].1, p))
            },
            (Some(a), None) => Some(a),
            (None, Some(p)) => Some((map[0].1, p)),
            (None, None) => None,
        };
        spec_first(map.skip(1), line, acc2)
    }
}

/// The fold that scans the value map for the latest match in `line`:
/// among entries whose pattern occurs, the one with the largest last
/// occurrence wins, later entries winning ties.
pub open spec fn spec_last(
    map: Seq<(Vec<u8>, i32)>,
    line: Seq<u8>,
    acc: Option<(i32, int)>,
) -> Option<(i32, int)>
    decreases map.len(),
{
    if map.len() == 0 {
        acc
    } else {
        let pos = last_match_pos(line, map[0].0@);
        let acc2 = match (acc, pos) {
            (Some(a), Some(p)) => if a.1 > p {
                Some(a)
            } else {
                Some((map[0].1, p))
            },
            (Some(a), None) => Some(a),
            (None, Some(p)) => Some((map[0].1, p)),
            (None, None) => None,
        };
        spec_last(map.skip(1), line, acc2)
    }
}

/// The value of the entry found earliest in `line`, or an error when no
/// pattern of the map occurs in it.
pub fn first(value_map: &Vec<(Vec<u8>, i32)>, line: &[u8]) -> (r: Result<i32, ParseError>)
    ensures
        r == (match spec_first(value_map@, line@, None) {
            Some(a) => Result::<i32, ParseError>::Ok(a.0),
            None => Result::<i32, ParseError>::Err(ParseError::NoMatch),
        }),
{
    let ghost m = value_map@;
    proof {
        assert(m.skip(0) =~= m);
    }
    let mut acc: Option<(i32, usize)> = None;
    let mut i: usize = 0;
    while i < value_map.len()
        invariant
            i <= m.len(),
            m == value_map@,
            spec_first(m, line@, None) == spec_first(
                m.skip(i as int),
                line@,
                match acc {
                    Some(a) => Some((a.0, a.1 as int)),
                    None => None,
                },
            ),
        decreases value_map.len() - i,
    {
        let pos: Option<usize> = find_sub(line, value_map[i].0.as_slice());
        proof {
            match pos {
                Some(p) => lemma_first_match_pos(line@, m[i as int].0@, p as int),
                None => lemma_first_match_pos_none(line@, m[i as int].0@),
            }
            assert(m.skip(i as int)[0] == m[i as int]);
            assert(m.skip(i as int).skip(1) =~= m.skip(i as int + 1));
        }
        acc = match (acc, pos) {
            (Some(a), Some(p)) => if a.1 < p {
                Some(a)
            } else {
                Some((value_map[i].1, p))
            },
            (Some(a), None) => Some(a),
            (None, Some(p)) => Some((value_map[i].1, p)),
            (None, None) => None,
        };
        i += 1;
    }
    match acc {
        Some(a) => Ok(a.0),
        None => Err(ParseError::NoMatch),
    }
}

/// The value of the entry found latest in `line`, or an error when no
/// pattern of the map occurs in it.
pub fn last(value_map: &Vec<(Vec<u8>, i32)>, line: &[u8]) -> (r: Result<i32, ParseError>)
    ensures
        r == (match spec_last(value_map@, line@, None) {
            Some(a) => Result::<i32, ParseError>::Ok(a.0),
            None => Result::<i32, ParseError>::Err(ParseError::NoMatch),
        }),
{
    let ghost m = value_map@;
    proof {
        assert(m.skip(0) =~= m);
    }
    let mut acc: Option<(i32, usize)> = None;
    let mut i: usize = 0;
    while i < value_map.len()
        invariant
            i <= m.len(),
            m == value_map@,
            spec_last(m, line@, None) == spec_last(
                m.skip(i as int),
                line@,
                match acc {
                    Some(a) => Some((a.0, a.1 as int)),
                    None => None,
                },
            ),
        decreases value_map.len() - i,
    {
        let pos: Option<usize> = rfind_sub(line, value_map[i].0.as_slice());
        proof {
            match pos {
                Some(p) => lemma_last_match_pos(line@, m[i as int].0@, p as int),
                None => lemma_last_match_pos_none(line@, m[i as int].0@),
            }
            assert(m.skip(i as int)[0] == m[i as int]);
            assert(m.skip(i as int).skip(1) =~= m.skip(i as int + 1));
        }
        acc = match (acc, pos) {
            (Some(a), Some(p)) => if a.1 > p {
                Some(a)
            } else {
                Some((value_map[i].1, p))
            },
            (Some(a), None) => Some(a),
            (None, Some(p)) => Some((value_map[i].1, p)),
            (None, None) => None,
        };
        i += 1;
    }
    match acc {
        Some(a) => Ok(a.0),
        None => Err(ParseError::NoMatch),
    }
}

/// The calibration value one line denotes: ten times the earliest entry's
/// value plus the latest entry's value.
pub open spec fn spec_line_value(map: Seq<(Vec<u8>, i32)>, line: Seq<u8>) -> Result<
    int,
    ParseError,
> {
    match (spec_first(map, line, None), spec_last(map, line, None)) {
        (Some(f), Some(l)) => Ok(f.0 * 10 + l.0),
        _ => Err(ParseError::NoMatch),
    }
}

/// The sum of the calibration values of the lines, folded left to right.
pub open spec fn spec_calibration_sum(
    map: Seq<(Vec<u8>, i32)>,
    lines: Seq<Seq<u8>>,
    acc: int,
) -> Result<int, ParseError>
    decreases lines.len(),
{
    if lines.len() == 0 {
        Ok(acc)
    } else {
        match spec_line_value(map, lines[0]) {
            Ok(v) => spec_calibration_sum(map, lines.skip(1), acc + v),
            Err(e) => Err(e),
        }
    }
}

/// Every intermediate value and running sum of the fold stays within
/// `i32`; the fold would otherwise abort the run.
pub open spec fn calibration_fits(map: Seq<(Vec<u8>, i32)>, lines: Seq<Seq<u8>>, acc: int) -> bool
    decreases lines.len(),
{
    if lines.len() == 0 {
        true
    } else {
        match (spec_first(map, lines[0], None), spec_last(map, lines[0], None)) {
            (Some(f), Some(l)) => {
                let v = f.0 * 10 + l.0;
                &&& i32::MIN <= f.0 * 10 <= i32::MAX
                &&& i32::MIN <= v <= i32::MAX
                &&& i32::MIN <= acc + v <= i32::MAX
                &&& calibration_fits(map, lines.skip(1), acc + v)
            },
            _ => true,
        }
    }
}

/// The sum of the calibration values of all lines; a line in which no
/// pattern occurs is a format error.
#[verifier::loop_isolation(false)]
pub fn calibration_sum(value_map: &Vec<(Vec<u8>, i32)>, lines: &Vec<Vec<u8>>) -> (r: Result<
    i32,
    ParseError,
>)
    requires
        calibration_fits(value_map@, lines.deep_view(), 0),
    ensures
        r == (match spec_calibration_sum(value_map@, lines.deep_view(), 0) {
            Ok(v) => Result::<i32, ParseError>::Ok(v as i32),
            Err(e) => Result::<i32, ParseError>::Err(e),
        }),
{
    let ghost m = value_map@;
    let ghost bigl = lines.deep_view();
    proof {
        assert(bigl.len() == lines@.len());
    }
    proof {
        assert(bigl.skip(0) =~= bigl);
    }
    let mut sum: i32 = 0;
    let mut i: usize = 0;
    while i < lines.len()
        invariant
            i <= lines@.len(),
            spec_calibration_sum(m, bigl, 0) == spec_calibration_sum(
                m,
                bigl.skip(i as int),
                sum as int,
            ),
            calibration_fits(m, bigl.skip(i as int), sum as int),
        decreases lines.len() - i,
    {
        proof {
            assert(bigl[i as int] =~= lines@[i as int]@);
            assert(bigl.skip(i as int)[0] == bigl[i as int]);
            assert(bigl.skip(i as int).skip(1) =~= bigl.skip(i as int + 1));
        }
        let f: i32 = match first(value_map, lines[i].as_slice()) {
            Ok(v) => v,
            Err(e) => { return Err(e) },
        };
        let l: i32 = match last(value_map, lines[i].as_slice()) {
            Ok(v) => v,
            Err(e) => { return Err(e) },
        };
        sum = sum + (f * 10 + l);
        i += 1;
    }
    Ok(sum)
}

/// The plain digit patterns, `"1"` through `"9"`, each denoting its value.
pub fn digit_values() -> (r: Vec<(Vec<u8>, i32)>)
    ensures
        r@.len() == 9,
        forall|k: int|
            0 <= k < 9 ==> (#[trigger] r@[k]).1 == k + 1 && r@[k].0@.len() == 1 && r@[k].0@[0]
                == 49 + k,
{
    let mut out: Vec<(Vec<u8>, i32)> = Vec::new();
    let mut d: i32 = 1;
    while d <= 9
        invariant
            1 <= d <= 10,
            out@.len() == d - 1,
            forall|k: int|
                0 <= k < d - 1 ==> (#[trigger] out@[k]).1 == k + 1 && out@[k].0@.len() == 1
                    && out@[k].0@[0] == 49 + k,
        decreases 10 - d,
    {
        let mut pat: Vec<u8> = Vec::new();
        pat.push(48 + (d as u8));
        out.push((pat, d));
        d += 1;
    }
    out
}

/// The digit patterns together with the spelled-out words `"one"` through
/// `"nine"`, words first, as the second part of the puzzle reads them.
pub fn word_and_digit_values() -> (r: Vec<(Vec<u8>, i32)>)
    ensures
        r@.len() == 18,
        forall|k: int| 9 <= k < 18 ==> (#[trigger] r@[k]).1 == k - 8,
        forall|k: int| 0 <= k < 9 ==> (#[trigger] r@[k]).1 == k + 1,
{
    let mut out: Vec<(Vec<u8>, i32)> = Vec::new();
    out.push(("one".as_bytes_vec(), 1));
    out.push(("two".as_bytes_vec(), 2));
    out.push(("three".as_bytes_vec(), 3));
    out.push(("four".as_bytes_vec(), 4));
    out.push(("five".as_bytes_vec(), 5));
    out.push(("six".as_bytes_vec(), 6));
    out.push(("seven".as_bytes_vec(), 7));
    out.push(("eight".as_bytes_vec(), 8));
    out.push(("nine".as_bytes_vec(), 9));
    let digits: Vec<(Vec<u8>, i32)> = digit_values();
    let mut k: usize = 0;
    while k < digits.len()
        invariant
            k <= digits@.len(),
            digits@.len() == 9,
            forall|j: int| 0 <= j < 9 ==> (#[trigger] digits@[j]).1 == j + 1,
            out@.len() == 9 + k,
            forall|j: int| 9 <= j < 9 + k ==> (#[trigger] out@[j]).1 == j - 8,
            forall|j: int| 0 <= j < 9 ==> (#[trigger] out@[j]).1 == j + 1,
        decreases digits.len() - k,
    {
        let (pat, v) = (
            {
                let p: &Vec<u8> = &digits[k].0;
                let mut c: Vec<u8> = Vec::new();
                let mut q: usize = 0;
                while q < p.len()
                    invariant
                        q <= p@.len(),
                        c@ == p@.take(q as int),
                    decreases p.len() - q,
                {
                    c.push(p[q]);
                    proof {
                        assert(c@ =~= p@.take(q as int + 1));
                    }
                    q += 1;
                }
                c
            },
            digits[k].1,
        );
        out.push((pat, v));
        k += 1;
    }
    out
}

} // verus!
