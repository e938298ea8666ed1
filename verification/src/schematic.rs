//! Schematic grids: each line holds digit runs (part numbers) and symbol
//! cells. A part counts when a symbol sits next to it on its own or a
//! neighbouring line; a gear's ratio is the product of the two or more
//! part values around it.

use crate::errors::ParseError;
use crate::parse::{all_digits, digits_val, is_digit, parse_u32, sub_bytes};
use vstd::prelude::*;

verus! {

/// One part number: the digit run from column `start` to column `end`,
/// and its value.
#[derive(Clone, Copy, Debug, PartialEq, Eq, Structural)]
pub struct Part {
    pub start: i32,
    pub end: i32,
    pub value: u32,
}

/// One scanned line: its part numbers and its symbol columns.
#[derive(Debug)]
pub struct Line {
    pub parts: Vec<Part>,
    pub symbols: Vec<i32>,
}

/// `c` counts as a symbol: the chosen symbol when one is given, else any
/// byte other than a dot.
pub open spec fn is_sym(c: u8, symbol_char: Option<u8>) -> bool {
    match symbol_char {
        Some(sc) => c == sc,
        None => c != 46,
    }
}

/// The part closed over columns `st` to `end` with the digits' value `v`,
/// when the columns fit `i32` and the value fits `u32`.
pub open spec fn mk_part(st: int, end: int, v: int) -> Result<Part, ParseError> {
    if st <= i32::MAX && end <= i32::MAX && v <= u32::MAX {
        Ok(Part { start: st as i32, end: end as i32, value: v as u32 })
    } else {
        Err(ParseError::BadInteger)
    }
}

/// The scan of a schematic line from column `i` on: digit runs close into
/// parts when a non-digit or the end of the line follows them, and symbol
/// columns are collected; a run whose value or column does not fit is a
/// format error. A run still open on the last column closes with the line
/// length, not the last column, as its recorded end.
pub open spec fn spec_scan(
    chars: Seq<u8>,
    i: int,
    parts: Seq<Part>,
    symbols: Seq<i32>,
    start: Option<int>,
    sc: Option<u8>,
) -> Result<(Seq<Part>, Seq<i32>), ParseError>
    decreases chars.len() - i when 0 <= i
{
    if i >= chars.len() {
        Ok((parts, symbols))
    } else {
        let c = chars[i];
        if is_digit(c) {
            let start1 = if start is Some {
                start
            } else {
                Some(i)
            };
            if i == chars.len() - 1 {
                let st = start1->Some_0;
                match mk_part(st, chars.len() as int, digits_val(chars.subrange(st, chars.len() as int))) {
                    Ok(p) => Ok((parts.push(p), symbols)),
                    Err(e) => Err(e),
                }
            } else {
                spec_scan(chars, i + 1, parts, symbols, start1, sc)
            }
        } else {
            let closed = if start is Some {
                let st = start->Some_0;
                match mk_part(st, i - 1, digits_val(chars.subrange(st, i))) {
                    Ok(p) => Ok(parts.push(p)),
                    Err(e) => Err::<Seq<Part>, ParseError>(e),
                }
            } else {
                Ok(parts)
            };
            match closed {
                Err(e) => Err(e),
                Ok(parts1) => {
                    if is_sym(c, sc) {
                        if i <= i32::MAX {
                            spec_scan(chars, i + 1, parts1, symbols.push(i as i32), None, sc)
                        } else {
                            Err(ParseError::BadInteger)
                        }
                    } else {
                        spec_scan(chars, i + 1, parts1, symbols, None, sc)
                    }
                },
            }
        }
    }
}

impl Line {
    /// Scans one schematic line into its parts and symbol columns.
    #[verifier::loop_isolation(false)]
    pub fn from_str(chars: &[u8], symbol_char: Option<u8>) -> (r: Result<Line, ParseError>)
        ensures
            ({
                match spec_scan(chars@, 0, Seq::empty(), Seq::empty(), None, symbol_char) {
                    Result::Ok((ps, ss)) => r matches Ok(l) && l.parts@ == ps && l.symbols@ == ss,
                    Result::Err(e) => r == Result::<Line, ParseError>::Err(e),
                }
            }),
    {
        let n: usize = chars.len();
        let mut parts: Vec<Part> = Vec::new();
        let mut symbols: Vec<i32> = Vec::new();
        let mut start: Option<usize> = None;
        let mut i: usize = 0;
        proof {
            assert(parts@ =~= Seq::<Part>::empty());
            assert(symbols@ =~= Seq::<i32>::empty());
        }
        while i < n
            invariant
                i <= n,
                spec_scan(chars@, 0, Seq::empty(), Seq::empty(), None, symbol_char) == spec_scan(
                    chars@,
                    i as int,
                    parts@,
                    symbols@,
                    match start {
                        Some(st) => Some(st as int),
                        None => None,
                    },
                    symbol_char,
                ),
                start matches Some(st) ==> st < i && (forall|j: int|
                    st <= j < i ==> is_digit(#[trigger] chars@[j])),
            decreases n - i,
        {
            let c: u8 = chars[i];
            if 48 <= c && c <= 57 {
                let st: usize = match start {
                    Some(s0) => s0,
                    None => i,
                };
                start = Some(st);
                if i == n - 1 {
                    let run: Vec<u8> = sub_bytes(chars, st, n);
                    proof {
                        assert(all_digits(run@));
                        assert(run@.len() > 0);
                        assert(run@[0] != 43 && run@[0] != 45);
                        crate::parse::lemma_digits_val_nonneg(run@);
                    }
                    let value: u32 = match parse_u32(run.as_slice()) {
                        Some(v) => v,
                        None => { return Err(ParseError::BadInteger) },
                    };
                    if st > 0x7fff_ffffusize || n > 0x7fff_ffffusize {
                        return Err(ParseError::BadInteger);
                    }
                    parts.push(Part { start: st as i32, end: n as i32, value });
                }
            } else {
                if let Some(st) = start {
                    let run: Vec<u8> = sub_bytes(chars, st, i);
                    proof {
                        assert(all_digits(run@));
                        assert(run@.len() > 0);
                        assert(run@[0] != 43 && run@[0] != 45);
                        crate::parse::lemma_digits_val_nonneg(run@);
                    }
                    let value: u32 = match parse_u32(run.as_slice()) {
                        Some(v) => v,
                        None => { return Err(ParseError::BadInteger) },
                    };
                    if st > 0x7fff_ffffusize || i - 1 > 0x7fff_ffffusize {
                        return Err(ParseError::BadInteger);
                    }
                    parts.push(Part { start: st as i32, end: (i - 1) as i32, value });
                }
                start = None;
                let symbol: bool = match symbol_char {
                    Some(sc) => c == sc,
                    None => c != 46,
                };
                if symbol {
                    if i > 0x7fff_ffffusize {
                        return Err(ParseError::BadInteger);
                    }
                    symbols.push(i as i32);
                }
            }
            i += 1;
        }
        Ok(Line { parts, symbols })
    }

    /// The sum of the values of the parts that touch one of the symbol
    /// columns, on this line or one step to either side.
    #[verifier::loop_isolation(false)]
    pub fn find_parts(&self, symbols: &Vec<i32>) -> (r: u32)
        requires
            parts_bounded(self.parts@),
            spec_find_parts(self.parts@, symbols@) <= u32::MAX,
        ensures
            r == spec_find_parts(self.parts@, symbols@),
    {
        let ghost ps = self.parts@;
        proof {
            assert(ps.take(0).len() == 0);
            lemma_find_parts_prefix(ps, symbols@, 0);
        }
        let mut sum: u32 = 0;
        let mut i: usize = 0;
        while i < self.parts.len()
            invariant
                i <= ps.len(),
                sum == spec_find_parts(ps.take(i as int), symbols@),
            decreases self.parts.len() - i,
        {
            proof {
                assert(ps.take(i as int + 1).drop_last() =~= ps.take(i as int));
                assert(ps.take(i as int + 1).last() == ps[i as int]);
                lemma_find_parts_prefix(ps, symbols@, i as int + 1);
                lemma_find_parts_nonneg(ps.take(i as int), symbols@);
            }
            let p: Part = self.parts[i];
            if touches_any(&p, symbols) {
                sum = sum + p.value;
            }
            i += 1;
        }
        proof {
            assert(ps.take(ps.len() as int) =~= ps);
        }
        sum
    }
}

/// Every part's columns leave room for the one-step neighbourhood.
pub open spec fn parts_bounded(parts: Seq<Part>) -> bool {
    forall|k: int|
        0 <= k < parts.len() ==> (#[trigger] parts[k]).start > i32::MIN && parts[k].end < i32::MAX
}

/// The symbol column `s` lies in the one-step neighbourhood of the part.
pub open spec fn spec_part_matches(p: Part, s: int) -> bool {
    p.start - 1 <= s <= p.end + 1
}

/// Some symbol column lies next to the part.
pub open spec fn touches(p: Part, symbols: Seq<i32>) -> bool {
    exists|j: int| 0 <= j < symbols.len() && spec_part_matches(p, symbols[j] as int)
}

/// The sum of the values of the parts that touch a symbol.
pub open spec fn spec_find_parts(parts: Seq<Part>, symbols: Seq<i32>) -> int
    decreases parts.len(),
{
    if parts.len() == 0 {
        0
    } else {
        spec_find_parts(parts.drop_last(), symbols) + if touches(parts.last(), symbols) {
            parts.last().value as int
        } else {
            0int
        }
    }
}

/// The touching-parts sum is never negative.
pub proof fn lemma_find_parts_nonneg(parts: Seq<Part>, symbols: Seq<i32>)
    ensures
        spec_find_parts(parts, symbols) >= 0,
    decreases parts.len(),
{
    if parts.len() > 0 {
        lemma_find_parts_nonneg(parts.drop_last(), symbols);
    }
}

/// A prefix of the parts never sums to more than all of them.
pub proof fn lemma_find_parts_prefix(parts: Seq<Part>, symbols: Seq<i32>, k: int)
    requires
        0 <= k <= parts.len(),
    ensures
        spec_find_parts(parts.take(k), symbols) <= spec_find_parts(parts, symbols),
    decreases parts.len() - k,
{
    if k == parts.len() {
        assert(parts.take(k) =~= parts);
    } else {
        assert(parts.take(k + 1).drop_last() =~= parts.take(k));
        assert(parts.take(k + 1).last() == parts[k]);
        lemma_find_parts_prefix(parts, symbols, k + 1);
    }
}

/// Whether the symbol column `i` lies next to the part.
pub fn part_matches(i: i32, a: &Part) -> (r: bool)
    requires
        a.start > i32::MIN,
        a.end < i32::MAX,
    ensures
        r == spec_part_matches(*a, i as int),
{
    a.start - 1 <= i && i <= a.end + 1
}

/// Whether some symbol column lies next to the part.
fn touches_any(p: &Part, symbols: &Vec<i32>) -> (r: bool)
    requires
        p.start > i32::MIN,
        p.end < i32::MAX,
    ensures
        r == touches(*p, symbols@),
{
    let mut j: usize = 0;
    while j < symbols.len()
        invariant
            j <= symbols@.len(),
            p.start > i32::MIN,
            p.end < i32::MAX,
            forall|k: int| 0 <= k < j ==> !spec_part_matches(*p, #[trigger] symbols@[k] as int),
        decreases symbols.len() - j,
    {
        if part_matches(symbols[j], p) {
            return true;
        }
        j += 1;
    }
    false
}

/// The symbol columns a neighbouring line contributes, empty when there is
/// no such line.
pub open spec fn opt_symbols(l: Option<&Line>) -> Seq<i32> {
    match l {
        Some(line) => line.symbols@,
        None => Seq::empty(),
    }
}

/// The parts a neighbouring line contributes, empty when there is no such
/// line.
pub open spec fn opt_parts(l: Option<&Line>) -> Seq<Part> {
    match l {
        Some(line) => line.parts@,
        None => Seq::empty(),
    }
}

/// The part-number sum of one line: the values of its parts that touch a
/// symbol on the line above, the line itself or the line below.
#[verifier::loop_isolation(false)]
pub fn sum_line_p1(prev: Option<&Line>, curr: &Line, next: Option<&Line>) -> (r: Result<
    u32,
    ParseError,
>)
    requires
        parts_bounded(curr.parts@),
        spec_find_parts(
            curr.parts@,
            opt_symbols(prev) + curr.symbols@ + opt_symbols(next),
        ) <= u32::MAX,
    ensures
        r == Result::<u32, ParseError>::Ok(
            spec_find_parts(
                curr.parts@,
                opt_symbols(prev) + curr.symbols@ + opt_symbols(next),
            ) as u32,
        ),
{
    let mut symbols: Vec<i32> = Vec::new();
    match prev {
        Some(line) => {
            let mut k: usize = 0;
            while k < line.symbols.len()
                invariant
                    k <= line.symbols@.len(),
                    symbols@ == line.symbols@.take(k as int),
                decreases line.symbols.len() - k,
            {
                symbols.push(line.symbols[k]);
                proof {
                    assert(symbols@ =~= line.symbols@.take(k as int + 1));
                }
                k += 1;
            }
            proof {
                assert(line.symbols@.take(line.symbols@.len() as int) =~= line.symbols@);
            }
        },
        None => {},
    }
    let ghost after_prev = symbols@;
    proof {
        assert(after_prev =~= opt_symbols(prev));
    }
    let mut k: usize = 0;
    while k < curr.symbols.len()
        invariant
            k <= curr.symbols@.len(),
            symbols@ == after_prev + curr.symbols@.take(k as int),
        decreases curr.symbols.len() - k,
    {
        symbols.push(curr.symbols[k]);
        proof {
            assert(symbols@ =~= after_prev + curr.symbols@.take(k as int + 1));
        }
        k += 1;
    }
    proof {
        assert(curr.symbols@.take(curr.symbols@.len() as int) =~= curr.symbols@);
    }
    let ghost after_curr = symbols@;
    match next {
        Some(line) => {
            let mut k2: usize = 0;
            while k2 < line.symbols.len()
                invariant
                    k2 <= line.symbols@.len(),
                    symbols@ == after_curr + line.symbols@.take(k2 as int),
                decreases line.symbols.len() - k2,
            {
                symbols.push(line.symbols[k2]);
                proof {
                    assert(symbols@ =~= after_curr + line.symbols@.take(k2 as int + 1));
                }
                k2 += 1;
            }
            proof {
                assert(line.symbols@.take(line.symbols@.len() as int) =~= line.symbols@);
            }
        },
        None => {},
    }
    proof {
        assert(symbols@ =~= opt_symbols(prev) + curr.symbols@ + opt_symbols(next));
    }
    Ok(curr.find_parts(&symbols))
}

/// The values of the parts whose one-step neighbourhood holds column `s`,
/// in part order.
pub open spec fn adj_values(parts: Seq<Part>, s: int) -> Seq<int>
    decreases parts.len(),
{
    if parts.len() == 0 {
        Seq::empty()
    } else {
        adj_values(parts.drop_last(), s) + if spec_part_matches(parts.last(), s) {
            seq![parts.last().value as int]
        } else {
            Seq::empty()
        }
    }
}

/// The product of the values, folded left to right from one.
pub open spec fn spec_product(vals: Seq<int>) -> int
    decreases vals.len(),
{
    if vals.len() == 0 {
        1
    } else {
        spec_product(vals.drop_last()) * vals.last()
    }
}

/// The part values around symbol column `s`: those of the line above, the
/// line below and the line itself, in that order.
pub open spec fn gear_values(pp: Seq<Part>, np: Seq<Part>, cp: Seq<Part>, s: int) -> Seq<int> {
    adj_values(pp, s) + adj_values(np, s) + adj_values(cp, s)
}

/// The gear-ratio sum over the symbols: each symbol with two or more
/// neighbouring part values contributes their product.
pub open spec fn spec_gear_sum(
    symbols: Seq<i32>,
    pp: Seq<Part>,
    np: Seq<Part>,
    cp: Seq<Part>,
    acc: int,
) -> int
    decreases symbols.len(),
{
    if symbols.len() == 0 {
        acc
    } else {
        let vals = gear_values(pp, np, cp, symbols[0] as int);
        let gain = if vals.len() >= 2 {
            spec_product(vals)
        } else {
            0int
        };
        spec_gear_sum(symbols.skip(1), pp, np, cp, acc + gain)
    }
}

/// Every partial product of the values stays within `u32`.
pub open spec fn products_fit(vals: Seq<int>) -> bool {
    forall|k: int| 0 <= k <= vals.len() ==> 0 <= #[trigger] spec_product(vals.take(k)) <= u32::MAX
}

/// Every gear product folds within `u32` and the running sum stays within
/// `u32`.
pub open spec fn gear_fits(
    symbols: Seq<i32>,
    pp: Seq<Part>,
    np: Seq<Part>,
    cp: Seq<Part>,
    acc: int,
) -> bool
    decreases symbols.len(),
{
    if symbols.len() == 0 {
        true
    } else {
        let vals = gear_values(pp, np, cp, symbols[0] as int);
        let gain = if vals.len() >= 2 {
            spec_product(vals)
        } else {
            0int
        };
        &&& (vals.len() >= 2 ==> products_fit(vals))
        &&& 0 <= acc + gain <= u32::MAX
        &&& gear_fits(symbols.skip(1), pp, np, cp, acc + gain)
    }
}

/// The values of the parts of `parts` next to column `s`.
#[verifier::loop_isolation(false)]
fn adj_list(parts: &Vec<Part>, s: i32) -> (r: Vec<u32>)
    requires
        parts_bounded(parts@),
    ensures
        r@.map_values(|x: u32| x as int) == adj_values(parts@, s as int),
{
    let mut out: Vec<u32> = Vec::new();
    let mut k: usize = 0;
    proof {
        assert(parts@.take(0).len() == 0);
        assert(out@.map_values(|x: u32| x as int) =~= adj_values(parts@.take(0), s as int));
    }
    while k < parts.len()
        invariant
            k <= parts@.len(),
            out@.map_values(|x: u32| x as int) == adj_values(parts@.take(k as int), s as int),
        decreases parts.len() - k,
    {
        proof {
            assert(parts@.take(k as int + 1).drop_last() =~= parts@.take(k as int));
            assert(parts@.take(k as int + 1).last() == parts@[k as int]);
        }
        let ghost old_out = out@;
        let p: Part = parts[k];
        if part_matches(s, &p) {
            out.push(p.value);
            proof {
                assert(out@.map_values(|x: u32| x as int) =~= old_out.map_values(|x: u32| x as int)
                    + seq![p.value as int]);
            }
        } else {
            proof {
                assert(out@.map_values(|x: u32| x as int) =~= adj_values(
                    parts@.take(k as int),
                    s as int,
                ) + Seq::<int>::empty());
            }
        }
        k += 1;
    }
    proof {
        assert(parts@.take(parts@.len() as int) =~= parts@);
    }
    out
}

/// The gear-ratio sum of one line: each of its symbols with at least two
/// neighbouring part values, on this line or either neighbour, adds their
/// product.
#[verifier::loop_isolation(false)]
pub fn sum_line_p2(prev: Option<&Line>, curr: &Line, next: Option<&Line>) -> (r: u32)
    requires
        parts_bounded(opt_parts(prev)),
        parts_bounded(opt_parts(next)),
        parts_bounded(curr.parts@),
        gear_fits(curr.symbols@, opt_parts(prev), opt_parts(next), curr.parts@, 0),
    ensures
        r == spec_gear_sum(curr.symbols@, opt_parts(prev), opt_parts(next), curr.parts@, 0),
{
    let ghost pp = opt_parts(prev);
    let ghost np = opt_parts(next);
    let ghost cp = curr.parts@;
    let ghost syms = curr.symbols@;
    proof {
        assert(syms.skip(0) =~= syms);
    }
    let mut sum: u32 = 0;
    let mut i: usize = 0;
    while i < curr.symbols.len()
        invariant
            i <= syms.len(),
            spec_gear_sum(syms, pp, np, cp, 0) == spec_gear_sum(
                syms.skip(i as int),
                pp,
                np,
                cp,
                sum as int,
            ),
            gear_fits(syms.skip(i as int), pp, np, cp, sum as int),
        decreases curr.symbols.len() - i,
    {
        proof {
            assert(syms.skip(i as int)[0] == syms[i as int]);
            assert(syms.skip(i as int).skip(1) =~= syms.skip(i as int + 1));
        }
        let s: i32 = curr.symbols[i];
        let mut vals: Vec<u32> = match prev {
            Some(line) => adj_list(&line.parts, s),
            None => Vec::new(),
        };
        let mut nvals: Vec<u32> = match next {
            Some(line) => adj_list(&line.parts, s),
            None => Vec::new(),
        };
        let mut cvals: Vec<u32> = adj_list(&curr.parts, s);
        proof {
            if prev is None {
                assert(vals@.map_values(|x: u32| x as int) =~= adj_values(pp, s as int));
            }
            if next is None {
                assert(nvals@.map_values(|x: u32| x as int) =~= adj_values(np, s as int));
            }
        }
        let ghost v0 = vals@;
        vals.append(&mut nvals);
        let ghost v1 = vals@;
        vals.append(&mut cvals);
        let ghost vm = vals@.map_values(|x: u32| x as int);
        proof {
            assert(vm =~= gear_values(pp, np, cp, s as int));
        }
        if vals.len() >= 2 {
            let mut p: u32 = 1;
            let mut j: usize = 0;
            proof {
                assert(vm.take(0).len() == 0);
            }
            while j < vals.len()
                invariant
                    j <= vm.len(),
                    vm.len() >= 2,
                    products_fit(vm),
                    p == spec_product(vm.take(j as int)),
                decreases vals.len() - j,
            {
                proof {
                    assert(vm.take(j as int + 1).drop_last() =~= vm.take(j as int));
                    assert(vm.take(j as int + 1).last() == vm[j as int]);
                    assert(0 <= spec_product(vm.take(j as int + 1)) <= u32::MAX);
                }
                p = p * vals[j];
                j += 1;
            }
            proof {
                assert(vm.take(vm.len() as int) =~= vm);
            }
            sum = sum + p;
        }
        i += 1;
    }
    proof {
        assert(syms.skip(syms.len() as int).len() == 0);
    }
    sum
}

/// What line `i` of the grid scans to.
pub open spec fn parses_to(lines: Seq<Seq<u8>>, sc: Option<u8>, i: int) -> Result<
    (Seq<Part>, Seq<i32>),
    ParseError,
> {
    spec_scan(lines[i], 0, Seq::empty(), Seq::empty(), None, sc)
}

/// Every line of the grid scans without a format error.
pub open spec fn grid_ok(lines: Seq<Seq<u8>>, sc: Option<u8>) -> bool {
    forall|i: int| 0 <= i < lines.len() ==> #[trigger] parses_to(lines, sc, i) is Ok
}

/// The first line of the grid that does not scan, if any.
pub open spec fn first_bad_line(lines: Seq<Seq<u8>>, sc: Option<u8>, i: int) -> Option<int>
    decreases lines.len() - i when 0 <= i
{
    if i >= lines.len() {
        None
    } else if parses_to(lines, sc, i) is Err {
        Some(i)
    } else {
        first_bad_line(lines, sc, i + 1)
    }
}

/// The symbol columns around line `i`: its own and its neighbours'.
pub open spec fn window_syms(lines: Seq<Seq<u8>>, sc: Option<u8>, i: int) -> Seq<i32> {
    let prev = if i > 0 {
        parses_to(lines, sc, i - 1)->Ok_0.1
    } else {
        Seq::empty()
    };
    let next = if i < lines.len() - 1 {
        parses_to(lines, sc, i + 1)->Ok_0.1
    } else {
        Seq::empty()
    };
    prev + parses_to(lines, sc, i)->Ok_0.1 + next
}

/// The part-number sum of the whole grid, line by line.
pub open spec fn spec_grid_sum(lines: Seq<Seq<u8>>, sc: Option<u8>, i: int, acc: int) -> int
    decreases lines.len() - i when 0 <= i
{
    if i >= lines.len() {
        acc
    } else {
        spec_grid_sum(
            lines,
            sc,
            i + 1,
            acc + spec_find_parts(parses_to(lines, sc, i)->Ok_0.0, window_syms(lines, sc, i)),
        )
    }
}

/// Every line's parts leave room for the neighbourhood and every running
/// sum stays within `u32`.
pub open spec fn grid_sum_fits(lines: Seq<Seq<u8>>, sc: Option<u8>, i: int, acc: int) -> bool
    decreases lines.len() - i when 0 <= i
{
    if i >= lines.len() {
        true
    } else {
        let v = spec_find_parts(parses_to(lines, sc, i)->Ok_0.0, window_syms(lines, sc, i));
        &&& parts_bounded(parses_to(lines, sc, i)->Ok_0.0)
        &&& 0 <= acc + v <= u32::MAX
        &&& grid_sum_fits(lines, sc, i + 1, acc + v)
    }
}

/// Scans every line of the grid; the first line that fails decides the
/// error.
#[verifier::loop_isolation(false)]
fn scan_grid(lines: &Vec<Vec<u8>>, sc: Option<u8>) -> (r: Result<Vec<Line>, ParseError>)
    ensures
        ({
            match first_bad_line(lines.deep_view(), sc, 0) {
                Some(b) => r == Result::<Vec<Line>, ParseError>::Err(
                    parses_to(lines.deep_view(), sc, b)->Err_0,
                ),
                None => r matches Ok(v) && v@.len() == lines.deep_view().len() && (forall|k: int|
                    0 <= k < v@.len() ==> (#[trigger] v@[k]).parts@ == parses_to(
                        lines.deep_view(),
                        sc,
                        k,
                    )->Ok_0.0 && v@[k].symbols@ == parses_to(lines.deep_view(), sc, k)->Ok_0.1),
            }
        }),
        r is Ok ==> grid_ok(lines.deep_view(), sc),
{
    let ghost bigl = lines.deep_view();
    proof {
        assert(bigl.len() == lines@.len());
    }
    let mut out: Vec<Line> = Vec::new();
    let mut i: usize = 0;
    while i < lines.len()
        invariant
            i <= lines@.len(),
            out@.len() == i,
            forall|k: int| 0 <= k < i ==> #[trigger] parses_to(bigl, sc, k) is Ok,
            forall|k: int|
                0 <= k < i ==> (#[trigger] out@[k]).parts@ == parses_to(bigl, sc, k)->Ok_0.0
                    && out@[k].symbols@ == parses_to(bigl, sc, k)->Ok_0.1,
        decreases lines.len() - i,
    {
        proof {
            assert(bigl[i as int] =~= lines@[i as int]@);
        }
        match Line::from_str(lines[i].as_slice(), sc) {
            Ok(l) => {
                out.push(l);
            },
            Err(e) => {
                proof {
                    lemma_first_bad_at(bigl, sc, i as int);
                }
                return Err(e);
            },
        }
        i += 1;
    }
    proof {
        lemma_first_bad_none(bigl, sc, 0);
    }
    Ok(out)
}

/// A failing line preceded only by passing lines is the first bad one.
proof fn lemma_first_bad_at(lines: Seq<Seq<u8>>, sc: Option<u8>, i: int)
    requires
        0 <= i < lines.len(),
        parses_to(lines, sc, i) is Err,
        forall|k: int| 0 <= k < i ==> #[trigger] parses_to(lines, sc, k) is Ok,
    ensures
        first_bad_line(lines, sc, 0) == Some(i),
{
    lemma_first_bad_from(lines, sc, 0, i);
}

proof fn lemma_first_bad_from(lines: Seq<Seq<u8>>, sc: Option<u8>, k: int, i: int)
    requires
        0 <= k <= i < lines.len(),
        parses_to(lines, sc, i) is Err,
        forall|j: int| k <= j < i ==> #[trigger] parses_to(lines, sc, j) is Ok,
    ensures
        first_bad_line(lines, sc, k) == Some(i),
    decreases i - k,
{
    if k < i {
        lemma_first_bad_from(lines, sc, k + 1, i);
    }
}

/// With every line passing there is no first bad one.
proof fn lemma_first_bad_none(lines: Seq<Seq<u8>>, sc: Option<u8>, k: int)
    requires
        0 <= k,
        forall|j: int| 0 <= j < lines.len() ==> #[trigger] parses_to(lines, sc, j) is Ok,
    ensures
        first_bad_line(lines, sc, k) is None,
    decreases lines.len() - k + 1,
{
    if k < lines.len() {
        lemma_first_bad_none(lines, sc, k + 1);
    }
}

/// The part-number sum of the whole grid: part one of the schematic
/// puzzle.
#[verifier::loop_isolation(false)]
pub fn grid_part_sum(lines: &Vec<Vec<u8>>) -> (r: Result<u32, ParseError>)
    requires
        grid_ok(lines.deep_view(), None) ==> grid_sum_fits(lines.deep_view(), None, 0, 0),
    ensures
        ({
            match first_bad_line(lines.deep_view(), None, 0) {
                Some(b) => r == Result::<u32, ParseError>::Err(
                    parses_to(lines.deep_view(), None, b)->Err_0,
                ),
                None => r == Result::<u32, ParseError>::Ok(
                    spec_grid_sum(lines.deep_view(), None, 0, 0) as u32,
                ),
            }
        }),
{
    let ghost bigl = lines.deep_view();
    let parsed: Vec<Line> = match scan_grid(lines, None) {
        Ok(v) => v,
        Err(e) => { return Err(e) },
    };
    let mut sum: u32 = 0;
    let mut i: usize = 0;
    while i < parsed.len()
        invariant
            i <= parsed@.len(),
            spec_grid_sum(bigl, None, 0, 0) == spec_grid_sum(bigl, None, i as int, sum as int),
            grid_sum_fits(bigl, None, i as int, sum as int),
        decreases parsed.len() - i,
    {
        let prev: Option<&Line> = if i > 0 {
            Some(&parsed[i - 1])
        } else {
            None
        };
        let next: Option<&Line> = if i + 1 < parsed.len() {
            Some(&parsed[i + 1])
        } else {
            None
        };
        proof {
            assert(parsed@[i as int].parts@ == parses_to(bigl, None, i as int)->Ok_0.0);
            assert(parsed@[i as int].symbols@ == parses_to(bigl, None, i as int)->Ok_0.1);
            if i > 0 {
                assert(parsed@[i as int - 1].symbols@ == parses_to(
                    bigl,
                    None,
                    i as int - 1,
                )->Ok_0.1);
            }
            if i + 1 < parsed@.len() {
                assert(parsed@[i as int + 1].symbols@ == parses_to(
                    bigl,
                    None,
                    i as int + 1,
                )->Ok_0.1);
            }
            assert(opt_symbols(prev) + parsed@[i as int].symbols@ + opt_symbols(next)
                =~= window_syms(bigl, None, i as int));
            lemma_find_parts_nonneg(
                parses_to(bigl, None, i as int)->Ok_0.0,
                window_syms(bigl, None, i as int),
            );
        }
        let v: u32 = match sum_line_p1(prev, &parsed[i], next) {
            Ok(x) => x,
            Err(e) => { return Err(e) },
        };
        sum = sum + v;
        i += 1;
    }
    Ok(sum)
}

/// The gear-ratio sum of the whole grid, line by line.
pub open spec fn spec_grid_gear_sum(lines: Seq<Seq<u8>>, i: int, acc: int) -> int
    decreases lines.len() - i when 0 <= i
{
    if i >= lines.len() {
        acc
    } else {
        let sc = Some(42u8);
        let prev = if i > 0 {
            parses_to(lines, sc, i - 1)->Ok_0.0
        } else {
            Seq::empty()
        };
        let next = if i < lines.len() - 1 {
            parses_to(lines, sc, i + 1)->Ok_0.0
        } else {
            Seq::empty()
        };
        let here = parses_to(lines, sc, i)->Ok_0;
        spec_grid_gear_sum(lines, i + 1, acc + spec_gear_sum(here.1, prev, next, here.0, 0))
    }
}

/// Every line's gear products and running sums stay within `u32`.
pub open spec fn grid_gear_fits(lines: Seq<Seq<u8>>, i: int, acc: int) -> bool
    decreases lines.len() - i when 0 <= i
{
    if i >= lines.len() {
        true
    } else {
        let sc = Some(42u8);
        let prev = if i > 0 {
            parses_to(lines, sc, i - 1)->Ok_0.0
        } else {
            Seq::empty()
        };
        let next = if i < lines.len() - 1 {
            parses_to(lines, sc, i + 1)->Ok_0.0
        } else {
            Seq::empty()
        };
        let here = parses_to(lines, sc, i)->Ok_0;
        let v = spec_gear_sum(here.1, prev, next, here.0, 0);
        &&& parts_bounded(here.0)
        &&& gear_fits(here.1, prev, next, here.0, 0)
        &&& 0 <= acc + v <= u32::MAX
        &&& grid_gear_fits(lines, i + 1, acc + v)
    }
}

/// A fitting grid keeps every line's parts bounded, current and later.
proof fn lemma_gear_fits_bounded(lines: Seq<Seq<u8>>, i: int, acc: int, k: int)
    requires
        0 <= i <= k < lines.len(),
        grid_gear_fits(lines, i, acc),
    ensures
        parts_bounded(parses_to(lines, Some(42u8), k)->Ok_0.0),
    decreases k - i,
{
    if i < k {
        let sc = Some(42u8);
        let prev = if i > 0 {
            parses_to(lines, sc, i - 1)->Ok_0.0
        } else {
            Seq::empty()
        };
        let next = if i < lines.len() - 1 {
            parses_to(lines, sc, i + 1)->Ok_0.0
        } else {
            Seq::empty()
        };
        let here = parses_to(lines, sc, i)->Ok_0;
        let v = spec_gear_sum(here.1, prev, next, here.0, 0);
        lemma_gear_fits_bounded(lines, i + 1, acc + v, k);
    }
}

/// The gear-ratio sum of the whole grid, scanning with `*` as the symbol:
/// part two of the schematic puzzle.
#[verifier::loop_isolation(false)]
pub fn grid_gear_sum(lines: &Vec<Vec<u8>>) -> (r: Result<u32, ParseError>)
    requires
        grid_ok(lines.deep_view(), Some(42u8)) ==> grid_gear_fits(lines.deep_view(), 0, 0),
    ensures
        ({
            match first_bad_line(lines.deep_view(), Some(42u8), 0) {
                Some(b) => r == Result::<u32, ParseError>::Err(
                    parses_to(lines.deep_view(), Some(42u8), b)->Err_0,
                ),
                None => r == Result::<u32, ParseError>::Ok(
                    spec_grid_gear_sum(lines.deep_view(), 0, 0) as u32,
                ),
            }
        }),
{
    let ghost bigl = lines.deep_view();
    let parsed: Vec<Line> = match scan_grid(lines, Some(42)) {
        Ok(v) => v,
        Err(e) => { return Err(e) },
    };
    proof {
        assert forall|k: int| 0 <= k < bigl.len() implies parts_bounded(
            #[trigger] parses_to(bigl, Some(42u8), k)->Ok_0.0,
        ) by {
            lemma_gear_fits_bounded(bigl, 0, 0, k);
        }
    }
    let mut sum: u32 = 0;
    let mut i: usize = 0;
    while i < parsed.len()
        invariant
            i <= parsed@.len(),
            spec_grid_gear_sum(bigl, 0, 0) == spec_grid_gear_sum(bigl, i as int, sum as int),
            grid_gear_fits(bigl, i as int, sum as int),
        decreases parsed.len() - i,
    {
        let prev: Option<&Line> = if i > 0 {
            Some(&parsed[i - 1])
        } else {
            None
        };
        let next: Option<&Line> = if i + 1 < parsed.len() {
            Some(&parsed[i + 1])
        } else {
            None
        };
        proof {
            assert(parsed@[i as int].parts@ == parses_to(bigl, Some(42u8), i as int)->Ok_0.0);
            assert(parsed@[i as int].symbols@ == parses_to(bigl, Some(42u8), i as int)->Ok_0.1);
            if i > 0 {
                assert(parsed@[i as int - 1].parts@ == parses_to(
                    bigl,
                    Some(42u8),
                    i as int - 1,
                )->Ok_0.0);
                assert(opt_parts(prev) == parses_to(bigl, Some(42u8), i as int - 1)->Ok_0.0);
            } else {
                assert(opt_parts(prev) =~= Seq::<Part>::empty());
            }
            if i + 1 < parsed@.len() {
                assert(parsed@[i as int + 1].parts@ == parses_to(
                    bigl,
                    Some(42u8),
                    i as int + 1,
                )->Ok_0.0);
                assert(opt_parts(next) == parses_to(bigl, Some(42u8), i as int + 1)->Ok_0.0);
            } else {
                assert(opt_parts(next) =~= Seq::<Part>::empty());
            }
        }
        let v: u32 = sum_line_p2(prev, &parsed[i], next);
        sum = sum + v;
        i += 1;
    }
    Ok(sum)
}

} // verus!
