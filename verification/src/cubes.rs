//! Cube games: each line holds a game id and semicolon-separated rounds of
//! comma-separated `count color` draws. Part one sums the ids of games
//! whose rounds never exceed the fixed bag; part two sums the power of the
//! smallest bag that covers each game.

use crate::errors::ParseError;
use crate::parse::{
    bytes_eq, find_byte, first_byte_pos, i32_val, lemma_first_byte_pos, parse_i32, spec_split,
    spec_trim, split_bytes, sub_bytes, trim_spaces,
};
use vstd::prelude::*;
use vstd::string::StringSliceAdditionalSpecFns;

verus! {

/// One round's totals per color.
#[derive(Clone, Copy, Debug, PartialEq, Eq, Structural)]
pub struct Round {
    pub red: i32,
    pub green: i32,
    pub blue: i32,
}

/// The count and color one draw denotes: the trimmed text splits at its
/// first space into a count and a color name.
pub open spec fn spec_color_count(item: Seq<u8>) -> Result<(Seq<u8>, int), ParseError> {
    let t = spec_trim(item);
    match first_byte_pos(t, 32) {
        None => Err(ParseError::NoSpace),
        Some(sp) => match i32_val(t.take(sp)) {
            Some(n) => Ok((t.skip(sp + 1), n)),
            None => Err(ParseError::BadInteger),
        },
    }
}

/// The totals after adding `n` cubes of the named color, or an error for a
/// color outside the fixed three.
pub open spec fn spec_add(acc: (int, int, int), color: Seq<u8>, n: int) -> Result<
    (int, int, int),
    ParseError,
> {
    if color == "red".spec_bytes() {
        Ok((acc.0 + n, acc.1, acc.2))
    } else if color == "green".spec_bytes() {
        Ok((acc.0, acc.1 + n, acc.2))
    } else if color == "blue".spec_bytes() {
        Ok((acc.0, acc.1, acc.2 + n))
    } else {
        Err(ParseError::UnknownColor)
    }
}

/// The totals of one round: its draws folded left to right onto `acc`.
pub open spec fn spec_round(items: Seq<Seq<u8>>, acc: (int, int, int)) -> Result<
    (int, int, int),
    ParseError,
>
    decreases items.len(),
{
    if items.len() == 0 {
        Ok(acc)
    } else {
        match spec_color_count(items[0]) {
            Err(e) => Err(e),
            Ok((c, n)) => match spec_add(acc, c, n) {
                Err(e) => Err(e),
                Ok(a2) => spec_round(items.skip(1), a2),
            },
        }
    }
}

/// The totals one round's text denotes.
pub open spec fn spec_round_of(part: Seq<u8>) -> Result<(int, int, int), ParseError> {
    spec_round(spec_split(part, 44), (0, 0, 0))
}

/// Every color total met while folding the round stays within `i32`.
pub open spec fn round_fits(items: Seq<Seq<u8>>, acc: (int, int, int)) -> bool
    decreases items.len(),
{
    if items.len() == 0 {
        true
    } else {
        match spec_color_count(items[0]) {
            Err(e) => true,
            Ok((c, n)) => match spec_add(acc, c, n) {
                Err(e) => true,
                Ok(a2) => {
                    &&& i32::MIN <= a2.0 <= i32::MAX
                    &&& i32::MIN <= a2.1 <= i32::MAX
                    &&& i32::MIN <= a2.2 <= i32::MAX
                    &&& round_fits(items.skip(1), a2)
                },
            },
        }
    }
}

impl Round {
    /// A round with the given totals.
    pub fn new(red: i32, green: i32, blue: i32) -> (r: Round)
        ensures
            r == (Round { red, green, blue }),
    {
        Round { red, green, blue }
    }

    /// Adds one draw's count to the named color's total; a failed draw
    /// passes its failure through.
    pub fn add_round(self, round: Result<(&[u8], i32), ParseError>) -> (r: Result<
        Round,
        ParseError,
    >)
        requires
            ({
                match round {
                    Ok(p) => (match spec_add(
                        (self.red as int, self.green as int, self.blue as int),
                        p.0@,
                        p.1 as int,
                    ) {
                        Ok(a) => i32::MIN <= a.0 <= i32::MAX && i32::MIN <= a.1 <= i32::MAX
                            && i32::MIN <= a.2 <= i32::MAX,
                        Err(e) => false,
                    }),
                    Err(e) => true,
                }
            }),
        ensures
            ({
                match round {
                    Ok(p) => (match spec_add(
                        (self.red as int, self.green as int, self.blue as int),
                        p.0@,
                        p.1 as int,
                    ) {
                        Ok(a) => r == Result::<Round, ParseError>::Ok(
                            Round { red: a.0 as i32, green: a.1 as i32, blue: a.2 as i32 },
                        ),
                        Err(e) => r == Result::<Round, ParseError>::Err(e),
                    }),
                    Err(e) => r == Result::<Round, ParseError>::Err(e),
                }
            }),
    {
        match round {
            Err(e) => Err(e),
            Ok((color, n)) => {
                if bytes_eq(color, "red".as_bytes()) {
                    Ok(Round { red: self.red + n, green: self.green, blue: self.blue })
                } else if bytes_eq(color, "green".as_bytes()) {
                    Ok(Round { red: self.red, green: self.green + n, blue: self.blue })
                } else if bytes_eq(color, "blue".as_bytes()) {
                    Ok(Round { red: self.red, green: self.green, blue: self.blue + n })
                } else {
                    proof {
                        assert(false);
                    }
                    Err(ParseError::UnknownColor)
                }
            },
        }
    }

    /// The power of a round: the product of its three totals.
    pub fn power(&self) -> (r: i32)
        requires
            i32::MIN <= self.red * self.green <= i32::MAX,
            i32::MIN <= self.red * self.green * self.blue <= i32::MAX,
        ensures
            r == self.red * self.green * self.blue,
    {
        self.red * self.green * self.blue
    }
}

/// Reads one round's text: its comma-separated draws folded onto an empty
/// round; a color outside the fixed three is a format error.
#[verifier::loop_isolation(false)]
pub fn round_of(part: &[u8]) -> (r: Result<Round, ParseError>)
    requires
        round_fits(spec_split(part@, 44), (0, 0, 0)),
    ensures
        ({
            match spec_round_of(part@) {
                Result::Ok(a) => r == Result::<Round, ParseError>::Ok(
                    Round { red: a.0 as i32, green: a.1 as i32, blue: a.2 as i32 },
                ) && i32::MIN <= a.0 <= i32::MAX && i32::MIN <= a.1 <= i32::MAX && i32::MIN <= a.2
                    <= i32::MAX,
                Result::Err(e) => r == Result::<Round, ParseError>::Err(e),
            }
        }),
{
    let items: Vec<Vec<u8>> = split_bytes(part, 44);
    let ghost its = items.deep_view();
    let mut acc: Round = Round::new(0, 0, 0);
    let mut j: usize = 0;
    proof {
        assert(its.skip(0) =~= its);
        assert(its.len() == items@.len());
    }
    while j < items.len()
        invariant
            j <= items@.len(),
            spec_round_of(part@) == spec_round(
                its.skip(j as int),
                (acc.red as int, acc.green as int, acc.blue as int),
            ),
            round_fits(its.skip(j as int), (acc.red as int, acc.green as int, acc.blue as int)),
        decreases items.len() - j,
    {
        proof {
            assert(its[j as int] =~= items@[j as int]@);
            assert(its.skip(j as int)[0] == its[j as int]);
            assert(its.skip(j as int).skip(1) =~= its.skip(j as int + 1));
        }
        let t: Vec<u8> = trim_spaces(items[j].as_slice());
        let sp: usize = match find_byte(t.as_slice(), 32) {
            Some(i) => i,
            None => { return Err(ParseError::NoSpace) },
        };
        proof {
            lemma_first_byte_pos(t@, 32);
        }
        let tlen: usize = t.len();
        let count_part: Vec<u8> = sub_bytes(t.as_slice(), 0, sp);
        proof {
            assert(count_part@ =~= t@.take(sp as int));
        }
        let n: i32 = match parse_i32(count_part.as_slice()) {
            Some(v) => v,
            None => { return Err(ParseError::BadInteger) },
        };
        let color: Vec<u8> = sub_bytes(t.as_slice(), sp + 1, tlen);
        proof {
            assert(color@ =~= t@.skip(sp + 1));
        }
        if !(bytes_eq(color.as_slice(), "red".as_bytes()) || bytes_eq(
            color.as_slice(),
            "green".as_bytes(),
        ) || bytes_eq(color.as_slice(), "blue".as_bytes())) {
            return Err(ParseError::UnknownColor);
        }
        acc = match acc.add_round(Ok((color.as_slice(), n))) {
            Ok(a) => a,
            Err(e) => { return Err(e) },
        };
        j += 1;
    }
    Ok(acc)
}

/// Every round of the list folds within `i32` bounds.
pub open spec fn parts_fit(parts: Seq<Seq<u8>>) -> bool {
    forall|k: int|
        0 <= k < parts.len() ==> round_fits(spec_split(#[trigger] parts[k], 44), (0, 0, 0))
}

/// The line carries a well-formed game header: a colon at position five
/// or later, with an integer id before it. The scorer assumes this rather
/// than reporting it as an error.
pub open spec fn p1_line_ok(line: Seq<u8>) -> bool {
    match first_byte_pos(line, 58) {
        Some(colon) => 5 <= colon && i32_val(line.subrange(5, colon)) is Some,
        None => false,
    }
}

/// The game id before the line's colon.
pub open spec fn spec_game_id(line: Seq<u8>) -> int {
    i32_val(line.subrange(5, first_byte_pos(line, 58)->Some_0))->Some_0
}

/// The round texts of the line: the text after its colon, split on
/// semicolons.
pub open spec fn line_parts(line: Seq<u8>) -> Seq<Seq<u8>> {
    spec_split(line.skip(first_byte_pos(line, 58)->Some_0 + 1), 59)
}

/// How many rounds of the list exceed the fixed bag of twelve red,
/// thirteen green and fourteen blue cubes.
pub open spec fn spec_over_count(parts: Seq<Seq<u8>>, acc: int) -> Result<int, ParseError>
    decreases parts.len(),
{
    if parts.len() == 0 {
        Ok(acc)
    } else {
        match spec_round_of(parts[0]) {
            Err(e) => Err(e),
            Ok(a) => spec_over_count(
                parts.skip(1),
                acc + if a.0 > 12 || a.1 > 13 || a.2 > 14 {
                    1int
                } else {
                    0int
                },
            ),
        }
    }
}

/// The sum of the ids of the games none of whose rounds exceeds the bag.
pub open spec fn spec_possible_sum(lines: Seq<Seq<u8>>, acc: int) -> Result<int, ParseError>
    decreases lines.len(),
{
    if lines.len() == 0 {
        Ok(acc)
    } else {
        match spec_over_count(line_parts(lines[0]), 0) {
            Err(e) => Err(e),
            Ok(c) => spec_possible_sum(
                lines.skip(1),
                acc + if c > 0 {
                    0int
                } else {
                    spec_game_id(lines[0])
                },
            ),
        }
    }
}

/// Every line's header parses, every round folds within bounds, and the
/// running id sum stays within `i32`.
pub open spec fn possible_sum_fits(lines: Seq<Seq<u8>>, acc: int) -> bool
    decreases lines.len(),
{
    if lines.len() == 0 {
        true
    } else {
        &&& p1_line_ok(lines[0])
        &&& parts_fit(line_parts(lines[0]))
        &&& (match spec_over_count(line_parts(lines[0]), 0) {
            Err(e) => true,
            Ok(c) => {
                let a2 = acc + if c > 0 {
                    0int
                } else {
                    spec_game_id(lines[0])
                };
                i32::MIN <= a2 <= i32::MAX && possible_sum_fits(lines.skip(1), a2)
            },
        })
    }
}

/// Counts the rounds of one line that exceed the fixed bag.
#[verifier::loop_isolation(false)]
fn over_count(parts: &Vec<Vec<u8>>) -> (r: Result<usize, ParseError>)
    requires
        parts_fit(parts.deep_view()),
    ensures
        ({
            match spec_over_count(parts.deep_view(), 0) {
                Result::Ok(c) => r matches Ok(n) && n == c,
                Result::Err(e) => r == Result::<usize, ParseError>::Err(e),
            }
        }),
{
    let ghost ps = parts.deep_view();
    let mut cnt: usize = 0;
    let mut j: usize = 0;
    proof {
        assert(ps.skip(0) =~= ps);
        assert(ps.len() == parts@.len());
    }
    while j < parts.len()
        invariant
            j <= parts@.len(),
            cnt <= j,
            spec_over_count(ps, 0) == spec_over_count(ps.skip(j as int), cnt as int),
        decreases parts.len() - j,
    {
        proof {
            assert(ps[j as int] =~= parts@[j as int]@);
            assert(ps.skip(j as int)[0] == ps[j as int]);
            assert(ps.skip(j as int).skip(1) =~= ps.skip(j as int + 1));
        }
        let round: Round = match round_of(parts[j].as_slice()) {
            Ok(a) => a,
            Err(e) => { return Err(e) },
        };
        if round.red > 12 || round.green > 13 || round.blue > 14 {
            cnt += 1;
        }
        j += 1;
    }
    Ok(cnt)
}

/// The sum of the ids of the possible games over all lines: part one of
/// the cube puzzle.
#[verifier::loop_isolation(false)]
pub fn possible_games_sum(lines: &Vec<Vec<u8>>) -> (r: Result<i32, ParseError>)
    requires
        possible_sum_fits(lines.deep_view(), 0),
    ensures
        ({
            match spec_possible_sum(lines.deep_view(), 0) {
                Result::Ok(v) => r == Result::<i32, ParseError>::Ok(v as i32),
                Result::Err(e) => r == Result::<i32, ParseError>::Err(e),
            }
        }),
{
    let ghost bigl = lines.deep_view();
    proof {
        assert(bigl.skip(0) =~= bigl);
        assert(bigl.len() == lines@.len());
    }
    let mut sum: i32 = 0;
    let mut i: usize = 0;
    while i < lines.len()
        invariant
            i <= lines@.len(),
            spec_possible_sum(bigl, 0) == spec_possible_sum(bigl.skip(i as int), sum as int),
            possible_sum_fits(bigl.skip(i as int), sum as int),
        decreases lines.len() - i,
    {
        proof {
            assert(bigl[i as int] =~= lines@[i as int]@);
            assert(bigl.skip(i as int)[0] == bigl[i as int]);
            assert(bigl.skip(i as int).skip(1) =~= bigl.skip(i as int + 1));
        }
        let line: &Vec<u8> = &lines[i];
        proof {
            assert(p1_line_ok(bigl[i as int]));
            assert(line@ == bigl[i as int]);
        }
        let len: usize = line.len();
        let colon: usize = match find_byte(line.as_slice(), 58) {
            Some(c) => c,
            None => {
                proof {
                    assert(false);
                }
                return Err(ParseError::NoColon);
            },
        };
        proof {
            lemma_first_byte_pos(line@, 58);
            let pos = first_byte_pos(line@, 58)->Some_0;
            assert(5 <= pos < line@.len());
            assert(colon == pos);
        }
        let id_part: Vec<u8> = sub_bytes(line.as_slice(), 5, colon);
        let id: i32 = match parse_i32(id_part.as_slice()) {
            Some(v) => v,
            None => {
                proof {
                    assert(false);
                }
                return Err(ParseError::BadInteger);
            },
        };
        let rest: Vec<u8> = sub_bytes(line.as_slice(), colon + 1, len);
        proof {
            assert(rest@ =~= bigl[i as int].skip(colon + 1));
        }
        let parts: Vec<Vec<u8>> = split_bytes(rest.as_slice(), 59);
        let c: usize = match over_count(&parts) {
            Ok(n) => n,
            Err(e) => { return Err(e) },
        };
        if c == 0 {
            sum = sum + id;
        }
        i += 1;
    }
    Ok(sum)
}

/// The smallest bag that covers every round of the list: the per-color
/// maximum of the rounds' totals.
pub open spec fn spec_max_round(parts: Seq<Seq<u8>>, acc: (int, int, int)) -> Result<
    (int, int, int),
    ParseError,
>
    decreases parts.len(),
{
    if parts.len() == 0 {
        Ok(acc)
    } else {
        match spec_round_of(parts[0]) {
            Err(e) => Err(e),
            Ok(a) => spec_max_round(
                parts.skip(1),
                (
                    if a.0 >= acc.0 {
                        a.0
                    } else {
                        acc.0
                    },
                    if a.1 >= acc.1 {
                        a.1
                    } else {
                        acc.1
                    },
                    if a.2 >= acc.2 {
                        a.2
                    } else {
                        acc.2
                    },
                ),
            ),
        }
    }
}

/// The sum over all lines of the power of each game's smallest bag.
pub open spec fn spec_power_sum(lines: Seq<Seq<u8>>, acc: int) -> Result<int, ParseError>
    decreases lines.len(),
{
    if lines.len() == 0 {
        Ok(acc)
    } else {
        match first_byte_pos(lines[0], 58) {
            None => Err(ParseError::NoColon),
            Some(colon) => match spec_max_round(line_parts(lines[0]), (0, 0, 0)) {
                Err(e) => Err(e),
                Ok(m) => spec_power_sum(lines.skip(1), acc + m.0 * m.1 * m.2),
            },
        }
    }
}

/// Every round folds within bounds and every power and the running sum
/// stay within `i32`.
pub open spec fn power_sum_fits(lines: Seq<Seq<u8>>, acc: int) -> bool
    decreases lines.len(),
{
    if lines.len() == 0 {
        true
    } else {
        match first_byte_pos(lines[0], 58) {
            None => true,
            Some(colon) => {
                &&& parts_fit(line_parts(lines[0]))
                &&& (match spec_max_round(line_parts(lines[0]), (0, 0, 0)) {
                    Err(e) => true,
                    Ok(m) => {
                        &&& i32::MIN <= m.0 * m.1 <= i32::MAX
                        &&& i32::MIN <= m.0 * m.1 * m.2 <= i32::MAX
                        &&& i32::MIN <= acc + m.0 * m.1 * m.2 <= i32::MAX
                        &&& power_sum_fits(lines.skip(1), acc + m.0 * m.1 * m.2)
                    },
                })
            },
        }
    }
}

/// The smallest covering bag of one line's rounds.
#[verifier::loop_isolation(false)]
fn max_round(parts: &Vec<Vec<u8>>) -> (r: Result<Round, ParseError>)
    requires
        parts_fit(parts.deep_view()),
    ensures
        ({
            match spec_max_round(parts.deep_view(), (0, 0, 0)) {
                Result::Ok(m) => r == Result::<Round, ParseError>::Ok(
                    Round { red: m.0 as i32, green: m.1 as i32, blue: m.2 as i32 },
                ) && i32::MIN <= m.0 <= i32::MAX && i32::MIN <= m.1 <= i32::MAX && i32::MIN <= m.2
                    <= i32::MAX,
                Result::Err(e) => r == Result::<Round, ParseError>::Err(e),
            }
        }),
{
    let ghost ps = parts.deep_view();
    let mut acc: Round = Round::new(0, 0, 0);
    let mut j: usize = 0;
    proof {
        assert(ps.skip(0) =~= ps);
        assert(ps.len() == parts@.len());
    }
    while j < parts.len()
        invariant
            j <= parts@.len(),
            spec_max_round(ps, (0, 0, 0)) == spec_max_round(
                ps.skip(j as int),
                (acc.red as int, acc.green as int, acc.blue as int),
            ),
        decreases parts.len() - j,
    {
        proof {
            assert(ps[j as int] =~= parts@[j as int]@);
            assert(ps.skip(j as int)[0] == ps[j as int]);
            assert(ps.skip(j as int).skip(1) =~= ps.skip(j as int + 1));
        }
        let round: Round = match round_of(parts[j].as_slice()) {
            Ok(a) => a,
            Err(e) => { return Err(e) },
        };
        acc = Round {
            red: if round.red >= acc.red {
                round.red
            } else {
                acc.red
            },
            green: if round.green >= acc.green {
                round.green
            } else {
                acc.green
            },
            blue: if round.blue >= acc.blue {
                round.blue
            } else {
                acc.blue
            },
        };
        j += 1;
    }
    Ok(acc)
}

/// The sum of the powers of the smallest covering bags over all lines:
/// part two of the cube puzzle.
#[verifier::loop_isolation(false)]
pub fn power_sum(lines: &Vec<Vec<u8>>) -> (r: Result<i32, ParseError>)
    requires
        power_sum_fits(lines.deep_view(), 0),
    ensures
        ({
            match spec_power_sum(lines.deep_view(), 0) {
                Result::Ok(v) => r == Result::<i32, ParseError>::Ok(v as i32),
                Result::Err(e) => r == Result::<i32, ParseError>::Err(e),
            }
        }),
{
    let ghost bigl = lines.deep_view();
    proof {
        assert(bigl.skip(0) =~= bigl);
        assert(bigl.len() == lines@.len());
    }
    let mut sum: i32 = 0;
    let mut i: usize = 0;
    while i < lines.len()
        invariant
            i <= lines@.len(),
            spec_power_sum(bigl, 0) == spec_power_sum(bigl.skip(i as int), sum as int),
            power_sum_fits(bigl.skip(i as int), sum as int),
        decreases lines.len() - i,
    {
        proof {
            assert(bigl[i as int] =~= lines@[i as int]@);
            assert(bigl.skip(i as int)[0] == bigl[i as int]);
            assert(bigl.skip(i as int).skip(1) =~= bigl.skip(i as int + 1));
        }
        let line: &Vec<u8> = &lines[i];
        let colon: usize = match find_byte(line.as_slice(), 58) {
            Some(c) => c,
            None => { return Err(ParseError::NoColon) },
        };
        proof {
            lemma_first_byte_pos(line@, 58);
        }
        let len: usize = line.len();
        let rest: Vec<u8> = sub_bytes(line.as_slice(), colon + 1, len);
        proof {
            assert(rest@ =~= bigl[i as int].skip(colon + 1));
        }
        let parts: Vec<Vec<u8>> = split_bytes(rest.as_slice(), 59);
        let m: Round = match max_round(&parts) {
            Ok(a) => a,
            Err(e) => { return Err(e) },
        };
        sum = sum + m.power();
        i += 1;
    }
    Ok(sum)
}

} // verus!
