//! Reading the almanac text: the seed header line, the `<from>-to-<to>
//! map:` blocks of three-integer rule lines, and the two whole-input
//! reductions — the least translated location over individual seeds and
//! over seed ranges.

use crate::errors::ParseError;
use crate::parse::{
    find_byte, find_sub, first_byte_pos, first_match_pos, i64_val, lemma_first_byte_pos,
    lemma_first_match_pos, lemma_first_match_pos_none, parse_i64, spec_split, split_bytes,
    sub_bytes,
};
use crate::pipeline::{spec_category_of, Category, TranslationCategory, TranslationMap};
use crate::range::{in_pieces, range_covers, sum_sizes, Range};
use crate::rules::Translations;
use crate::translation::{all_valid, lookup, tr_valid, Translation};
use vstd::prelude::*;
use vstd::string::StringSliceAdditionalSpecFns;

verus! {

/// The rule a three-field data line denotes: `destinationStart sourceStart
/// length`, each a decimal integer; the length must be strictly positive
/// and both the source and the destination interval must fit in `i64`.
pub open spec fn spec_translation_of(parts: Seq<Seq<u8>>) -> Result<Translation, ParseError> {
    if parts.len() != 3 {
        Err(ParseError::FieldCount)
    } else {
        match (i64_val(parts[1]), i64_val(parts[2]), i64_val(parts[0])) {
            (Some(from), Some(size), Some(dest)) => {
                if size > 0 && from + size - 1 <= i64::MAX && dest + size - 1 <= i64::MAX {
                    Ok(
                        Translation {
                            range: Range { from: from as i64, size: size as i64 },
                            dest: dest as i64,
                        },
                    )
                } else {
                    Err(ParseError::BadRange)
                }
            },
            _ => Err(ParseError::BadInteger),
        }
    }
}

/// The integers a list of fields denotes, when every field is one.
pub open spec fn spec_parse_vals(fields: Seq<Seq<u8>>) -> Option<Seq<int>> {
    if forall|k: int| 0 <= k < fields.len() ==> i64_val(#[trigger] fields[k]) is Some {
        Some(Seq::new(fields.len(), |k: int| i64_val(fields[k])->Some_0))
    } else {
        None
    }
}

/// The seed values a header line denotes: everything after the first space,
/// split on spaces, each field an integer.
pub open spec fn spec_seeds(s: Seq<u8>) -> Result<Seq<int>, ParseError> {
    match first_byte_pos(s, 32) {
        None => Err(ParseError::NoSpace),
        Some(sp) => match spec_parse_vals(spec_split(s.skip(sp + 1), 32)) {
            Some(vals) => Ok(vals),
            None => Err(ParseError::BadInteger),
        },
    }
}

/// The pair `m` of the header values starts a well-formed interval.
pub open spec fn pair_ok(vals: Seq<int>, m: int) -> bool {
    vals[2 * m + 1] > 0 && vals[2 * m] + vals[2 * m + 1] - 1 <= i64::MAX
}

/// The seed intervals a list of header values denotes: consecutive pairs of
/// start and length; a trailing unpaired value is ignored.
pub open spec fn spec_pairs(vals: Seq<int>) -> Result<Seq<Range>, ParseError> {
    if forall|m: int| 0 <= m < vals.len() / 2 ==> #[trigger] pair_ok(vals, m) {
        Ok(
            Seq::new(
                vals.len() / 2,
                |m: int| Range { from: vals[2 * m] as i64, size: vals[2 * m + 1] as i64 },
            ),
        )
    } else {
        Err(ParseError::BadRange)
    }
}

/// The seed intervals a header line denotes.
pub open spec fn spec_seed_pairs(s: Seq<u8>) -> Result<Seq<Range>, ParseError> {
    match spec_seeds(s) {
        Ok(vals) => spec_pairs(vals),
        Err(e) => Err(e),
    }
}

impl Translation {
    /// Reads one rule from the fields of a data line; a wrong field count,
    /// a non-integer field or a bad length is a format error.
    pub fn from_str(vec: &Vec<Vec<u8>>) -> (r: Result<Translation, ParseError>)
        ensures
            r == spec_translation_of(vec.deep_view()),
            r matches Ok(t) ==> tr_valid(t),
    {
        proof {
            assert(vec.deep_view().len() == vec@.len());
        }
        if vec.len() != 3 {
            return Err(ParseError::FieldCount);
        }
        proof {
            assert(vec.deep_view()[0] =~= vec@[0]@);
            assert(vec.deep_view()[1] =~= vec@[1]@);
            assert(vec.deep_view()[2] =~= vec@[2]@);
        }
        let from: i64 = match parse_i64(vec[1].as_slice()) {
            Some(v) => v,
            None => { return Err(ParseError::BadInteger) },
        };
        let size: i64 = match parse_i64(vec[2].as_slice()) {
            Some(v) => v,
            None => { return Err(ParseError::BadInteger) },
        };
        let dest: i64 = match parse_i64(vec[0].as_slice()) {
            Some(v) => v,
            None => { return Err(ParseError::BadInteger) },
        };
        let range: Range = match Range::from_size(from, size) {
            Some(rg) => rg,
            None => { return Err(ParseError::BadRange) },
        };
        if dest > i64::MAX - (size - 1) {
            return Err(ParseError::BadRange);
        }
        Ok(Translation { range, dest })
    }
}

/// Reads every field as an `i64`; a field that is not one is a format
/// error.
pub fn parse_vals(fields: &Vec<Vec<u8>>) -> (r: Result<Vec<i64>, ParseError>)
    ensures
        r matches Ok(v) ==> spec_parse_vals(fields.deep_view()) matches Some(vals) && v@.len()
            == vals.len() && forall|k: int| 0 <= k < vals.len() ==> v@[k] == vals[k],
        r is Err ==> spec_parse_vals(fields.deep_view()) is None && r == Result::<
            Vec<i64>,
            ParseError,
        >::Err(ParseError::BadInteger),
{
    let ghost fs = fields.deep_view();
    proof {
        assert(fs.len() == fields@.len());
    }
    let mut out: Vec<i64> = Vec::new();
    let mut i: usize = 0;
    while i < fields.len()
        invariant
            i <= fields.len(),
            fs == fields.deep_view(),
            fs.len() == fields@.len(),
            out@.len() == i,
            forall|k: int|
                0 <= k < i ==> i64_val(#[trigger] fs[k]) is Some && out@[k] == i64_val(
                    fs[k],
                )->Some_0,
        decreases fields.len() - i,
    {
        proof {
            assert(fs[i as int] =~= fields@[i as int]@);
        }
        match parse_i64(fields[i].as_slice()) {
            Some(v) => {
                out.push(v);
            },
            None => {
                proof {
                    assert(i64_val(fs[i as int]) is None);
                }
                return Err(ParseError::BadInteger);
            },
        }
        i += 1;
    }
    Ok(out)
}

/// Reads the seed header line as a flat list of seed values: the text
/// after the first space, split on spaces, every field an integer.
pub fn seeds(line: &str) -> (r: Result<Vec<i64>, ParseError>)
    ensures
        spec_seeds(line.spec_bytes()) matches Ok(vals) ==> r matches Ok(v) && v@.len()
            == vals.len() && forall|k: int| 0 <= k < vals.len() ==> v@[k] == vals[k],
        spec_seeds(line.spec_bytes()) matches Err(e) ==> r == Result::<Vec<i64>, ParseError>::Err(
            e,
        ),
{
    seeds_bytes(line.as_bytes())
}

/// Reads the seed header line, given as bytes, as a flat list of values.
pub fn seeds_bytes(b: &[u8]) -> (r: Result<Vec<i64>, ParseError>)
    ensures
        spec_seeds(b@) matches Ok(vals) ==> r matches Ok(v) && v@.len() == vals.len() && forall|
            k: int,
        | 0 <= k < vals.len() ==> v@[k] == vals[k],
        spec_seeds(b@) matches Err(e) ==> r == Result::<Vec<i64>, ParseError>::Err(e),
{
    let sp: usize = match find_byte(b, 32) {
        Some(i) => i,
        None => { return Err(ParseError::NoSpace) },
    };
    let blen: usize = b.len();
    proof {
        lemma_first_byte_pos(b@, 32);
        assert(sp < blen);
    }
    let rest: Vec<u8> = sub_bytes(b, sp + 1, blen);
    proof {
        assert(rest@ =~= b@.skip(sp + 1));
    }
    let fields: Vec<Vec<u8>> = split_bytes(rest.as_slice(), 32);
    parse_vals(&fields)
}

/// Reads the seed header line as a list of seed intervals: consecutive
/// pairs of start and length; a trailing unpaired value is ignored.
pub fn seed_pairs(line: &str) -> (r: Result<Vec<Range>, ParseError>)
    ensures
        spec_seed_pairs(line.spec_bytes()) matches Ok(ranges) ==> r matches Ok(v) && v@.len()
            == ranges.len() && forall|k: int| 0 <= k < ranges.len() ==> v@[k] == ranges[k],
        spec_seed_pairs(line.spec_bytes()) matches Err(e) ==> r == Result::<
            Vec<Range>,
            ParseError,
        >::Err(e),
{
    seed_pairs_bytes(line.as_bytes())
}

/// Reads the seed header line, given as bytes, as a list of intervals.
pub fn seed_pairs_bytes(b: &[u8]) -> (r: Result<Vec<Range>, ParseError>)
    ensures
        spec_seed_pairs(b@) matches Ok(ranges) ==> r matches Ok(v) && v@.len() == ranges.len()
            && forall|k: int| 0 <= k < ranges.len() ==> v@[k] == ranges[k],
        spec_seed_pairs(b@) matches Err(e) ==> r == Result::<Vec<Range>, ParseError>::Err(e),
{
    let vals: Vec<i64> = match seeds_bytes(b) {
        Ok(v) => v,
        Err(e) => { return Err(e) },
    };
    let ghost svals = spec_seeds(b@)->Ok_0;
    let npairs: usize = vals.len() / 2;
    let mut out: Vec<Range> = Vec::new();
    let mut m: usize = 0;
    while m < npairs
        invariant
            m <= npairs,
            npairs == vals@.len() / 2,
            vals@.len() <= usize::MAX,
            vals@.len() == svals.len(),
            forall|k: int| 0 <= k < svals.len() ==> vals@[k] == svals[k],
            spec_seeds(b@) == Result::<Seq<int>, ParseError>::Ok(svals),
            out@.len() == m,
            forall|k: int| 0 <= k < m ==> #[trigger] pair_ok(svals, k),
            forall|k: int|
                0 <= k < m ==> out@[k] == (Range {
                    from: svals[2 * k] as i64,
                    size: svals[2 * k + 1] as i64,
                }),
        decreases npairs - m,
    {
        let from: i64 = vals[2 * m];
        let size: i64 = vals[2 * m + 1];
        match Range::from_size(from, size) {
            Some(rg) => {
                out.push(rg);
            },
            None => {
                proof {
                    assert(!pair_ok(svals, m as int));
                }
                return Err(ParseError::BadRange);
            },
        }
        m += 1;
    }
    proof {
        if spec_pairs(svals) is Ok {
            let ranges = spec_pairs(svals)->Ok_0;
            assert(out@.len() == ranges.len());
            assert forall|k: int| 0 <= k < ranges.len() implies out@[k] == ranges[k] by {
                assert(pair_ok(svals, k));
            }
        }
    }
    Ok(out)
}

/// The rules a map block's data lines denote, read from `pos` until a
/// blank line or the end of the input, appended to `acc`; the position
/// returned is the first line after the block.
pub open spec fn spec_read_rules(
    lines: Seq<Seq<u8>>,
    pos: int,
    acc: Seq<Translation>,
) -> Result<(Seq<Translation>, int), ParseError>
    decreases lines.len() - pos when 0 <= pos
{
    if pos >= lines.len() {
        Ok((acc, pos))
    } else if lines[pos].len() == 0 {
        Ok((acc, pos + 1))
    } else {
        match spec_translation_of(spec_split(lines[pos], 32)) {
            Ok(t) => spec_read_rules(lines, pos + 1, acc.push(t)),
            Err(e) => Err(e),
        }
    }
}

/// The stage a map block denotes, starting at `pos`: a title line whose
/// text before the first `-to-` names the source category, then the data
/// lines; `Ok(None)` at the end of the input.
pub open spec fn spec_read_cat(lines: Seq<Seq<u8>>, pos: int) -> Result<
    Option<(Category, Seq<Translation>, int)>,
    ParseError,
>
    recommends
        0 <= pos,
{
    if pos >= lines.len() {
        Ok(None)
    } else {
        let title = lines[pos];
        match first_match_pos(title, "-to-".spec_bytes()) {
            None => Err(ParseError::MissingSeparator),
            Some(sep) => match spec_category_of(title.take(sep)) {
                None => Err(ParseError::UnknownCategory),
                Some(c) => match spec_read_rules(lines, pos + 1, Seq::empty()) {
                    Ok((ts, p)) => Ok(Some((c, ts, p))),
                    Err(e) => Err(e),
                },
            },
        }
    }
}

/// The stages the whole remaining input denotes, block after block.
pub open spec fn spec_read_all(lines: Seq<Seq<u8>>, pos: int) -> Result<
    Seq<(Category, Seq<Translation>)>,
    ParseError,
>
    recommends
        0 <= pos,
    decreases lines.len() - pos when 0 <= pos
{
    match spec_read_cat(lines, pos) {
        Err(e) => Err(e),
        Ok(None) => Ok(Seq::empty()),
        Ok(Some((c, ts, p))) => {
            if pos < p <= lines.len() {
                match spec_read_all(lines, p) {
                    Ok(rest) => Ok(seq![(c, ts)] + rest),
                    Err(e) => Err(e),
                }
            } else {
                Err(ParseError::MissingLine)
            }
        },
    }
}

impl TranslationCategory {
    /// Reads one map block starting at line `pos`: the title line names the
    /// source category before the first `-to-`, and each following
    /// non-blank line is one rule. Returns the stage, or `None` at the end
    /// of the input, together with the position of the line after the
    /// block.
    pub fn read(lines: &Vec<Vec<u8>>, pos: usize) -> (r: (
        Result<Option<TranslationCategory>, ParseError>,
        usize,
    ))
        ensures
            ({
                match spec_read_cat(lines.deep_view(), pos as int) {
                    Result::Err(e) => r.0 == Result::<Option<TranslationCategory>, ParseError>::Err(
                        e,
                    ) && r.1 == pos,
                    Result::Ok(None) => r.0 == Result::<
                        Option<TranslationCategory>,
                        ParseError,
                    >::Ok(None) && r.1 == pos,
                    Result::Ok(Some((c, ts, p))) => r.0 matches Ok(o2) && o2 matches Some(tc)
                        && tc.category == c && tc.translations@ == ts && r.1 == p && pos < p
                        <= lines.deep_view().len() && all_valid(ts),
                }
            }),
    {
        let ghost bigl = lines.deep_view();
        proof {
            assert(bigl.len() == lines@.len());
        }
        if pos >= lines.len() {
            return (Ok(None), pos);
        }
        proof {
            assert(bigl[pos as int] =~= lines@[pos as int]@);
        }
        let title: &Vec<u8> = &lines[pos];
        let sep: usize = match find_sub(title.as_slice(), "-to-".as_bytes()) {
            Some(i) => i,
            None => {
                proof {
                    lemma_first_match_pos_none(bigl[pos as int], "-to-".spec_bytes());
                }
                return (Err(ParseError::MissingSeparator), pos);
            },
        };
        proof {
            lemma_first_match_pos(bigl[pos as int], "-to-".spec_bytes(), sep as int);
        }
        let name: Vec<u8> = sub_bytes(title.as_slice(), 0, sep);
        proof {
            assert(name@ =~= bigl[pos as int].take(sep as int));
        }
        let category: Category = match Category::of_bytes(name.as_slice()) {
            Ok(c) => c,
            Err(e) => { return (Err(e), pos) },
        };
        let mut rules: Vec<Translation> = Vec::new();
        let mut p: usize = pos + 1;
        proof {
            assert(rules@ =~= Seq::<Translation>::empty());
        }
        loop
            invariant_except_break
                bigl == lines.deep_view(),
                bigl.len() == lines@.len(),
                pos < lines@.len(),
                pos + 1 <= p <= lines.len(),
                all_valid(rules@),
                spec_read_rules(bigl, pos as int + 1, Seq::empty()) == spec_read_rules(
                    bigl,
                    p as int,
                    rules@,
                ),
                spec_read_cat(bigl, pos as int) == (match spec_read_rules(
                    bigl,
                    pos as int + 1,
                    Seq::empty(),
                ) {
                    Ok((ts2, pp)) => Result::<
                        Option<(Category, Seq<Translation>, int)>,
                        ParseError,
                    >::Ok(Some((category, ts2, pp))),
                    Err(e) => Result::<Option<(Category, Seq<Translation>, int)>, ParseError>::Err(
                        e,
                    ),
                }),
            ensures
                bigl == lines.deep_view(),
                all_valid(rules@),
                pos < p <= lines.len(),
                spec_read_rules(bigl, pos as int + 1, Seq::empty()) == Result::<
                    (Seq<Translation>, int),
                    ParseError,
                >::Ok((rules@, p as int)),
            decreases lines.len() - p,
        {
            if p >= lines.len() {
                break;
            }
            proof {
                assert(bigl[p as int] =~= lines@[p as int]@);
            }
            if lines[p].len() == 0 {
                p += 1;
                break;
            }
            let parts: Vec<Vec<u8>> = split_bytes(lines[p].as_slice(), 32);
            match Translation::from_str(&parts) {
                Ok(t) => {
                    rules.push(t);
                },
                Err(e) => {
                    return (Err(e), pos);
                },
            }
            p += 1;
        }
        (
            Ok(
                Some(
                    TranslationCategory {
                        category,
                        translations: Translations { translations: rules },
                    },
                ),
            ),
            p,
        )
    }
}

/// Reads every map block from `start` to the end of the input.
pub fn parse_categories(lines: &Vec<Vec<u8>>, start: usize) -> (r: Result<
    Vec<TranslationCategory>,
    ParseError,
>)
    ensures
        spec_read_all(lines.deep_view(), start as int) matches Ok(cs) ==> r matches Ok(v)
            && v@.len() == cs.len() && forall|k: int|
            0 <= k < cs.len() ==> (#[trigger] v@[k]).category == cs[k].0 && v@[k].translations@
                == cs[k].1 && all_valid(cs[k].1),
        spec_read_all(lines.deep_view(), start as int) matches Err(e) ==> r == Result::<
            Vec<TranslationCategory>,
            ParseError,
        >::Err(e),
{
    let ghost bigl = lines.deep_view();
    proof {
        assert(bigl.len() == lines@.len());
    }
    let mut cats: Vec<TranslationCategory> = Vec::new();
    let ghost mut done: Seq<(Category, Seq<Translation>)> = Seq::empty();
    let mut p: usize = start;
    loop
        invariant_except_break
            bigl == lines.deep_view(),
            bigl.len() == lines@.len(),
            p <= lines.len() || p == start,
            done.len() == cats@.len(),
            forall|k: int|
                0 <= k < done.len() ==> (#[trigger] cats@[k]).category == done[k].0
                    && cats@[k].translations@ == done[k].1 && all_valid(done[k].1),
            spec_read_all(bigl, p as int) matches Ok(rest) ==> spec_read_all(bigl, start as int)
                == Result::<Seq<(Category, Seq<Translation>)>, ParseError>::Ok(done + rest),
            spec_read_all(bigl, p as int) matches Err(e) ==> spec_read_all(bigl, start as int)
                == Result::<Seq<(Category, Seq<Translation>)>, ParseError>::Err(e),
        ensures
            bigl == lines.deep_view(),
            done.len() == cats@.len(),
            forall|k: int|
                0 <= k < done.len() ==> (#[trigger] cats@[k]).category == done[k].0
                    && cats@[k].translations@ == done[k].1 && all_valid(done[k].1),
            spec_read_all(bigl, start as int) == Result::<
                Seq<(Category, Seq<Translation>)>,
                ParseError,
            >::Ok(done),
        decreases lines.len() + 1 - p,
    {
        let (res, p2) = TranslationCategory::read(lines, p);
        match res {
            Err(e) => {
                return Err(e);
            },
            Ok(None) => {
                proof {
                    assert(spec_read_all(bigl, p as int) == Result::<
                        Seq<(Category, Seq<Translation>)>,
                        ParseError,
                    >::Ok(Seq::empty()));
                    assert(done + Seq::<(Category, Seq<Translation>)>::empty() =~= done);
                }
                break;
            },
            Ok(Some(tc)) => {
                let ghost c = spec_read_cat(bigl, p as int)->Ok_0->Some_0.0;
                let ghost ts = spec_read_cat(bigl, p as int)->Ok_0->Some_0.1;
                cats.push(tc);
                proof {
                    let old_done = done;
                    done = done.push((c, ts));
                    assert forall|rest: Seq<(Category, Seq<Translation>)>|
                        true implies (old_done + (seq![(c, ts)] + rest)) =~= (done + rest) by {}
                }
                p = p2;
            },
        }
    }
    Ok(cats)
}

/// The rules of the first parsed stage of category `c`, if any.
pub open spec fn first_stage(cs: Seq<(Category, Seq<Translation>)>, c: Category) -> Option<
    Seq<Translation>,
>
    decreases cs.len(),
{
    if cs.len() == 0 {
        None
    } else if cs[0].0 == c {
        Some(cs[0].1)
    } else {
        first_stage(cs.skip(1), c)
    }
}

/// The rules the pipeline uses for category `c`: those of its first parsed
/// stage.
pub open spec fn rules_for(cs: Seq<(Category, Seq<Translation>)>, c: Category) -> Seq<
    Translation,
> {
    match first_stage(cs, c) {
        Some(ts) => ts,
        None => Seq::empty(),
    }
}

/// Each of the seven source categories has a parsed stage.
pub open spec fn stages_present(cs: Seq<(Category, Seq<Translation>)>) -> bool {
    &&& first_stage(cs, Category::Seed) is Some
    &&& first_stage(cs, Category::Soil) is Some
    &&& first_stage(cs, Category::Fertilizer) is Some
    &&& first_stage(cs, Category::Water) is Some
    &&& first_stage(cs, Category::Light) is Some
    &&& first_stage(cs, Category::Temperature) is Some
    &&& first_stage(cs, Category::Humidity) is Some
}

/// The stage-wise translation of `v` through the seven parsed stages in
/// chain order.
pub open spec fn spec_chain(cs: Seq<(Category, Seq<Translation>)>, v: int) -> int {
    lookup(
        rules_for(cs, Category::Humidity),
        lookup(
            rules_for(cs, Category::Temperature),
            lookup(
                rules_for(cs, Category::Light),
                lookup(
                    rules_for(cs, Category::Water),
                    lookup(
                        rules_for(cs, Category::Fertilizer),
                        lookup(
                            rules_for(cs, Category::Soil),
                            lookup(rules_for(cs, Category::Seed), v),
                        ),
                    ),
                ),
            ),
        ),
    )
}

/// Finding a stage in the parsed list and in its element-wise image agree.
pub proof fn lemma_first_stage_matches(
    cats: Seq<TranslationCategory>,
    cs: Seq<(Category, Seq<Translation>)>,
    c: Category,
)
    requires
        cats.len() == cs.len(),
        forall|k: int|
            0 <= k < cs.len() ==> (#[trigger] cats[k]).category == cs[k].0
                && cats[k].translations@ == cs[k].1,
    ensures
        match crate::pipeline::spec_filter(cats, c) {
            Some(i) => 0 <= i < cats.len() && first_stage(cs, c) == Some(cats[i].translations@),
            None => first_stage(cs, c) is None,
        },
    decreases cats.len(),
{
    if cats.len() > 0 {
        if cats[0].category == c {
        } else {
            assert forall|k: int|
                0 <= k < cs.skip(1).len() implies (#[trigger] cats.skip(1)[k]).category
                == cs.skip(1)[k].0 && cats.skip(1)[k].translations@ == cs.skip(1)[k].1 by {
                assert(cats.skip(1)[k] == cats[k + 1]);
                assert(cs.skip(1)[k] == cs[k + 1]);
            }
            lemma_first_stage_matches(cats.skip(1), cs.skip(1), c);
            if crate::pipeline::spec_filter(cats, c) is Some {
                let i = crate::pipeline::spec_filter(cats, c)->Some_0;
                assert(cats.skip(1)[i - 1] == cats[i]);
            }
        }
    }
}

/// What part one of the almanac parses: the flat seed list and the stages.
pub open spec fn spec_almanac_vals(lines: Seq<Seq<u8>>) -> Result<
    (Seq<int>, Seq<(Category, Seq<Translation>)>),
    ParseError,
> {
    if lines.len() < 1 {
        Err(ParseError::MissingLine)
    } else {
        match spec_seeds(lines[0]) {
            Err(e) => Err(e),
            Ok(vals) => {
                if lines.len() < 2 {
                    Err(ParseError::MissingLine)
                } else {
                    match spec_read_all(lines, 2) {
                        Err(e) => Err(e),
                        Ok(cs) => Ok((vals, cs)),
                    }
                }
            },
        }
    }
}

/// What part two of the almanac parses: the seed intervals and the stages.
pub open spec fn spec_almanac_ranges(lines: Seq<Seq<u8>>) -> Result<
    (Seq<Range>, Seq<(Category, Seq<Translation>)>),
    ParseError,
> {
    if lines.len() < 1 {
        Err(ParseError::MissingLine)
    } else {
        match spec_seed_pairs(lines[0]) {
            Err(e) => Err(e),
            Ok(ranges) => {
                if lines.len() < 2 {
                    Err(ParseError::MissingLine)
                } else {
                    match spec_read_all(lines, 2) {
                        Err(e) => Err(e),
                        Ok(cs) => Ok((ranges, cs)),
                    }
                }
            },
        }
    }
}

/// Builds the pipeline out of the parsed blocks of the input.
fn build_map(lines: &Vec<Vec<u8>>) -> (r: Result<TranslationMap, ParseError>)
    requires
        lines.deep_view().len() >= 2,
    ensures
        ({
            match spec_read_all(lines.deep_view(), 2) {
                Result::Err(e) => r == Result::<TranslationMap, ParseError>::Err(e),
                Result::Ok(cs) => {
                    if stages_present(cs) {
                        &&& r matches Ok(m)
                        &&& m.wf()
                        &&& m.seed.translations@ == rules_for(cs, Category::Seed)
                        &&& m.soil.translations@ == rules_for(cs, Category::Soil)
                        &&& m.fertilizer.translations@ == rules_for(cs, Category::Fertilizer)
                        &&& m.water.translations@ == rules_for(cs, Category::Water)
                        &&& m.light.translations@ == rules_for(cs, Category::Light)
                        &&& m.temperature.translations@ == rules_for(cs, Category::Temperature)
                        &&& m.humidity.translations@ == rules_for(cs, Category::Humidity)
                        &&& (forall|v: int| #[trigger] m.chain(v) == spec_chain(cs, v))
                    } else {
                        r == Result::<TranslationMap, ParseError>::Err(ParseError::MissingCategory)
                    }
                },
            }
        }),
{
    let cats: Vec<TranslationCategory> = match parse_categories(lines, 2) {
        Ok(c) => c,
        Err(e) => { return Err(e) },
    };
    let ghost cs = spec_read_all(lines.deep_view(), 2)->Ok_0;
    proof {
        lemma_first_stage_matches(cats@, cs, Category::Seed);
        lemma_first_stage_matches(cats@, cs, Category::Soil);
        lemma_first_stage_matches(cats@, cs, Category::Fertilizer);
        lemma_first_stage_matches(cats@, cs, Category::Water);
        lemma_first_stage_matches(cats@, cs, Category::Light);
        lemma_first_stage_matches(cats@, cs, Category::Temperature);
        lemma_first_stage_matches(cats@, cs, Category::Humidity);
    }
    match TranslationMap::of(&cats) {
        Ok(m) => {
            proof {
                assert forall|v: int| #[trigger] m.chain(v) == spec_chain(cs, v) by {}
            }
            Ok(m)
        },
        Err(e) => Err(e),
    }
}

/// The least location that any listed seed translates to through the whole
/// chain: the answer to part one of the almanac puzzle.
#[verifier::loop_isolation(false)]
pub fn lowest_location(lines: &Vec<Vec<u8>>) -> (r: Result<i64, ParseError>)
    ensures
        ({
            match spec_almanac_vals(lines.deep_view()) {
                Result::Err(e) => r == Result::<i64, ParseError>::Err(e),
                Result::Ok((vals, cs)) => {
                    if !stages_present(cs) {
                        r == Result::<i64, ParseError>::Err(ParseError::MissingCategory)
                    } else if vals.len() == 0 {
                        r == Result::<i64, ParseError>::Err(ParseError::NoValues)
                    } else {
                        &&& r matches Ok(v)
                        &&& forall|k: int| 0 <= k < vals.len() ==> v <= #[trigger] spec_chain(cs, vals[k])
                        &&& exists|k: int|
                            0 <= k < vals.len() && v == #[trigger] spec_chain(cs, vals[k])
                    }
                },
            }
        }),
{
    let ghost bigl = lines.deep_view();
    proof {
        assert(bigl.len() == lines@.len());
    }
    if lines.len() == 0 {
        return Err(ParseError::MissingLine);
    }
    proof {
        assert(bigl[0] =~= lines@[0]@);
    }
    let vals: Vec<i64> = match seeds_bytes(lines[0].as_slice()) {
        Ok(v) => v,
        Err(e) => { return Err(e) },
    };
    let ghost svals = spec_seeds(bigl[0])->Ok_0;
    if lines.len() < 2 {
        return Err(ParseError::MissingLine);
    }
    let map: TranslationMap = match build_map(lines) {
        Ok(m) => m,
        Err(e) => { return Err(e) },
    };
    let ghost cs = spec_read_all(bigl, 2)->Ok_0;
    if vals.len() == 0 {
        return Err(ParseError::NoValues);
    }
    let mut best: i64 = map.tr(vals[0]);
    proof {
        assert(best as int == spec_chain(cs, svals[0]));
    }
    let mut k: usize = 1;
    while k < vals.len()
        invariant
            1 <= k <= vals@.len(),
            forall|j: int| 0 <= j < k ==> best <= #[trigger] spec_chain(cs, svals[j]),
            exists|j: int| 0 <= j < k && best == #[trigger] spec_chain(cs, svals[j]),
        decreases vals@.len() - k,
    {
        let t: i64 = map.tr(vals[k]);
        proof {
            assert(t as int == spec_chain(cs, svals[k as int]));
        }
        if t < best {
            best = t;
        }
        k += 1;
    }
    Ok(best)
}

/// The least location that any seed inside the listed seed intervals
/// translates to through the whole chain: the answer to part two of the
/// almanac puzzle, computed by translating whole intervals.
#[verifier::loop_isolation(false)]
pub fn lowest_location_ranges(lines: &Vec<Vec<u8>>) -> (r: Result<i64, ParseError>)
    ensures
        ({
            match spec_almanac_ranges(lines.deep_view()) {
                Result::Err(e) => r == Result::<i64, ParseError>::Err(e),
                Result::Ok((ranges, cs)) => {
                    if !stages_present(cs) {
                        r == Result::<i64, ParseError>::Err(ParseError::MissingCategory)
                    } else if ranges.len() == 0 {
                        r == Result::<i64, ParseError>::Err(ParseError::NoValues)
                    } else {
                        &&& r matches Ok(v)
                        &&& forall|k: int, w: int|
                            0 <= k < ranges.len() && #[trigger] range_covers(ranges[k], w) ==> v
                                <= spec_chain(cs, w)
                        &&& exists|k: int, w: int|
                            0 <= k < ranges.len() && #[trigger] range_covers(ranges[k], w)
                                && v == spec_chain(cs, w)
                    }
                },
            }
        }),
{
    let ghost bigl = lines.deep_view();
    proof {
        assert(bigl.len() == lines@.len());
    }
    if lines.len() == 0 {
        return Err(ParseError::MissingLine);
    }
    proof {
        assert(bigl[0] =~= lines@[0]@);
    }
    let ranges: Vec<Range> = match seed_pairs_bytes(lines[0].as_slice()) {
        Ok(v) => v,
        Err(e) => { return Err(e) },
    };
    let ghost sranges = spec_seed_pairs(bigl[0])->Ok_0;
    if lines.len() < 2 {
        return Err(ParseError::MissingLine);
    }
    let map: TranslationMap = match build_map(lines) {
        Ok(m) => m,
        Err(e) => { return Err(e) },
    };
    let ghost cs = spec_read_all(bigl, 2)->Ok_0;
    if ranges.len() == 0 {
        return Err(ParseError::NoValues);
    }
    proof {
        assert forall|k: int| 0 <= k < sranges.len() implies crate::range::range_valid(
            #[trigger] sranges[k],
        ) by {
            assert(pair_ok(spec_seeds(bigl[0])->Ok_0, k));
        }
    }
    let mut best: i64 = 0;
    let mut found: bool = false;
    let mut k: usize = 0;
    while k < ranges.len()
        invariant
            k <= ranges@.len(),
            k > 0 ==> found,
            found ==> exists|k2: int, w: int|
                0 <= k2 < k && #[trigger] range_covers(sranges[k2], w) && best as int
                    == spec_chain(cs, w),
            forall|k2: int, w: int|
                0 <= k2 < k && #[trigger] range_covers(sranges[k2], w) ==> best as int
                    <= spec_chain(cs, w),
        decreases ranges@.len() - k,
    {
        let interval: Range = ranges[k];
        proof {
            assert(interval == sranges[k as int]);
            assert(crate::range::range_valid(interval));
        }
        let pieces: Vec<Range> = map.tr_range(&interval);
        let ghost ps = pieces@;
        proof {
            assert(sum_sizes(ps) == interval.size);
            if ps.len() == 0 {
                assert(sum_sizes(ps) == 0);
            }
        }
        let mut q: usize = 0;
        while q < pieces.len()
            invariant
                q <= pieces@.len(),
                pieces@ == ps,
                k < ranges@.len(),
                interval == sranges[k as int],
                q > 0 || k > 0 ==> found,
                found ==> exists|k2: int, w: int|
                    0 <= k2 <= k && k2 < sranges.len() && #[trigger] range_covers(sranges[k2], w)
                        && best as int == spec_chain(cs, w),
                forall|k2: int, w: int|
                    0 <= k2 < k && #[trigger] range_covers(sranges[k2], w) ==> best as int
                        <= spec_chain(cs, w),
                forall|j: int| 0 <= j < q ==> found && best <= (#[trigger] ps[j]).from,
            decreases pieces@.len() - q,
        {
            let piece: Range = pieces[q];
            if !found || piece.from < best {
                best = piece.from;
                found = true;
                proof {
                    assert(range_covers(ps[q as int], piece.from as int));
                    assert(in_pieces(ps, piece.from as int));
                    let w = choose|w: int|
                        range_covers(interval, w) && #[trigger] map.chain(w) == piece.from as int;
                    assert(range_covers(sranges[k as int], w) && best as int == spec_chain(cs, w));
                }
            }
            q += 1;
        }
        proof {
            assert(ps.len() > 0);
            assert(found);
            assert forall|w: int|
                range_covers(sranges[k as int], w) implies best as int <= spec_chain(cs, w) by {
                assert(in_pieces(ps, map.chain(w)));
                let j = choose|j: int| 0 <= j < ps.len() && range_covers(ps[j], map.chain(w));
                assert(best <= ps[j].from);
            }
        }
        k += 1;
    }
    Ok(best)
}

} // verus!
