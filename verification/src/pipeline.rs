//! The translation pipeline: the eight fixed categories, one stage's rules
//! under a category name, and the seven-stage map from seed to location,
//! kept both stage by stage and as one composed rule set.

use crate::errors::ParseError;
use crate::parse::bytes_eq;
use crate::range::{in_pieces, range_covers, range_valid, sum_sizes, Range};
use crate::rules::Translations;
use crate::translation::{all_valid, coherent, first_match, lookup};
use vstd::prelude::*;
use vstd::string::StringSliceAdditionalSpecFns;

verus! {

/// The fixed, linearly chained category domain.
#[derive(Clone, Copy, Debug, PartialEq, Eq, Structural)]
pub enum Category {
    Seed,
    Soil,
    Fertilizer,
    Water,
    Light,
    Temperature,
    Humidity,
    Location,
}

/// The category a name denotes, if it is one of the fixed eight.
pub open spec fn spec_category_of(s: Seq<u8>) -> Option<Category> {
    if s == "seed".spec_bytes() {
        Some(Category::Seed)
    } else if s == "soil".spec_bytes() {
        Some(Category::Soil)
    } else if s == "fertilizer".spec_bytes() {
        Some(Category::Fertilizer)
    } else if s == "water".spec_bytes() {
        Some(Category::Water)
    } else if s == "light".spec_bytes() {
        Some(Category::Light)
    } else if s == "temperature".spec_bytes() {
        Some(Category::Temperature)
    } else if s == "humidity".spec_bytes() {
        Some(Category::Humidity)
    } else if s == "location".spec_bytes() {
        Some(Category::Location)
    } else {
        None
    }
}

impl Category {
    /// Reads a category name; a name outside the fixed eight is a format
    /// error.
    pub fn of(value: &str) -> (r: Result<Category, ParseError>)
        ensures
            r == (match spec_category_of(value.spec_bytes()) {
                Some(c) => Result::<Category, ParseError>::Ok(c),
                None => Result::<Category, ParseError>::Err(ParseError::UnknownCategory),
            }),
    {
        Category::of_bytes(value.as_bytes())
    }

    /// Reads a category name given as bytes.
    pub fn of_bytes(b: &[u8]) -> (r: Result<Category, ParseError>)
        ensures
            r == (match spec_category_of(b@) {
                Some(c) => Result::<Category, ParseError>::Ok(c),
                None => Result::<Category, ParseError>::Err(ParseError::UnknownCategory),
            }),
    {
        if bytes_eq(b, "seed".as_bytes()) {
            Ok(Category::Seed)
        } else if bytes_eq(b, "soil".as_bytes()) {
            Ok(Category::Soil)
        } else if bytes_eq(b, "fertilizer".as_bytes()) {
            Ok(Category::Fertilizer)
        } else if bytes_eq(b, "water".as_bytes()) {
            Ok(Category::Water)
        } else if bytes_eq(b, "light".as_bytes()) {
            Ok(Category::Light)
        } else if bytes_eq(b, "temperature".as_bytes()) {
            Ok(Category::Temperature)
        } else if bytes_eq(b, "humidity".as_bytes()) {
            Ok(Category::Humidity)
        } else if bytes_eq(b, "location".as_bytes()) {
            Ok(Category::Location)
        } else {
            Err(ParseError::UnknownCategory)
        }
    }
}

/// One stage of the pipeline: a rule set under its category name.
#[derive(Debug)]
pub struct TranslationCategory {
    pub category: Category,
    pub translations: Translations,
}

impl TranslationCategory {
    /// This stage's translation of `val`: the first covering rule's offset,
    /// or `val` itself when no rule covers it.
    pub fn tr(&self, val: i64) -> (r: i64)
        requires
            all_valid(self.translations@),
        ensures
            r as int == lookup(self.translations@, val as int),
    {
        proof {
            let ts = self.translations@;
            let v = val as int;
            crate::translation::lemma_first_match_covered(ts, v);
            if first_match(ts, v) is Some {
                let t = first_match(ts, v)->Some_0;
                let i = choose|i: int| 0 <= i < ts.len() && #[trigger] ts[i] == t;
                assert(crate::translation::tr_valid(ts[i]));
            }
        }
        match self.translations.tr_val(val) {
            Some(v) => v,
            None => val,
        }
    }

    /// A stage holding the same category and the same rules.
    pub fn duplicate(&self) -> (r: TranslationCategory)
        ensures
            r.category == self.category,
            r.translations@ == self.translations@,
    {
        let mut rules: Vec<crate::translation::Translation> = Vec::new();
        let mut i: usize = 0;
        while i < self.translations.translations.len()
            invariant
                i <= self.translations.translations.len(),
                rules@ == self.translations@.take(i as int),
            decreases self.translations.translations.len() - i,
        {
            rules.push(self.translations.translations[i]);
            proof {
                assert(rules@ =~= self.translations@.take(i as int + 1));
            }
            i += 1;
        }
        proof {
            assert(self.translations@.take(self.translations@.len() as int)
                =~= self.translations@);
        }
        TranslationCategory {
            category: self.category,
            translations: Translations { translations: rules },
        }
    }
}

/// The first stage of the list whose category is `c`, if any: the stage the
/// pipeline uses for that category.
pub open spec fn spec_filter(s: Seq<TranslationCategory>, c: Category) -> Option<int>
    decreases s.len(),
{
    if s.len() == 0 {
        None
    } else if s[0].category == c {
        Some(0)
    } else {
        match spec_filter(s.skip(1), c) {
            Some(i) => Some(i + 1),
            None => None,
        }
    }
}

/// The found index lies in the list, carries the sought category, and no
/// earlier index does; `None` means no stage carries it.
pub proof fn lemma_spec_filter(s: Seq<TranslationCategory>, c: Category)
    ensures
        spec_filter(s, c) matches Some(i) ==> 0 <= i < s.len() && s[i].category == c && forall|j:
            int| 0 <= j < i ==> (#[trigger] s[j]).category != c,
        spec_filter(s, c) is None ==> forall|j: int|
            0 <= j < s.len() ==> (#[trigger] s[j]).category != c,
    decreases s.len(),
{
    if s.len() > 0 {
        lemma_spec_filter(s.skip(1), c);
        assert(forall|j: int| 1 <= j < s.len() ==> #[trigger] s[j] == s.skip(1)[j - 1]);
    }
}

/// The index that holds the first stage of category `c` is found by
/// `spec_filter`.
pub proof fn lemma_spec_filter_at(s: Seq<TranslationCategory>, c: Category, i: int)
    requires
        0 <= i < s.len(),
        s[i].category == c,
        forall|j: int| 0 <= j < i ==> (#[trigger] s[j]).category != c,
    ensures
        spec_filter(s, c) == Some(i),
    decreases i,
{
    if i > 0 {
        assert(s.skip(1)[i - 1] == s[i]);
        assert forall|j: int| 0 <= j < i - 1 implies (#[trigger] s.skip(1)[j]).category != c by {
            assert(s.skip(1)[j] == s[j + 1]);
        }
        lemma_spec_filter_at(s.skip(1), c, i - 1);
    }
}

/// The stage `tc` is, up to its rules' view, the first stage of category
/// `c` in the parsed list.
pub open spec fn stage_is(
    tc: TranslationCategory,
    cats: Seq<TranslationCategory>,
    c: Category,
) -> bool {
    match spec_filter(cats, c) {
        Some(i) => tc.category == cats[i].category && tc.translations@ == cats[i].translations@,
        None => false,
    }
}

/// The seven-stage pipeline from seed to location, kept both stage by
/// stage and as one composed rule set equivalent to walking every stage in
/// order.
#[derive(Debug)]
pub struct TranslationMap {
    pub seed: TranslationCategory,
    pub soil: TranslationCategory,
    pub fertilizer: TranslationCategory,
    pub water: TranslationCategory,
    pub light: TranslationCategory,
    pub temperature: TranslationCategory,
    pub humidity: TranslationCategory,
    pub translations: Translations,
}

impl TranslationMap {
    /// Every stage's rules are well-formed.
    pub open spec fn stages_valid(&self) -> bool {
        &&& all_valid(self.seed.translations@)
        &&& all_valid(self.soil.translations@)
        &&& all_valid(self.fertilizer.translations@)
        &&& all_valid(self.water.translations@)
        &&& all_valid(self.light.translations@)
        &&& all_valid(self.temperature.translations@)
        &&& all_valid(self.humidity.translations@)
    }

    /// Within every stage, rules that overlap agree; rule sets parsed from
    /// well-formed inputs, whose source intervals never overlap, are
    /// coherent.
    pub open spec fn stages_coherent(&self) -> bool {
        &&& coherent(self.seed.translations@)
        &&& coherent(self.soil.translations@)
        &&& coherent(self.fertilizer.translations@)
        &&& coherent(self.water.translations@)
        &&& coherent(self.light.translations@)
        &&& coherent(self.temperature.translations@)
        &&& coherent(self.humidity.translations@)
    }

    /// The stage-wise translation of `v`: each stage's lookup feeds the
    /// next, seed to location.
    pub open spec fn chain(&self, v: int) -> int {
        lookup(
            self.humidity.translations@,
            lookup(
                self.temperature.translations@,
                lookup(
                    self.light.translations@,
                    lookup(
                        self.water.translations@,
                        lookup(
                            self.fertilizer.translations@,
                            lookup(self.soil.translations@, lookup(self.seed.translations@, v)),
                        ),
                    ),
                ),
            ),
        )
    }

    /// A well-formed pipeline: every rule set is valid, and, wherever the
    /// stages are coherent, one lookup in the composed rule set equals the
    /// stage-wise walk.
    pub open spec fn wf(&self) -> bool {
        &&& self.stages_valid()
        &&& all_valid(self.translations@)
        &&& (self.stages_coherent() ==> coherent(self.translations@) && (forall|v: int| #[trigger]
            lookup(self.translations@, v) == self.chain(v)))
    }

    /// The first stage of the given category, or a format error when the
    /// input provides none.
    pub fn filter<'a>(
        input_maps: &'a Vec<TranslationCategory>,
        category: Category,
    ) -> (r: Result<&'a TranslationCategory, ParseError>)
        ensures
            r matches Ok(c) ==> spec_filter(input_maps@, category) matches Some(i) && *c
                == input_maps@[i],
            r is Err ==> r == Result::<&'a TranslationCategory, ParseError>::Err(
                ParseError::MissingCategory,
            ) && spec_filter(input_maps@, category) is None,
    {
        let mut i: usize = 0;
        while i < input_maps.len()
            invariant
                i <= input_maps.len(),
                forall|j: int| 0 <= j < i ==> (#[trigger] input_maps@[j]).category != category,
            decreases input_maps.len() - i,
        {
            if input_maps[i].category == category {
                proof {
                    lemma_spec_filter_at(input_maps@, category, i as int);
                }
                return Ok(&input_maps[i]);
            }
            i += 1;
        }
        proof {
            lemma_spec_filter(input_maps@, category);
            if spec_filter(input_maps@, category) is Some {
                let j = spec_filter(input_maps@, category)->Some_0;
                assert(input_maps@[j].category != category);
            }
        }
        Err(ParseError::MissingCategory)
    }

    /// Builds the pipeline: finds the seven source categories and composes
    /// their rule sets, left to right along the chain, into one rule set.
    /// A missing category is a format error.
    pub fn of(categories: &Vec<TranslationCategory>) -> (r: Result<TranslationMap, ParseError>)
        requires
            forall|i: int|
                0 <= i < categories@.len() ==> all_valid(
                    (#[trigger] categories@[i]).translations@,
                ),
        ensures
            r matches Ok(m) ==> {
                &&& m.wf()
                &&& stage_is(m.seed, categories@, Category::Seed)
                &&& stage_is(m.soil, categories@, Category::Soil)
                &&& stage_is(m.fertilizer, categories@, Category::Fertilizer)
                &&& stage_is(m.water, categories@, Category::Water)
                &&& stage_is(m.light, categories@, Category::Light)
                &&& stage_is(m.temperature, categories@, Category::Temperature)
                &&& stage_is(m.humidity, categories@, Category::Humidity)
            },
            r is Err ==> r == Result::<TranslationMap, ParseError>::Err(
                ParseError::MissingCategory,
            ) && (spec_filter(categories@, Category::Seed) is None || spec_filter(
                categories@,
                Category::Soil,
            ) is None || spec_filter(categories@, Category::Fertilizer) is None || spec_filter(
                categories@,
                Category::Water,
            ) is None || spec_filter(categories@, Category::Light) is None || spec_filter(
                categories@,
                Category::Temperature,
            ) is None || spec_filter(categories@, Category::Humidity) is None),
    {
        let seed = match TranslationMap::filter(categories, Category::Seed) {
            Ok(c) => c.duplicate(),
            Err(e) => { return Err(e) },
        };
        let soil = match TranslationMap::filter(categories, Category::Soil) {
            Ok(c) => c.duplicate(),
            Err(e) => { return Err(e) },
        };
        let fertilizer = match TranslationMap::filter(categories, Category::Fertilizer) {
            Ok(c) => c.duplicate(),
            Err(e) => { return Err(e) },
        };
        let water = match TranslationMap::filter(categories, Category::Water) {
            Ok(c) => c.duplicate(),
            Err(e) => { return Err(e) },
        };
        let light = match TranslationMap::filter(categories, Category::Light) {
            Ok(c) => c.duplicate(),
            Err(e) => { return Err(e) },
        };
        let temperature = match TranslationMap::filter(categories, Category::Temperature) {
            Ok(c) => c.duplicate(),
            Err(e) => { return Err(e) },
        };
        let humidity = match TranslationMap::filter(categories, Category::Humidity) {
            Ok(c) => c.duplicate(),
            Err(e) => { return Err(e) },
        };

        proof {
            assert(all_valid(seed.translations@)) by {
                lemma_spec_filter(categories@, Category::Seed);
                let i = spec_filter(categories@, Category::Seed)->Some_0;
                assert(all_valid(categories@[i].translations@));
            }
            assert(all_valid(soil.translations@)) by {
                lemma_spec_filter(categories@, Category::Soil);
                let i = spec_filter(categories@, Category::Soil)->Some_0;
                assert(all_valid(categories@[i].translations@));
            }
            assert(all_valid(fertilizer.translations@)) by {
                lemma_spec_filter(categories@, Category::Fertilizer);
                let i = spec_filter(categories@, Category::Fertilizer)->Some_0;
                assert(all_valid(categories@[i].translations@));
            }
            assert(all_valid(water.translations@)) by {
                lemma_spec_filter(categories@, Category::Water);
                let i = spec_filter(categories@, Category::Water)->Some_0;
                assert(all_valid(categories@[i].translations@));
            }
            assert(all_valid(light.translations@)) by {
                lemma_spec_filter(categories@, Category::Light);
                let i = spec_filter(categories@, Category::Light)->Some_0;
                assert(all_valid(categories@[i].translations@));
            }
            assert(all_valid(temperature.translations@)) by {
                lemma_spec_filter(categories@, Category::Temperature);
                let i = spec_filter(categories@, Category::Temperature)->Some_0;
                assert(all_valid(categories@[i].translations@));
            }
            assert(all_valid(humidity.translations@)) by {
                lemma_spec_filter(categories@, Category::Humidity);
                let i = spec_filter(categories@, Category::Humidity)->Some_0;
                assert(all_valid(categories@[i].translations@));
            }
        }
        let t1: Translations = seed.translations.join(&soil.translations);
        let t2: Translations = t1.join(&fertilizer.translations);
        let t3: Translations = t2.join(&water.translations);
        let t4: Translations = t3.join(&light.translations);
        let t5: Translations = t4.join(&temperature.translations);
        let t6: Translations = t5.join(&humidity.translations);

        let m = TranslationMap {
            seed,
            soil,
            fertilizer,
            water,
            light,
            temperature,
            humidity,
            translations: t6,
        };
        proof {
            if m.stages_coherent() {
                assert forall|v: int| #[trigger]
                    lookup(m.translations@, v) == m.chain(v) by {
                }
            }
        }
        Ok(m)
    }

    /// Translates one seed stage by stage through the whole chain.
    pub fn tr(&self, seed: i64) -> (r: i64)
        requires
            self.stages_valid(),
        ensures
            r as int == self.chain(seed as int),
    {
        let soil = self.seed.tr(seed);
        let fertilizer = self.soil.tr(soil);
        let water = self.fertilizer.tr(fertilizer);
        let light = self.water.tr(water);
        let temperature = self.light.tr(light);
        let humidity = self.temperature.tr(temperature);
        let location = self.humidity.tr(humidity);
        location
    }

    /// Translates a whole seed interval through the chain: each stage fans
    /// the pieces out further, the total length is conserved, and the
    /// pieces cover exactly the chain translations of the seed interval.
    pub fn tr_range(&self, seed_range: &Range) -> (out: Vec<Range>)
        requires
            self.stages_valid(),
            range_valid(*seed_range),
        ensures
            forall|k: int| 0 <= k < out@.len() ==> range_valid(#[trigger] out@[k]),
            sum_sizes(out@) == seed_range.size,
            forall|v: int|
                range_covers(*seed_range, v) ==> in_pieces(out@, #[trigger] self.chain(v)),
            forall|u: int| #[trigger]
                in_pieces(out@, u) ==> exists|v: int|
                    range_covers(*seed_range, v) && #[trigger] self.chain(v) == u,
    {
        let ghost s1 = self.seed.translations@;
        let ghost s2 = self.soil.translations@;
        let ghost s3 = self.fertilizer.translations@;
        let ghost s4 = self.water.translations@;
        let ghost s5 = self.light.translations@;
        let ghost s6 = self.temperature.translations@;
        let ghost s7 = self.humidity.translations@;
        let mut start: Vec<Range> = Vec::new();
        start.push(*seed_range);
        proof {
            assert(start@[0] == *seed_range);
            assert(start@.skip(1).len() == 0);
            assert(sum_sizes(start@.skip(1)) == 0);
            assert(sum_sizes(start@) == seed_range.size);
        }
        let r1: Vec<Range> = self.seed.translations.tr_ranges(&start);
        let r2: Vec<Range> = self.soil.translations.tr_ranges(&r1);
        let r3: Vec<Range> = self.fertilizer.translations.tr_ranges(&r2);
        let r4: Vec<Range> = self.water.translations.tr_ranges(&r3);
        let r5: Vec<Range> = self.light.translations.tr_ranges(&r4);
        let r6: Vec<Range> = self.temperature.translations.tr_ranges(&r5);
        let r7: Vec<Range> = self.humidity.translations.tr_ranges(&r6);
        proof {
            assert forall|v: int|
                range_covers(*seed_range, v) implies in_pieces(r7@, #[trigger] self.chain(v)) by {
                assert(range_covers(start@[0], v));
                assert(in_pieces(start@, v));
                let w1 = lookup(s1, v);
                assert(in_pieces(r1@, w1));
                let w2 = lookup(s2, w1);
                assert(in_pieces(r2@, w2));
                let w3 = lookup(s3, w2);
                assert(in_pieces(r3@, w3));
                let w4 = lookup(s4, w3);
                assert(in_pieces(r4@, w4));
                let w5 = lookup(s5, w4);
                assert(in_pieces(r5@, w5));
                let w6 = lookup(s6, w5);
                assert(in_pieces(r6@, w6));
                assert(in_pieces(r7@, lookup(s7, w6)));
            }
            assert forall|u: int| #[trigger]
                in_pieces(r7@, u) implies exists|v: int|
                    range_covers(*seed_range, v) && #[trigger] self.chain(v) == u by {
                let v7 = choose|v: int| in_pieces(r6@, v) && #[trigger] lookup(s7, v) == u;
                assert(in_pieces(r6@, v7));
                let v6 = choose|v: int| in_pieces(r5@, v) && #[trigger] lookup(s6, v) == v7;
                assert(in_pieces(r5@, v6));
                let v5 = choose|v: int| in_pieces(r4@, v) && #[trigger] lookup(s5, v) == v6;
                assert(in_pieces(r4@, v5));
                let v4 = choose|v: int| in_pieces(r3@, v) && #[trigger] lookup(s4, v) == v5;
                assert(in_pieces(r3@, v4));
                let v3 = choose|v: int| in_pieces(r2@, v) && #[trigger] lookup(s3, v) == v4;
                assert(in_pieces(r2@, v3));
                let v2 = choose|v: int| in_pieces(r1@, v) && #[trigger] lookup(s2, v) == v3;
                assert(in_pieces(r1@, v2));
                let v1 = choose|v: int| in_pieces(start@, v) && #[trigger] lookup(s1, v) == v2;
                assert(in_pieces(start@, v1));
                let k0 = choose|k0: int| 0 <= k0 < start@.len() && range_covers(start@[k0], v1);
                assert(range_covers(*seed_range, v1));
                assert(self.chain(v1) == u);
            }
        }
        r7
    }
}

/// Stage-wise and composed evaluation agree: translating a seed through
/// every stage in order equals one lookup in the composed rule set, for
/// any well-formed pipeline whose stages are coherent.
pub proof fn lemma_point_matches_composed(m: &TranslationMap, v: int)
    requires
        m.wf(),
        m.stages_coherent(),
    ensures
        lookup(m.translations@, v) == m.chain(v),
{
}

} // verus!
