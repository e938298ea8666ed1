use almanac::almanac::{lowest_location, lowest_location_ranges, seed_pairs, seeds};
use almanac::errors::ParseError;
use almanac::pipeline::{Category, TranslationCategory, TranslationMap};
use almanac::range::Range;
use almanac::rules::Translations;
use almanac::translation::Translation;

fn to_lines(text: &str) -> Vec<Vec<u8>> {
    text.lines().map(|l| l.as_bytes().to_vec()).collect()
}

const TOY_ALMANAC: &str = "seeds: 79 14 55 13\n\
\n\
seed-to-soil map:\n\
50 98 2\n\
52 50 48\n\
\n\
soil-to-fertilizer map:\n\
0 15 37\n\
37 52 2\n\
39 0 15\n\
\n\
fertilizer-to-water map:\n\
49 53 8\n\
0 11 42\n\
42 0 7\n\
57 7 4\n\
\n\
water-to-light map:\n\
88 18 7\n\
18 25 70\n\
\n\
light-to-temperature map:\n\
45 77 23\n\
81 45 19\n\
68 64 13\n\
\n\
temperature-to-humidity map:\n\
0 69 1\n\
1 0 69\n\
\n\
humidity-to-location map:\n\
60 56 37\n\
56 93 4\n";

fn toy_map() -> TranslationMap {
    let lines = to_lines(TOY_ALMANAC);
    let cats = almanac::almanac::parse_categories(&lines, 2).unwrap();
    TranslationMap::of(&cats).unwrap()
}

#[test]
fn test_translation_join() {
    let that = Translation { range: Range { from: 1, size: 8 }, dest: 8 };
    let other = Translation { range: Range { from: 12, size: 40 }, dest: 100 };
    let result = that.join(&other);
    assert_eq!(
        result,
        [Translation { range: Range { from: 5, size: 4 }, dest: 100 }]
    );
}

#[test]
fn test_translations_join_one() {
    let that = Translations {
        translations: vec![
            Translation { range: Range { from: 1, size: 4 }, dest: 100 },
            Translation { range: Range { from: 10, size: 4 }, dest: 200 },
        ],
    };
    let other = Translation {
        range: Range { from: 102, size: 100 },
        dest: 1000,
    };
    let result = that.join_one(&other);
    // The second overlap begins 98 past the following rule's source start,
    // so its destination start shifts by the same 98.
    assert_eq!(
        result,
        [
            Translation { range: Range { from: 3, size: 2 }, dest: 1000 },
            Translation { range: Range { from: 10, size: 2 }, dest: 1098 },
        ]
    );
}

#[test]
fn test_translate_point_inside_source() {
    // Inside the source interval the rule shifts by a constant offset, and
    // shifting back recovers the value.
    let t = Translation { range: Range { from: 10, size: 5 }, dest: 100 };
    assert_eq!(t.tr_val(12), Some(102));
    assert_eq!(102 - (100 - 10), 12);
    assert_eq!(t.tr_val(10), Some(100));
    assert_eq!(t.tr_val(14), Some(104));
    assert_eq!(t.tr_val(9), None);
    assert_eq!(t.tr_val(15), None);
}

#[test]
fn test_intersect_commutes_and_contains() {
    let a = Range { from: 5, size: 10 };
    let b = Range { from: 12, size: 10 };
    let ab = a.intersect(&b);
    let ba = b.intersect(&a);
    assert_eq!(ab, ba);
    let i = ab.unwrap();
    assert_eq!(i, Range { from: 12, size: 3 });
    assert!(a.from <= i.from && i.from + i.size - 1 <= a.from + a.size - 1);
    assert!(b.from <= i.from && i.from + i.size - 1 <= b.from + b.size - 1);
    let c = Range { from: 100, size: 3 };
    assert_eq!(a.intersect(&c), None);
    assert_eq!(c.intersect(&a), None);
}

#[test]
fn test_lookup_range_conserves_length() {
    // Two rules cover parts of the interval; the uncovered middle and ends
    // pass through unchanged and the piece lengths still total the input.
    let rules = Translations {
        translations: vec![
            Translation { range: Range { from: 10, size: 5 }, dest: 100 },
            Translation { range: Range { from: 20, size: 5 }, dest: 200 },
        ],
    };
    let interval = Range { from: 5, size: 30 };
    let pieces = rules.tr_range(&interval);
    let total: i64 = pieces.iter().map(|p| p.size).sum();
    assert_eq!(total, 30);
}

#[test]
fn test_range_through_single_rule() {
    // The whole interval sits inside one rule: exactly one shifted piece,
    // with no loss or gain in total length.
    let rules = Translations {
        translations: vec![Translation { range: Range { from: 1, size: 8 }, dest: 8 }],
    };
    let pieces = rules.tr_range(&Range { from: 1, size: 8 });
    assert_eq!(pieces, [Range { from: 8, size: 8 }]);
}

#[test]
fn test_stagewise_matches_composed() {
    // Walking all seven stages agrees with one lookup in the composed rule
    // set, on covered seeds and on seeds that fall through gaps.
    let map = toy_map();
    for v in [0i64, 13, 14, 49, 50, 55, 79, 97, 98, 99, 100, 1000] {
        let stagewise = map.tr(v);
        let composed = match map.translations.tr_val(v) {
            Some(x) => x,
            None => v,
        };
        assert_eq!(stagewise, composed);
    }
}

#[test]
fn test_point_examples() {
    // The canonical fixture: the first stage maps 79 to 81, 55 to 57, and
    // leaves the uncovered 14 and 13 in place.
    let lines = to_lines(TOY_ALMANAC);
    let cats = almanac::almanac::parse_categories(&lines, 2).unwrap();
    let seed_stage: &TranslationCategory = TranslationMap::filter(&cats, Category::Seed).unwrap();
    assert_eq!(seed_stage.tr(79), 81);
    assert_eq!(seed_stage.tr(14), 14);
    assert_eq!(seed_stage.tr(55), 57);
    assert_eq!(seed_stage.tr(13), 13);
}

#[test]
fn test_lowest_location_part_one() {
    let lines = to_lines(TOY_ALMANAC);
    assert_eq!(lowest_location(&lines), Ok(35));
}

#[test]
fn test_lowest_location_part_two_matches_brute_force() {
    // The core correctness check of the range engine: translating whole
    // seed intervals finds the same minimum as translating every seed in
    // them one by one.
    let lines = to_lines(TOY_ALMANAC);
    let by_ranges = lowest_location_ranges(&lines).unwrap();
    let map = toy_map();
    let ranges = seed_pairs("seeds: 79 14 55 13").unwrap();
    let mut brute = i64::MAX;
    for r in &ranges {
        for v in r.from..r.from + r.size {
            let loc = map.tr(v);
            if loc < brute {
                brute = loc;
            }
        }
    }
    assert_eq!(by_ranges, brute);
    assert_eq!(by_ranges, 46);
}

#[test]
fn test_seeds_header() {
    let vals = seeds("seeds: 79 14 55 13").unwrap();
    assert_eq!(vals, vec![79, 14, 55, 13]);
    assert_eq!(seeds("seeds"), Err(ParseError::NoSpace));
    assert_eq!(seeds("seeds: 79 x"), Err(ParseError::BadInteger));
}

#[test]
fn test_seed_pairs_header() {
    let ranges = seed_pairs("seeds: 79 14 55 13").unwrap();
    assert_eq!(
        ranges,
        vec![Range { from: 79, size: 14 }, Range { from: 55, size: 13 }]
    );
    // a trailing unpaired value is ignored
    let odd = seed_pairs("seeds: 79 14 55").unwrap();
    assert_eq!(odd, vec![Range { from: 79, size: 14 }]);
    // a pair with a non-positive length is rejected
    assert_eq!(seed_pairs("seeds: 79 0"), Err(ParseError::BadRange));
}

#[test]
fn test_category_names() {
    assert_eq!(Category::of("seed"), Ok(Category::Seed));
    assert_eq!(Category::of("location"), Ok(Category::Location));
    assert_eq!(Category::of("lava"), Err(ParseError::UnknownCategory));
}

#[test]
fn test_translation_from_str() {
    let parts = vec![b"50".to_vec(), b"98".to_vec(), b"2".to_vec()];
    assert_eq!(
        Translation::from_str(&parts),
        Ok(Translation { range: Range { from: 98, size: 2 }, dest: 50 })
    );
    let two = vec![b"50".to_vec(), b"98".to_vec()];
    assert_eq!(Translation::from_str(&two), Err(ParseError::FieldCount));
    let bad = vec![b"50".to_vec(), b"x".to_vec(), b"2".to_vec()];
    assert_eq!(Translation::from_str(&bad), Err(ParseError::BadInteger));
    let zero = vec![b"50".to_vec(), b"98".to_vec(), b"0".to_vec()];
    assert_eq!(Translation::from_str(&zero), Err(ParseError::BadRange));
}

#[test]
fn test_almanac_errors() {
    let empty: Vec<Vec<u8>> = Vec::new();
    assert_eq!(lowest_location(&empty), Err(ParseError::MissingLine));
    let only_header = to_lines("seeds: 79 14");
    assert_eq!(lowest_location(&only_header), Err(ParseError::MissingLine));
    let bad_title = to_lines("seeds: 79 14\n\nseed map:\n50 98 2\n");
    assert_eq!(lowest_location(&bad_title), Err(ParseError::MissingSeparator));
    let bad_category = to_lines("seeds: 79 14\n\nlava-to-rock map:\n50 98 2\n");
    assert_eq!(lowest_location(&bad_category), Err(ParseError::UnknownCategory));
    let one_stage = to_lines("seeds: 79 14\n\nseed-to-soil map:\n50 98 2\n");
    assert_eq!(lowest_location(&one_stage), Err(ParseError::MissingCategory));
    let no_ranges = to_lines(&TOY_ALMANAC.replace("seeds: 79 14 55 13", "seeds: 79"));
    assert_eq!(lowest_location_ranges(&no_ranges), Err(ParseError::NoValues));
}

#[test]
fn test_subtract_pieces() {
    let a = Range { from: 0, size: 10 };
    let mid = Range { from: 3, size: 4 };
    assert_eq!(
        a.substract(&mid),
        vec![Range { from: 0, size: 3 }, Range { from: 7, size: 3 }]
    );
    let all = Range { from: -5, size: 100 };
    assert_eq!(a.substract(&all), Vec::<Range>::new());
    let apart = Range { from: 50, size: 3 };
    assert_eq!(a.substract(&apart), vec![a]);
}

#[test]
fn test_range_constructors() {
    assert_eq!(Range::start_end(3, 7), Some(Range { from: 3, size: 5 }));
    assert_eq!(Range::start_end(7, 3), None);
    assert_eq!(Range::from_size(3, 5), Some(Range { from: 3, size: 5 }));
    assert_eq!(Range::from_size(3, 0), None);
    assert_eq!(Range::from_size(i64::MAX, 2), None);
    let r = Range { from: 3, size: 5 };
    assert_eq!(r.to(), 7);
    assert_eq!(r.move_by(10), Range { from: 13, size: 5 });
    assert_eq!(r.project(100), Range { from: 100, size: 5 });
    assert_eq!(
        r.prefix(&Range { from: 5, size: 10 }),
        Some(Range { from: 3, size: 5 })
    );
    assert_eq!(r.prefix(&Range { from: 2, size: 10 }), None);
    assert_eq!(r.tr_val(4, 100), Some(101));
    assert_eq!(r.tr_val(9, 100), None);
}

#[test]
fn test_describe_messages() {
    assert_eq!(ParseError::NoSpace.describe(), "no space after the header label");
    assert_eq!(
        ParseError::MissingSeparator.describe(),
        "no '-to-' in the map title"
    );
}
