use ffzf::error::MatchError;
use ffzf::hamming::hamming_distance;
use ffzf::jaro::{
    jaro_similarity, jaro_winkler_similarity, jaro_winkler_similarity_with_threshold,
};
use ffzf::natural::Natural;
use ffzf::levenshtein::levenshtein_distance;
use ffzf::score::{Score, Similarity};

fn small(n: &Natural) -> u128 {
    let limbs = n.limbs();
    assert!(limbs.iter().skip(2).all(|limb| *limb == 0));
    let low = limbs.first().copied().unwrap_or(0) as u128;
    let high = limbs.get(1).copied().unwrap_or(0) as u128;
    (high << 64) | low
}

fn fraction(s: Similarity) -> (u128, u128) {
    (small(&s.num), small(&s.den))
}

fn as_float(s: Similarity) -> f64 {
    small(&s.num) as f64 / small(&s.den) as f64
}

#[test]
fn levenshtein_of_known_pairs() {
    assert_eq!(levenshtein_distance("kitten", "sitting"), 3);
    assert_eq!(levenshtein_distance("flaw", "lawn"), 2);
    assert_eq!(levenshtein_distance("saturday", "sunday"), 3);
    assert_eq!(levenshtein_distance("intention", "execution"), 5);
    assert_eq!(levenshtein_distance("kitten", "mitten"), 1);
}

#[test]
fn levenshtein_of_empty_strings() {
    assert_eq!(levenshtein_distance("", ""), 0);
    assert_eq!(levenshtein_distance("", "abc"), 3);
    assert_eq!(levenshtein_distance("abcd", ""), 4);
}

#[test]
fn levenshtein_counts_characters_not_bytes() {
    assert_eq!(levenshtein_distance("héllo", "hello"), 1);
    assert_eq!(levenshtein_distance("日本語", "日本"), 1);
    assert_eq!(levenshtein_distance("日本語", ""), 3);
    assert_eq!(levenshtein_distance("ü", "u"), 1);
}

#[test]
fn levenshtein_of_a_string_with_itself_is_zero() {
    for s in ["", "a", "kitten", "日本語", "the quick brown fox"] {
        assert_eq!(levenshtein_distance(s, s), 0);
    }
}

#[test]
fn levenshtein_is_symmetric() {
    let words = ["", "a", "kitten", "sitting", "mitten", "日本語", "lawn"];
    for a in words {
        for b in words {
            assert_eq!(levenshtein_distance(a, b), levenshtein_distance(b, a));
        }
    }
}

#[test]
fn levenshtein_obeys_the_triangle_inequality() {
    let words = ["", "a", "kitten", "sitting", "mitten", "flaw", "lawn", "law"];
    for a in words {
        for b in words {
            for c in words {
                assert!(
                    levenshtein_distance(a, c)
                        <= levenshtein_distance(a, b) + levenshtein_distance(b, c)
                );
            }
        }
    }
}

#[test]
fn levenshtein_is_bounded_by_the_longer_length() {
    let words = ["", "a", "kitten", "sitting", "xyz", "日本語"];
    for a in words {
        for b in words {
            let longer = a.chars().count().max(b.chars().count());
            let gap = a.chars().count().abs_diff(b.chars().count());
            let d = levenshtein_distance(a, b);
            assert!(gap <= d && d <= longer);
        }
    }
}

#[test]
fn hamming_of_known_pairs() {
    assert_eq!(hamming_distance("karolin", "kathrin"), Ok(3));
    assert_eq!(hamming_distance("karolin", "kerstin"), Ok(3));
    assert_eq!(hamming_distance("1011101", "1001001"), Ok(2));
    assert_eq!(hamming_distance("", ""), Ok(0));
    assert_eq!(hamming_distance("héllo", "hallo"), Ok(1));
}

#[test]
fn hamming_refuses_different_lengths() {
    assert_eq!(hamming_distance("abc", "ab"), Err(MatchError::LengthMismatch));
    assert_eq!(hamming_distance("", "a"), Err(MatchError::LengthMismatch));
    assert_eq!(hamming_distance("日本語", "日本"), Err(MatchError::LengthMismatch));
}

#[test]
fn hamming_compares_lengths_in_characters() {
    // Two characters each, though three bytes against two.
    assert_eq!(hamming_distance("éa", "ab"), Ok(2));
}

#[test]
fn hamming_of_a_string_with_itself_is_zero() {
    for s in ["", "a", "karolin", "日本語"] {
        assert_eq!(hamming_distance(s, s), Ok(0));
    }
}

#[test]
fn hamming_is_symmetric() {
    let words = ["karolin", "kathrin", "kerstin", "1011101"];
    for a in words {
        for b in words {
            assert_eq!(hamming_distance(a, b), hamming_distance(b, a));
        }
    }
}

#[test]
fn jaro_of_empty_strings() {
    assert_eq!(fraction(jaro_similarity("", "")), (1, 1));
    assert_eq!(fraction(jaro_similarity("", "x")), (0, 1));
    assert_eq!(fraction(jaro_similarity("x", "")), (0, 1));
    assert_eq!(as_float(jaro_similarity("", "x")), 0.0);
    assert_eq!(as_float(jaro_similarity("", "")), 1.0);
    assert_eq!(as_float(jaro_similarity("x", "")), 0.0);
}

#[test]
fn jaro_of_known_pairs() {
    assert_eq!(fraction(jaro_similarity("MARTHA", "MARHTA")), (612, 648));
    assert_eq!(fraction(jaro_similarity("DIXON", "DICKSONX")), (368, 480));
    assert_eq!(fraction(jaro_similarity("CRATE", "TRACE")), (165, 225));
    assert_eq!(fraction(jaro_similarity("DWAYNE", "DUANE")), (296, 360));
    assert_eq!(fraction(jaro_similarity("JELLYFISH", "SMELLYFISH")), (1936, 2160));
    assert!((as_float(jaro_similarity("MARTHA", "MARHTA")) - 0.9444444).abs() < 1e-6);
    assert!((as_float(jaro_similarity("DIXON", "DICKSONX")) - 0.7666667).abs() < 1e-6);
}

#[test]
fn jaro_without_a_match_is_zero() {
    assert_eq!(fraction(jaro_similarity("abc", "xyz")), (0, 1));
    // The window of two-character strings is the position itself.
    assert_eq!(fraction(jaro_similarity("ab", "ba")), (0, 1));
}

#[test]
fn jaro_of_equal_strings_is_one() {
    for s in ["a", "hello", "MARTHA", "日本語"] {
        let (num, den) = fraction(jaro_similarity(s, s));
        assert_eq!(num, den);
        let (num, den) = fraction(jaro_winkler_similarity(s, s));
        assert_eq!(num, den);
    }
}

#[test]
fn jaro_counts_characters_not_bytes() {
    assert_eq!(fraction(jaro_similarity("héllo", "hello")), (260, 300));
}

#[test]
fn jaro_winkler_of_known_pairs() {
    assert_eq!(fraction(jaro_winkler_similarity("MARTHA", "MARHTA")), (6228, 6480));
    assert_eq!(fraction(jaro_winkler_similarity("DIXON", "DICKSONX")), (3904, 4800));
    assert_eq!(fraction(jaro_winkler_similarity("DWAYNE", "DUANE")), (3024, 3600));
    assert_eq!(fraction(jaro_winkler_similarity("CRATE", "TRACE")), (1650, 2250));
    assert!(
        (as_float(jaro_winkler_similarity("MARTHA", "MARHTA")) - 0.9611111).abs() < 1e-6
    );
    assert!((as_float(jaro_winkler_similarity("DWAYNE", "DUANE")) - 0.84).abs() < 1e-9);
}

#[test]
fn jaro_winkler_of_empty_strings() {
    assert_eq!(as_float(jaro_winkler_similarity("", "")), 1.0);
    assert_eq!(as_float(jaro_winkler_similarity("", "x")), 0.0);
    assert_eq!(as_float(jaro_winkler_similarity("x", "")), 0.0);
}

#[test]
fn jaro_winkler_rewards_at_most_four_characters() {
    // Eight characters in common at the start, four of them rewarded.
    assert_eq!(fraction(jaro_winkler_similarity("aaaaaaaa", "a")), (177, 240));
    let (long_num, long_den) = fraction(jaro_winkler_similarity("prefixed_one", "prefixed_two"));
    let (num, den) = fraction(jaro_similarity("prefixed_one", "prefixed_two"));
    assert_eq!(long_num, 10 * num + 4 * (den - num));
    assert_eq!(long_den, 10 * den);
}

#[test]
fn similarities_lie_between_zero_and_one() {
    let words = ["", "a", "ab", "ba", "hello", "hallo", "world", "MARTHA", "MARHTA", "日本語"];
    for a in words {
        for b in words {
            let (num, den) = fraction(jaro_similarity(a, b));
            assert!(den > 0 && num <= den);
            let (num, den) = fraction(jaro_winkler_similarity(a, b));
            assert!(den > 0 && num <= den);
            assert!((0.0..=1.0).contains(&as_float(jaro_similarity(a, b))));
            assert!((0.0..=1.0).contains(&as_float(jaro_winkler_similarity(a, b))));
        }
    }
}

#[test]
fn jaro_winkler_is_never_below_jaro() {
    let words = ["a", "ab", "hello", "hallo", "help", "helium", "MARTHA", "MARHTA", "日本語"];
    for a in words {
        for b in words {
            let j = jaro_similarity(a, b);
            let w = jaro_winkler_similarity(a, b);
            assert!(!w.is_less_than(&j));
            assert!(as_float(w) >= as_float(j));
        }
    }
}

#[test]
fn similarity_of_long_strings_is_exact() {
    let long = "a".repeat(600_000);
    assert_eq!(fraction(jaro_similarity(&long, "a")), (1_200_001, 1_800_000));
    assert_eq!(fraction(jaro_similarity("a", &long)), (1_200_001, 1_800_000));
    assert_eq!(fraction(jaro_winkler_similarity(&long, "a")), (12_600_009, 18_000_000));
    assert_eq!(fraction(jaro_similarity(&long, "b")), (0, 1));
    assert_eq!(fraction(jaro_similarity(&long, "")), (0, 1));
}

#[test]
fn similarity_terms_grow_past_a_machine_word() {
    // Two thousand equal characters against themselves: the terms are
    // three times the cube of the length.
    let word: String = (0..2000).map(|i| char::from_u32(0x4e00 + i).unwrap()).collect();
    let cube = 2000u128 * 2000 * 2000;
    assert_eq!(fraction(jaro_similarity(&word, &word)), (3 * cube, 3 * cube));
    assert_eq!(fraction(jaro_winkler_similarity(&word, &word)), (30 * cube, 30 * cube));
}

#[test]
fn similarity_order_is_by_value() {
    let half = jaro_similarity("ab", "ax");
    let zero = Similarity::zero();
    let one = Similarity::one();
    assert!(zero.is_less_than(&half));
    assert!(half.is_less_than(&one));
    assert!(!one.is_less_than(&one));
    assert!(!half.is_less_than(&zero));
    // The same value in different terms is not less either way.
    let third = Similarity::new(1, 3).unwrap();
    let ninth = Similarity::new(3, 9).unwrap();
    assert!(!third.is_less_than(&ninth) && !ninth.is_less_than(&third));
}

#[test]
fn similarity_order_holds_for_terms_of_any_size() {
    let huge = Natural::from_u64(u64::MAX).times_small(u64::MAX).times_small(u64::MAX);
    let den = huge.times(&huge);
    let more = Similarity { num: huge.times_small(u64::MAX), den: den.clone() };
    let less = Similarity { num: huge.times_small(u64::MAX - 1), den: den.clone() };
    assert!(less.is_less_than(&more));
    assert!(!more.is_less_than(&less));
    assert!(!more.is_less_than(&more.clone()));
    let half = Similarity::new(1, 2).unwrap();
    assert!(more.is_less_than(&half));
    assert!(Score::Similarity(half).is_better_than(&Score::Similarity(more)));
}

#[test]
fn score_order_prefers_low_distance_and_high_similarity() {
    assert!(Score::Distance(1).is_better_than(&Score::Distance(2)));
    assert!(!Score::Distance(2).is_better_than(&Score::Distance(2)));
    assert!(!Score::Distance(3).is_better_than(&Score::Distance(2)));
    let high = Score::Similarity(jaro_similarity("MARTHA", "MARHTA"));
    let low = Score::Similarity(jaro_similarity("DIXON", "DICKSONX"));
    assert!(high.is_better_than(&low));
    assert!(!low.is_better_than(&high));
    assert!(!high.is_better_than(&high.clone()));
}

#[test]
fn similarity_is_made_of_a_proper_fraction_only() {
    let s = Similarity::new(7, 10).unwrap();
    assert_eq!(fraction(s), (7, 10));
    assert_eq!(fraction(Similarity::new(0, 5).unwrap()), (0, 5));
    assert_eq!(fraction(Similarity::new(5, 5).unwrap()), (5, 5));
    assert!(Similarity::new(1, 0).is_none());
    assert!(Similarity::new(0, 0).is_none());
    assert!(Similarity::new(6, 5).is_none());
    assert_eq!(fraction(Similarity::zero()), (0, 1));
    assert_eq!(fraction(Similarity::one()), (1, 1));
}

#[test]
fn boost_threshold_of_zero_gates_nothing() {
    let words = ["", "a", "hello", "hallo", "help", "world", "MARTHA", "MARHTA"];
    for a in words {
        for b in words {
            let gated = jaro_winkler_similarity_with_threshold(a, b, &Similarity::zero());
            let plain = jaro_winkler_similarity(a, b);
            assert_eq!(fraction(gated), fraction(plain));
        }
    }
}

#[test]
fn boost_threshold_withholds_the_bonus_below_it() {
    let threshold = Similarity::new(7, 10).unwrap();
    // 0.9444 is not below 0.7: boosted.
    let high = jaro_winkler_similarity_with_threshold("MARTHA", "MARHTA", &threshold);
    assert_eq!(fraction(high), (6228, 6480));
    // "abcdxxxx" and "abcdyyyy" share four characters of eight: 0.6667 is below 0.7.
    assert_eq!(fraction(jaro_similarity("abcdxxxx", "abcdyyyy")), (512, 768));
    let low = jaro_winkler_similarity_with_threshold("abcdxxxx", "abcdyyyy", &threshold);
    assert_eq!(fraction(low), (5120, 7680));
    let boosted = jaro_winkler_similarity("abcdxxxx", "abcdyyyy");
    assert_eq!(fraction(boosted), (5120 + 4 * 256, 7680));
    // A score that equals the threshold is boosted.
    let equal = Similarity::new(2, 3).unwrap();
    let at = jaro_winkler_similarity_with_threshold("abcdxxxx", "abcdyyyy", &equal);
    assert_eq!(fraction(at), (5120 + 4 * 256, 7680));
}


#[test]
fn levenshtein_is_at_most_hamming() {
    let words = ["karolin", "kathrin", "kerstin", "1011101", "1001001", "abcdefg"];
    for a in words {
        for b in words {
            assert!(levenshtein_distance(a, b) <= hamming_distance(a, b).unwrap());
        }
    }
    // Shifting by one position: two edits, seven mismatches.
    assert_eq!(levenshtein_distance("abcdefg", "bcdefga"), 2);
    assert_eq!(hamming_distance("abcdefg", "bcdefga"), Ok(7));
}
