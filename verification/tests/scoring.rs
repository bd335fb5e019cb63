use bigram::bigram::BigramAnalyzer;
use bigram::ratio::Ratio;

const WHOLE: u128 = 100_000_000_000_000_000_000_000_000_000_000_000_000;

fn analyzer(charset: &str, corpus: &str) -> BigramAnalyzer {
    let mut model = BigramAnalyzer::from_corpus(charset.chars().collect(), String::from("corpus"));
    model.analyze_corpus(corpus);
    model
}

fn weights(model: &BigramAnalyzer) -> Vec<u64> {
    let mut all = Vec::new();
    for i in 0..model.size() {
        for j in 0..model.size() {
            all.push(model.weight(model.character(i), model.character(j)));
        }
    }
    all
}

#[test]
fn counts_the_transitions_of_a_small_corpus() {
    let model = analyzer("ab", "aabb");
    assert_eq!(model.total(), 3);
    assert_eq!(model.weight('a', 'a'), 1);
    assert_eq!(model.weight('a', 'b'), 1);
    assert_eq!(model.weight('b', 'a'), 0);
    assert_eq!(model.weight('b', 'b'), 1);
}

#[test]
fn weighted_score_of_a_pair_is_its_probability_over_two() {
    let model = analyzer("ab", "aabb");
    let score = model.weighted_slice_probability("ab");
    assert_eq!(score.num(), 1);
    assert_eq!(score.den(), 6);
    assert!(score.is_greater_than(&Ratio::new(1666, 10000).unwrap()));
    assert!(!score.is_greater_than(&Ratio::new(1667, 10000).unwrap()));
}

#[test]
fn cells_of_a_counted_model_add_up_to_its_total() {
    let model = analyzer("abcdefghijklmnopqrstuvwxyz", "The quick brown fox jumps over the lazy dog");
    let sum: u64 = weights(&model).iter().sum();
    assert_eq!(sum, model.total());
    assert_eq!(model.total(), 26);
}

#[test]
fn a_character_outside_the_alphabet_breaks_the_sequence() {
    let model = analyzer("ab", "a-b ab");
    assert_eq!(model.total(), 1);
    assert_eq!(model.weight('a', 'b'), 1);
    assert_eq!(model.weight('b', 'a'), 0);
}

#[test]
fn a_corpus_without_transitions_gives_a_blank_model() {
    for corpus in ["", "a", "a b a b", "!?"] {
        let model = analyzer("ab", corpus);
        assert_eq!(model.total(), 0);
        assert_eq!(weights(&model), vec![0, 0, 0, 0]);
        let score = model.weighted_slice_probability("abab");
        assert_eq!((score.num(), score.den()), (0, 1));
        let joint = model.slice_probability("abab");
        assert_eq!(joint.num(), 0);
    }
}

#[test]
fn analysis_replaces_what_was_counted_before() {
    let mut model = analyzer("ab", "aaaa");
    assert_eq!(model.weight('a', 'a'), 3);
    model.analyze_corpus("bb");
    assert_eq!(model.total(), 1);
    assert_eq!(model.weight('a', 'a'), 0);
    assert_eq!(model.weight('b', 'b'), 1);
}

#[test]
fn capitals_are_counted_as_small_letters() {
    let upper = analyzer("ab", "AaBb");
    let lower = analyzer("ab", "aabb");
    assert_eq!(weights(&upper), weights(&lower));
    assert_eq!(upper.total(), lower.total());
    assert_eq!(upper.store_matrix(), lower.store_matrix());
    let one = lower.weighted_slice_probability("AB");
    let other = lower.weighted_slice_probability("ab");
    assert_eq!((one.num(), one.den()), (other.num(), other.den()));
}

#[test]
fn only_ascii_capitals_are_folded() {
    let model = analyzer("a\u{e9}", "\u{c9}a\u{141}a");
    assert_eq!(model.total(), 0);
    let model = analyzer("a\u{e9}", "\u{e9}a");
    assert_eq!(model.weight('\u{e9}', 'a'), 1);
    assert_eq!(model.weight('\u{c9}', 'a'), 0);
}

#[test]
fn a_single_character_always_scores_one() {
    let model = analyzer("ab", "aabb");
    let blank = analyzer("ab", "");
    for word in ["a", "b", "z", "!", "A", "\u{e9}"] {
        let score = model.weighted_slice_probability(word);
        assert_eq!((score.num(), score.den()), (1, 1));
        let score = blank.weighted_slice_probability(word);
        assert_eq!((score.num(), score.den()), (1, 1));
    }
}

#[test]
fn a_word_outside_the_alphabet_scores_zero() {
    let model = analyzer("ab", "aabb");
    let score = model.weighted_slice_probability("?!,.;");
    assert_eq!(score.num(), 0);
    assert_eq!(score.den(), 15);
    assert!(!model.is_word_cleartext("?!,.;", None));
}

#[test]
fn the_empty_word_scores_zero() {
    let model = analyzer("ab", "aabb");
    let score = model.weighted_slice_probability("");
    assert_eq!((score.num(), score.den()), (0, 1));
    assert!(!model.is_word_cleartext("", None));
    let joint = model.slice_probability("");
    assert_eq!((joint.num(), joint.den()), (WHOLE, WHOLE));
}

#[test]
fn the_weighted_score_divides_by_all_characters() {
    let model = analyzer("ab", "aabb");
    let score = model.weighted_slice_probability("ab-ab!");
    assert_eq!(score.num(), 2);
    assert_eq!(score.den(), 18);
    let score = model.weighted_slice_probability("aabb");
    assert_eq!((score.num(), score.den()), (3, 12));
}

#[test]
fn the_weighted_score_stays_below_the_largest_probability() {
    let model = analyzer("abc", "abcabcaabbccab");
    let largest = *weights(&model).iter().max().unwrap() as u128;
    let bound = Ratio::new(largest, model.total() as u128).unwrap();
    for word in ["ab", "abc", "cab", "aaaa", "ab ab", "", "xyz", "abcabcabc"] {
        let score = model.weighted_slice_probability(word);
        assert!(!score.is_greater_than(&bound));
    }
}

#[test]
fn the_joint_score_is_the_rounded_product() {
    let model = analyzer("ab", "aabb");
    let one = model.slice_probability("ab");
    assert_eq!(one.num(), WHOLE / 3);
    assert_eq!(one.num(), 33_333_333_333_333_333_333_333_333_333_333_333_333);
    assert_eq!(one.den(), WHOLE);
    let two = model.slice_probability("aab");
    assert_eq!(two.num(), 11_111_111_111_111_111_111_111_111_111_111_111_111);
    let zero = model.slice_probability("aba");
    assert_eq!(zero.num(), 0);
    let broken = model.slice_probability("a-b");
    assert_eq!(broken.num(), WHOLE);
}

#[test]
fn the_joint_score_tells_long_words_apart() {
    let model = analyzer("ab", "aabb");
    let long = model.slice_probability(&"a".repeat(41));
    let longer = model.slice_probability(&"a".repeat(42));
    assert!(long.num() > 0);
    assert!(long.num() < WHOLE / 1_000_000_000_000_000_000);
    assert!(longer.num() > 0);
    assert!(long.is_greater_than(&longer));
}

#[test]
fn the_joint_score_has_a_floor() {
    let model = analyzer("ab", "aabb");
    assert!(model.slice_probability(&"a".repeat(78)).num() > 0);
    assert_eq!(model.slice_probability(&"a".repeat(100)).num(), 0);
}

#[test]
fn the_joint_score_decays_with_length() {
    let model = analyzer("ab", "aabb");
    let mut last = model.slice_probability("a").num();
    for word in ["aa", "aaa", "aaaa", "aaaaa"] {
        let next = model.slice_probability(word).num();
        assert!(next < last);
        last = next;
    }
}

#[test]
fn classification_compares_strictly_with_the_threshold() {
    let model = analyzer("ab", "aabb");
    assert!(model.is_word_cleartext("ab", None));
    assert!(model.is_word_cleartext("ab", Ratio::new(1, 7)));
    assert!(!model.is_word_cleartext("ab", Ratio::new(1, 6)));
    assert!(!model.is_word_cleartext("ab", Ratio::new(1, 5)));
    assert!(!model.is_word_cleartext("ba", None));
    assert!(model.is_word_cleartext("b", Ratio::new(999, 1000)));
}

#[test]
fn raising_the_threshold_never_clears_more() {
    let model = analyzer("abc", "abcabcaabbccab");
    let thresholds = [(0u128, 1u128), (1, 10000), (1, 100), (1, 20), (1, 10), (1, 5), (1, 2), (1, 1)];
    for word in ["ab", "abc", "cab", "aaaa", "ab ab", "", "xyz", "a", "abcabcabc"] {
        let mut cleared = true;
        for (num, den) in thresholds {
            let now = model.is_word_cleartext(word, Ratio::new(num, den));
            assert!(cleared || !now);
            cleared = now;
        }
    }
}

#[test]
fn counting_policy_counts_rare_transitions() {
    let model = analyzer("ab", "aaaaaaaaab");
    assert_eq!(model.total(), 9);
    let min = Ratio::new(1, 2).unwrap();
    assert_eq!(model.rare_transitions("aaa", &min), 0);
    assert_eq!(model.rare_transitions("ab", &min), 1);
    assert_eq!(model.rare_transitions("abab", &min), 3);
    assert_eq!(model.rare_transitions("a-b", &min), 0);
    assert!(model.is_word_cleartext_by_count("ab", Ratio::new(1, 2), 2));
    assert!(!model.is_word_cleartext_by_count("ab", Ratio::new(1, 2), 1));
    assert!(model.is_word_cleartext_by_count("ab", None, 1));
    assert!(!model.is_word_cleartext_by_count("ba", None, 1));
}

#[test]
fn a_fresh_analyzer_is_blank_and_keeps_its_names() {
    let model = BigramAnalyzer::from_corpus(vec!['a', 'b'], String::from("words.txt"));
    assert_eq!(model.size(), 2);
    assert_eq!(model.character(1), 'b');
    assert_eq!(model.total(), 0);
    assert_eq!(model.corpus_filename(), &Some(String::from("words.txt")));
    assert_eq!(model.matrix_filename(), &None);
    let model = BigramAnalyzer::from_matrix(vec!['a', 'b'], String::from("matrix.csv"));
    assert_eq!(model.total(), 0);
    assert_eq!(model.corpus_filename(), &None);
    assert_eq!(model.matrix_filename(), &Some(String::from("matrix.csv")));
    assert_eq!(model.weight('a', 'b'), 0);
}
