use bigram::bigram::BigramAnalyzer;
use bigram::decimal::{fixed_point, parse_field, push_field, Field};
use bigram::storage::{read_matrix, FormatError};
use bigram::text::{chars_of, split_chars};

const ONE: u64 = 1_000_000_000_000_000_000;

fn analyzer(charset: &str, corpus: &str) -> BigramAnalyzer {
    let mut model = BigramAnalyzer::from_corpus(charset.chars().collect(), String::from("corpus"));
    model.analyze_corpus(corpus);
    model
}

fn field(text: &str) -> Option<u64> {
    match parse_field(&text.chars().collect()) {
        Field::Probability(q) => Some(q),
        _ => None,
    }
}

fn reading(text: &str) -> Field {
    parse_field(&text.chars().collect())
}

fn written(q: u64) -> String {
    let mut out = String::new();
    push_field(&mut out, q);
    out
}

fn load_error(text: &str) -> FormatError {
    let mut model = BigramAnalyzer::from_matrix(vec!['x'], String::from("matrix"));
    let result = model.load_matrix(text);
    assert_eq!(model.size(), 1);
    assert_eq!(model.character(0), 'x');
    assert_eq!(model.total(), 0);
    result.unwrap_err()
}

#[test]
fn the_stored_text_of_a_small_model() {
    let model = analyzer("ab", "aabb");
    let expected = "a,b,\n\
                    0.333333333333333333,0.333333333333333333,\n\
                    0,0.333333333333333333,\n";
    assert_eq!(model.store_matrix(), expected);
}

#[test]
fn the_stored_text_of_a_blank_model() {
    let model = BigramAnalyzer::from_corpus(vec!['a'], String::from("corpus"));
    assert_eq!(model.store_matrix(), "a,\n0,\n");
    let model = BigramAnalyzer::from_corpus(Vec::new(), String::from("corpus"));
    assert_eq!(model.store_matrix(), "\n");
}

#[test]
fn a_certain_transition_is_stored_as_one() {
    let model = analyzer("a", "aaaa");
    assert_eq!(model.store_matrix(), "a,\n1,\n");
}

#[test]
fn loading_takes_the_alphabet_and_the_numbers_of_the_text() {
    let mut model = BigramAnalyzer::from_matrix(vec!['x'], String::from("matrix"));
    let text = "a,b,\n0.25,0.5,\n0,1,\n";
    assert_eq!(model.load_matrix(text), Ok(()));
    assert_eq!(model.size(), 2);
    assert_eq!(model.character(0), 'a');
    assert_eq!(model.character(1), 'b');
    assert_eq!(model.total(), ONE);
    assert_eq!(model.weight('a', 'a'), ONE / 4);
    assert_eq!(model.weight('a', 'b'), ONE / 2);
    assert_eq!(model.weight('b', 'a'), 0);
    assert_eq!(model.weight('b', 'b'), ONE);
    assert_eq!(model.matrix_filename(), &Some(String::from("matrix")));
    let score = model.weighted_slice_probability("ab");
    assert_eq!(score.num(), (ONE / 2) as u128);
    assert_eq!(score.den(), 2 * ONE as u128);
}

#[test]
fn loading_what_was_stored_gives_the_stored_probabilities() {
    let model = analyzer("abc", "abcabcaabbccab");
    let text = model.store_matrix();
    let mut loaded = BigramAnalyzer::from_matrix(vec!['x'], String::from("matrix"));
    assert_eq!(loaded.load_matrix(&text), Ok(()));
    assert_eq!(loaded.size(), 3);
    assert_eq!(loaded.total(), ONE);
    for a in ['a', 'b', 'c'] {
        for b in ['a', 'b', 'c'] {
            let exact = model.weight(a, b) as u128 * ONE as u128;
            let kept = loaded.weight(a, b) as u128 * model.total() as u128;
            assert!(kept <= exact);
            assert!(exact < kept + model.total() as u128);
            let before = model.weight(a, b) as f64 / model.total() as f64;
            let after = loaded.weight(a, b) as f64 / loaded.total() as f64;
            assert!((before - after).abs() < 1e-6);
        }
    }
    assert_eq!(loaded.store_matrix(), text);
}

#[test]
fn loading_accepts_what_a_printed_matrix_looks_like() {
    let mut model = BigramAnalyzer::from_matrix(vec!['x'], String::from("matrix"));
    assert_eq!(model.load_matrix("a,b,\r\n0.5,0.25,\r\n0.125,0,\r\n\r\n\n"), Ok(()));
    assert_eq!(model.weight('b', 'a'), ONE / 8);
    assert_eq!(model.load_matrix("ab\n0.5,0.25\n0.125,0"), Ok(()));
    assert_eq!(model.weight('a', 'b'), ONE / 4);
    assert_eq!(model.load_matrix("\n"), Ok(()));
    assert_eq!(model.size(), 0);
}

#[test]
fn an_empty_text_has_no_header() {
    assert_eq!(load_error(""), FormatError::MissingHeader);
}

#[test]
fn a_header_may_not_repeat_a_character() {
    assert_eq!(load_error("a,b,a,\n"), FormatError::RepeatedCharacter);
}

#[test]
fn every_header_character_needs_its_row() {
    assert_eq!(load_error("a,b,"), FormatError::MissingRow { row: 0 });
    assert_eq!(load_error("a,b,\n0.5,0.5,"), FormatError::MissingRow { row: 1 });
}

#[test]
fn every_row_needs_one_field_per_character() {
    assert_eq!(load_error("a,b,\n0.5,\n0.5,0.5,\n"), FormatError::FieldCount { row: 0 });
    assert_eq!(load_error("a,b,\n0.5,0.5,\n0.1,0.2,0.3,\n"), FormatError::FieldCount { row: 1 });
    assert_eq!(load_error("a,b,\n\n0.5,0.5,\n"), FormatError::FieldCount { row: 0 });
}

#[test]
fn every_field_must_be_a_probability() {
    assert_eq!(load_error("a,b,\n0.5,x,\n0,0,\n"), FormatError::BadField { row: 0, column: 1 });
    assert_eq!(load_error("a,b,\n0.5,1e,\n0,0,\n"), FormatError::BadField { row: 0, column: 1 });
    assert_eq!(load_error("a,b,\n0.5,inf,\n0,0,\n"), FormatError::BadField { row: 0, column: 1 });
    assert_eq!(load_error("a,b,\n0.5,,\n0,0,\n"), FormatError::BadField { row: 0, column: 1 });
    assert_eq!(load_error("a,b,\nNaN,NaN,\nNaN,NaN,\n"), FormatError::BadField { row: 0, column: 0 });
}

#[test]
fn every_number_must_be_a_probability() {
    assert_eq!(load_error("a,b,\n0.5,0.5,\n1.5,0,\n"), FormatError::NotProbability { row: 1, column: 0 });
    assert_eq!(load_error("a,b,\n0.5,-0.5,\n0,0,\n"), FormatError::NotProbability { row: 0, column: 1 });
    assert_eq!(load_error("a,\n2,\n"), FormatError::NotProbability { row: 0, column: 0 });
    assert_eq!(load_error("a,\n1e1,\n"), FormatError::NotProbability { row: 0, column: 0 });
    assert_eq!(load_error("a,b,\n-1e-30,x,\n0,0,\n"), FormatError::NotProbability { row: 0, column: 0 });
}

#[test]
fn the_stored_text_of_a_certain_transition() {
    let model = analyzer("ab", "ab");
    assert_eq!(model.store_matrix(), "a,b,\n0,1,\n0,0,\n");
}

#[test]
fn the_stored_text_follows_the_order_of_the_alphabet() {
    let model = analyzer("ba", "ab");
    assert_eq!(model.store_matrix(), "b,a,\n0,0,\n1,0,\n");
}

#[test]
fn storing_what_was_loaded_gives_the_text_back() {
    let mut model = BigramAnalyzer::from_matrix(vec!['x', 'y'], String::from("matrix"));
    let text = "a,b,\n0,1,\n0,0,\n";
    assert_eq!(model.load_matrix(text), Ok(()));
    assert_eq!(model.size(), 2);
    assert_eq!(model.character(0), 'a');
    assert_eq!(model.character(1), 'b');
    assert_eq!(model.store_matrix(), text);
    let score = model.weighted_slice_probability("ab");
    assert_eq!(score.num() * 2, score.den());
    let text = "a,b,\n0.5,0.25,\n0.125,0.000000000000000001,\n";
    assert_eq!(model.load_matrix(text), Ok(()));
    assert_eq!(model.store_matrix(), text);
}

#[test]
fn numbers_are_read_as_floats_are_written() {
    let mut model = BigramAnalyzer::from_matrix(vec!['x'], String::from("matrix"));
    assert_eq!(model.load_matrix("a,\n1e-3,\n"), Ok(()));
    assert_eq!(model.weight('a', 'a'), ONE / 1000);
    assert_eq!(model.load_matrix("a,b,\n+0.5,.25,\n5.E-1,-0.0,\n"), Ok(()));
    assert_eq!(model.weight('a', 'a'), ONE / 2);
    assert_eq!(model.weight('a', 'b'), ONE / 4);
    assert_eq!(model.weight('b', 'a'), ONE / 2);
    assert_eq!(model.weight('b', 'b'), 0);
    assert_eq!(model.load_matrix("a,b,\n0.33333334,0.0009765625,\n1,0,\n"), Ok(()));
    assert_eq!(model.weight('a', 'a'), 333_333_340_000_000_000);
    assert_eq!(model.weight('a', 'b'), 976_562_500_000_000);
}

#[test]
fn nothing_may_follow_the_last_row() {
    assert_eq!(load_error("a,\n0.5,\n0.5,\n"), FormatError::TrailingText { line: 2 });
    assert_eq!(load_error("a,\n0.5,\n\n\nmore"), FormatError::TrailingText { line: 4 });
}

#[test]
fn the_first_fault_is_the_one_reported() {
    assert_eq!(load_error("a,b,\n0.5,x,\n0.5,\n"), FormatError::BadField { row: 0, column: 1 });
    assert_eq!(load_error("a,b,\n0.5,\nx,y,\n"), FormatError::FieldCount { row: 0 });
    assert_eq!(load_error("a,a,\nx\n"), FormatError::RepeatedCharacter);
}

#[test]
fn reading_gives_alphabet_and_cells() {
    let (charset, cells) = read_matrix("a,b,\n0.1,0.2,\n0.3,0.4,\n").unwrap();
    assert_eq!(charset.len(), 2);
    assert_eq!(charset.get(0), 'a');
    assert_eq!(cells, vec![ONE / 10, ONE / 5, 3 * (ONE / 10), 2 * (ONE / 5)]);
    assert!(read_matrix("a,\n2,\n").is_err());
}

#[test]
fn fields_are_read_as_fixed_point() {
    assert_eq!(field("0"), Some(0));
    assert_eq!(field("1"), Some(ONE));
    assert_eq!(field("0.5"), Some(ONE / 2));
    assert_eq!(field("0."), Some(0));
    assert_eq!(field("00"), Some(0));
    assert_eq!(field("1.000"), Some(ONE));
    assert_eq!(field("000.25"), Some(ONE / 4));
    assert_eq!(field("0.33333334"), Some(333_333_340_000_000_000));
    assert_eq!(field("0.000000000000000001"), Some(1));
    assert_eq!(field("0.999999999999999999"), Some(ONE - 1));
}

#[test]
fn places_after_the_eighteenth_are_dropped() {
    assert_eq!(field("0.0000000000000000019"), Some(1));
    assert_eq!(field("0.00000000000000000099"), Some(0));
    assert_eq!(field("1.0000000000000000009"), Some(ONE));
    assert_eq!(field("0.1234567890123456789012345"), Some(123_456_789_012_345_678));
}

#[test]
fn a_field_may_have_a_sign_a_point_and_an_exponent() {
    assert_eq!(field("+0.5"), Some(ONE / 2));
    assert_eq!(field(".5"), Some(ONE / 2));
    assert_eq!(field("5."), None);
    assert_eq!(field("1."), Some(ONE));
    assert_eq!(field("1e-3"), Some(ONE / 1000));
    assert_eq!(field("1E-3"), Some(ONE / 1000));
    assert_eq!(field("1e-03"), Some(ONE / 1000));
    assert_eq!(field("10e-1"), Some(ONE));
    assert_eq!(field("0.1e1"), Some(ONE));
    assert_eq!(field("0.1e+1"), Some(ONE));
    assert_eq!(field("1.5e-1"), Some(150_000_000_000_000_000));
    assert_eq!(field("125e-3"), Some(ONE / 8));
    assert_eq!(field("1e-18"), Some(1));
    assert_eq!(field("1e-19"), Some(0));
    assert_eq!(field("19e-19"), Some(1));
    assert_eq!(field("0.00001e5"), Some(ONE));
    assert_eq!(field("-0"), Some(0));
    assert_eq!(field("-0.000e5"), Some(0));
    assert_eq!(field("0e99999999999999999999999999999999"), Some(0));
    assert_eq!(field("1e-99999999999999999999999999999999"), Some(0));
    assert_eq!(field("123456789e-99999999999999999999999999999999"), Some(0));
}

#[test]
fn a_number_outside_zero_to_one_is_out_of_range() {
    for text in ["2", "10", "1.5", "1.000000000000000001", "99999999999999999999999999",
        "0.5e1", "1e1", "1e99999999999999999999999999999999", "-0.5", "-1", "-1e-30",
        "-0.000000000000000000000001", "+1.1", "0.0000000000000000011e18"]
    {
        assert_eq!(reading(text), Field::OutOfRange);
    }
}

#[test]
fn what_is_no_number_is_malformed() {
    for text in ["", ".", "+", "-", "+.", "e5", ".e5", "1e", "1e+", "1e-", "1e5.0", "1e5e5", "abc",
        "0.5 ", " 0.5", "0..5", "0.5.1", "NaN", "nan", "inf", "-inf", "infinity", "0,5", "1x",
        "--1", "+-1", "1_000", "0x10", "\u{661}"]
    {
        assert_eq!(reading(text), Field::Malformed);
    }
}

#[test]
fn fields_are_written_in_the_shortest_form() {
    assert_eq!(written(0), "0");
    assert_eq!(written(ONE), "1");
    assert_eq!(written(ONE / 2), "0.5");
    assert_eq!(written(ONE / 8), "0.125");
    assert_eq!(written(ONE / 10), "0.1");
    assert_eq!(written(1), "0.000000000000000001");
    assert_eq!(written(10), "0.00000000000000001");
    assert_eq!(written(ONE / 3), "0.333333333333333333");
    assert_eq!(written(123_456_789_012_345_678), "0.123456789012345678");
    assert_eq!(written(120_000_000_000_000_000), "0.12");
    assert_eq!(written(ONE - 1), "0.999999999999999999");
    let mut out = String::from("x,");
    push_field(&mut out, ONE / 2);
    assert_eq!(out, "x,0.5");
}

#[test]
fn what_is_written_is_read_back() {
    for q in [0, 1, 9, 10, ONE / 3, ONE / 7, ONE - 1, ONE, 500_000_000_000_000_000] {
        assert_eq!(field(&written(q)), Some(q));
    }
}

#[test]
fn fixed_point_rounds_down() {
    assert_eq!(fixed_point(1, 3), ONE / 3);
    assert_eq!(fixed_point(2, 3), 666_666_666_666_666_666);
    assert_eq!(fixed_point(3, 3), ONE);
    assert_eq!(fixed_point(0, 3), 0);
    assert_eq!(fixed_point(0, 0), 0);
    assert_eq!(fixed_point(u64::MAX, u64::MAX), ONE);
    assert_eq!(fixed_point(1, u64::MAX), 0);
}

#[test]
fn text_is_cut_at_every_separator() {
    let cut = |text: &str| -> Vec<String> {
        split_chars(&text.chars().collect(), ',').iter().map(|p| p.iter().collect()).collect()
    };
    assert_eq!(cut(""), vec![""]);
    assert_eq!(cut("a"), vec!["a"]);
    assert_eq!(cut("a,b"), vec!["a", "b"]);
    assert_eq!(cut("a,b,"), vec!["a", "b", ""]);
    assert_eq!(cut(",,"), vec!["", "", ""]);
    assert_eq!(cut("ab,,c"), vec!["ab", "", "c"]);
}

#[test]
fn a_string_gives_its_characters() {
    assert_eq!(chars_of("a\u{e9}\u{1f600}b"), vec!['a', '\u{e9}', '\u{1f600}', 'b']);
    assert_eq!(chars_of(""), Vec::<char>::new());
}

fn floats(model: &BigramAnalyzer) -> Vec<Vec<String>> {
    let mut rows = Vec::new();
    for i in 0..model.size() {
        let mut row = Vec::new();
        for j in 0..model.size() {
            let chance = if model.total() == 0 {
                0.0
            } else {
                model.cell(i, j) as f32 / model.total() as f32
            };
            row.push(chance.to_string());
        }
        rows.push(row);
    }
    rows
}

#[test]
fn fields_written_as_floats_are_laid_out_as_they_are() {
    let model = analyzer("ab", "aabb");
    let text = model.store_matrix_as(&floats(&model)).unwrap();
    assert_eq!(text, "a,b,\n0.33333334,0.33333334,\n0,0.33333334,\n");
    let model = analyzer("ab", "ab");
    assert_eq!(model.store_matrix_as(&floats(&model)).unwrap(), "a,b,\n0,1,\n0,0,\n");
    let model = analyzer("ba", "ab");
    assert_eq!(model.store_matrix_as(&floats(&model)).unwrap(), "b,a,\n0,0,\n1,0,\n");
}

#[test]
fn fields_written_as_floats_are_read_back_within_a_millionth() {
    let model = analyzer("abc", "abcabcaabbccab");
    let text = model.store_matrix_as(&floats(&model)).unwrap();
    let mut loaded = BigramAnalyzer::from_matrix(vec!['x'], String::from("matrix"));
    assert_eq!(loaded.load_matrix(&text), Ok(()));
    for i in 0..3 {
        for j in 0..3 {
            let before = model.cell(i, j) as f64 / model.total() as f64;
            let after = loaded.cell(i, j) as f64 / loaded.total() as f64;
            assert!((before - after).abs() < 1e-6);
        }
    }
}

#[test]
fn fields_that_do_not_stand_for_the_model_are_refused() {
    let model = analyzer("ab", "aabb");
    let text = |s: &str| String::from(s);
    let good = vec![vec![text("0.3333333"), text("3.333337e-1")], vec![text("-0"), text(".33333334")]];
    assert!(model.store_matrix_as(&good).is_some());
    assert!(model.print_matrix_as(&good).is_some());
    let off = vec![vec![text("0.3333333"), text("0.33333")], vec![text("0"), text("0.5")]];
    assert_eq!(model.store_matrix_as(&off), None);
    assert_eq!(model.print_matrix_as(&off), None);
    let short = vec![vec![text("0.3333333"), text("0.3333333")]];
    assert_eq!(model.store_matrix_as(&short), None);
    let ragged = vec![vec![text("0.3333333")], vec![text("0"), text("0.3333333")]];
    assert_eq!(model.store_matrix_as(&ragged), None);
    let words = vec![vec![text("0.3333333"), text("a third")], vec![text("0"), text("0.3333333")]];
    assert_eq!(model.store_matrix_as(&words), None);
    let blank = BigramAnalyzer::from_corpus(Vec::new(), String::from("corpus"));
    assert_eq!(blank.store_matrix_as(&Vec::new()), Some(String::from("\n")));
}

#[test]
fn a_cell_is_found_by_its_places() {
    let model = analyzer("ab", "aabb");
    assert_eq!(model.cell(0, 0), 1);
    assert_eq!(model.cell(0, 1), 1);
    assert_eq!(model.cell(1, 0), 0);
    assert_eq!(model.cell(1, 1), 1);
}
