use bigram::bigram::BigramAnalyzer;
use bigram::filter::{Bucket, WordFilter};
use bigram::source::is_remote;

fn analyzer(charset: &str, corpus: &str) -> BigramAnalyzer {
    let mut model = BigramAnalyzer::from_corpus(charset.chars().collect(), String::from("corpus"));
    model.analyze_corpus(corpus);
    model
}

#[test]
fn the_table_has_a_title_row_and_one_row_per_character() {
    let model = analyzer("ab", "aabb");
    let rows = model.matrix_table();
    assert_eq!(rows.len(), 3);
    assert_eq!(rows[0], vec!["MATRIX", "a", "b"]);
    assert_eq!(rows[1], vec!["a", "0.333333333333333333", "0.333333333333333333"]);
    assert_eq!(rows[2], vec!["b", "0", "0.333333333333333333"]);
}

#[test]
fn the_table_of_an_empty_alphabet_has_its_corner_only() {
    let model = BigramAnalyzer::from_corpus(Vec::new(), String::from("corpus"));
    assert_eq!(model.matrix_table(), vec![vec![String::from("MATRIX")]]);
}

#[test]
fn the_table_is_drawn_in_the_default_format() {
    let model = analyzer("ab", "aabb");
    let expected = "\
+--------+----------------------+----------------------+
| MATRIX | a                    | b                    |
+--------+----------------------+----------------------+
| a      | 0.333333333333333333 | 0.333333333333333333 |
+--------+----------------------+----------------------+
| b      | 0                    | 0.333333333333333333 |
+--------+----------------------+----------------------+
";
    assert_eq!(model.print_matrix(), expected);
}

#[test]
fn a_certain_transition_is_drawn_as_one() {
    let model = analyzer("ab", "ab");
    let rows = model.matrix_table();
    assert_eq!(rows[1], vec!["a", "0", "1"]);
    assert_eq!(rows[2], vec!["b", "0", "0"]);
    let expected = "\
+--------+---+---+
| MATRIX | a | b |
+--------+---+---+
| a      | 0 | 1 |
+--------+---+---+
| b      | 0 | 0 |
+--------+---+---+
";
    assert_eq!(model.print_matrix(), expected);
}

#[test]
fn the_table_is_what_the_drawing_crate_makes_of_its_cells() {
    let model = analyzer("abc", "abcabcaabbccab");
    let mut table = prettytable::Table::new();
    for cells in model.matrix_table() {
        let mut row = prettytable::Row::new(Vec::new());
        for cell in cells {
            row.add_cell(prettytable::Cell::new(cell.as_str()));
        }
        table.add_row(row);
    }
    assert_eq!(model.print_matrix(), table.to_string());
}

#[test]
fn web_addresses_are_remote() {
    assert!(is_remote("http://example.org/words.txt"));
    assert!(is_remote("https://example.org/words.txt"));
    assert!(is_remote("http://"));
    assert!(!is_remote("words.txt"));
    assert!(!is_remote("/tmp/http://x"));
    assert!(!is_remote("http:/x"));
    assert!(!is_remote("HTTP://example.org"));
    assert!(!is_remote("ftp://example.org"));
    assert!(!is_remote(""));
}

#[test]
fn a_filter_lets_its_bucket_through() {
    let mut clear = WordFilter::new(Bucket::Clear, false);
    assert!(clear.passes("word", true));
    assert!(!clear.passes("x9f3", false));
    assert!(clear.passes("word", true));
    let mut hashed = WordFilter::new(Bucket::Hashed, false);
    assert!(!hashed.passes("word", true));
    assert!(hashed.passes("x9f3", false));
    assert!(hashed.passes("x9f3", false));
}

#[test]
fn a_unique_filter_lets_each_word_through_once() {
    let mut clear = WordFilter::new(Bucket::Clear, true);
    assert!(clear.passes("word", true));
    assert!(!clear.passes("word", true));
    assert!(clear.passes("other", true));
    assert!(!clear.passes("x9f3", false));
    assert!(!clear.passes("other", true));
    assert!(clear.passes("Word", true));
    let mut hashed = WordFilter::new(Bucket::Hashed, true);
    assert!(hashed.passes("x9f3", false));
    assert!(!hashed.passes("x9f3", false));
    assert!(!hashed.passes("word", true));
    assert!(hashed.passes("word", false));
}

#[test]
fn a_word_that_was_held_back_is_not_remembered() {
    let mut clear = WordFilter::new(Bucket::Clear, true);
    assert!(!clear.passes("word", false));
    assert!(clear.passes("word", true));
}

#[test]
fn the_table_shows_fields_written_as_floats() {
    let model = analyzer("ab", "aabb");
    let text = |s: &str| String::from(s);
    let fields = vec![vec![text("0.33333334"), text("0.33333334")], vec![text("0"), text("0.33333334")]];
    let expected = "\
+--------+------------+------------+
| MATRIX | a          | b          |
+--------+------------+------------+
| a      | 0.33333334 | 0.33333334 |
+--------+------------+------------+
| b      | 0          | 0.33333334 |
+--------+------------+------------+
";
    assert_eq!(model.print_matrix_as(&fields).unwrap(), expected);
}
