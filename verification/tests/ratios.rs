use bigram::charset::{fold_case, is_admissible, Charset};
use bigram::ratio::{div_wide, mul_div, mul_wide, Ratio};

#[test]
fn a_ratio_needs_a_denominator() {
    assert!(Ratio::new(1, 0).is_none());
    assert!(Ratio::new(0, 0).is_none());
    let r = Ratio::new(3, 7).unwrap();
    assert_eq!((r.num(), r.den()), (3, 7));
    let r = Ratio::of(5, 9);
    assert_eq!((r.num(), r.den()), (5, 9));
}

#[test]
fn wide_product_of_small_numbers() {
    assert_eq!(mul_wide(0, 12345), (0, 0));
    assert_eq!(mul_wide(6, 7), (0, 42));
    assert_eq!(mul_wide(1 << 64, 1 << 63), (0, 1 << 127));
}

#[test]
fn wide_product_carries_into_the_high_half() {
    assert_eq!(mul_wide(1 << 64, 1 << 64), (1, 0));
    assert_eq!(mul_wide(u128::MAX, 2), (1, u128::MAX - 1));
    assert_eq!(mul_wide(u128::MAX, u128::MAX), (u128::MAX - 1, 1));
    assert_eq!(mul_wide((1 << 64) + 1, (1 << 64) + 1), (1, (1 << 65) + 1));
    assert_eq!(mul_wide(u64::MAX as u128, u64::MAX as u128), (0, u128::MAX - (1 << 65) + 2));
}

#[test]
fn ratios_compare_by_value() {
    let third = Ratio::new(1, 3).unwrap();
    let same = Ratio::new(2, 6).unwrap();
    let half = Ratio::new(1, 2).unwrap();
    assert!(half.is_greater_than(&third));
    assert!(!third.is_greater_than(&half));
    assert!(!third.is_greater_than(&same));
    assert!(!same.is_greater_than(&third));
}

#[test]
fn ratios_compare_beyond_128_bits() {
    let big = Ratio::new(u128::MAX, u128::MAX - 1).unwrap();
    let one = Ratio::new(u128::MAX, u128::MAX).unwrap();
    let less = Ratio::new(u128::MAX - 1, u128::MAX).unwrap();
    assert!(big.is_greater_than(&one));
    assert!(one.is_greater_than(&less));
    assert!(big.is_greater_than(&less));
    assert!(!less.is_greater_than(&one));
    assert!(!one.is_greater_than(&one));
}

#[test]
fn folding_touches_ascii_capitals_only() {
    assert_eq!(fold_case('A'), 'a');
    assert_eq!(fold_case('Z'), 'z');
    assert_eq!(fold_case('M'), 'm');
    assert_eq!(fold_case('a'), 'a');
    assert_eq!(fold_case('@'), '@');
    assert_eq!(fold_case('['), '[');
    assert_eq!(fold_case('7'), '7');
    assert_eq!(fold_case('\u{c9}'), '\u{c9}');
    assert_eq!(fold_case('\u{141}'), '\u{141}');
}

#[test]
fn an_alphabet_finds_the_place_of_each_character() {
    let cs = Charset::new("abc1".chars().collect()).unwrap();
    assert_eq!(cs.len(), 4);
    assert_eq!(cs.get(2), 'c');
    assert_eq!(cs.position('a'), Some(0));
    assert_eq!(cs.position('1'), Some(3));
    assert_eq!(cs.position('z'), None);
    assert_eq!(cs.position('A'), None);
}

#[test]
fn an_alphabet_repeats_no_character() {
    assert!(Charset::new("abca".chars().collect()).is_none());
    assert!(!is_admissible(&"abca".chars().collect()));
    assert!(is_admissible(&"abc".chars().collect()));
    assert!(is_admissible(&Vec::new()));
    assert!(Charset::new(Vec::new()).is_some());
}

#[test]
fn wide_quotients() {
    assert_eq!(div_wide(0, 42, 6), 7);
    assert_eq!(div_wide(0, 43, 6), 7);
    assert_eq!(div_wide(1, 0, 2), 1 << 127);
    assert_eq!(div_wide(2, 5, 3), 226854911280625642308916404954512140972);
    assert_eq!(div_wide(u64::MAX as u128 - 1, u128::MAX, u64::MAX), u128::MAX);
}

#[test]
fn products_divided_without_overflow() {
    assert_eq!(mul_div(10, 1, 3), 3);
    assert_eq!(mul_div(u128::MAX, 1, 1), u128::MAX);
    assert_eq!(mul_div(u128::MAX, u64::MAX, u64::MAX), u128::MAX);
    assert_eq!(mul_div(u128::MAX, 1, 2), u128::MAX / 2);
    assert_eq!(mul_div(1 << 127, 3, 4), 3 << 125);
    assert_eq!(mul_div(12345, 0, 7), 0);
}
