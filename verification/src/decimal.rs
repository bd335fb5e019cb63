//! Probabilities as decimal text.
//!
//! A probability is held in units of `1 / SCALE`, eighteen places after the
//! point. It is written in the shortest form that holds all its places:
//! `0`, `1`, `0.5`, `0.333333333333333333`. What is read is any decimal
//! number as floating-point numbers are written, with a sign and an
//! exponent if it has them; its value is rounded down to the eighteenth
//! place, and it must lie between zero and one.

use crate::model::SCALE;
use vstd::arithmetic::div_mod::{
    lemma_breakdown, lemma_div_denominator, lemma_fundamental_div_mod,
};
use vstd::prelude::*;

verus! {

/// Ten to the power `e`.
pub open spec fn pow10(e: nat) -> nat
    decreases e,
{
    if e == 0 {
        1
    } else {
        10 * pow10((e - 1) as nat)
    }
}

/// The powers of ten that the fixed-point scale rests on.
pub proof fn lemma_pow10_values()
    ensures
        pow10(0) == 1,
        pow10(1) == 10,
        pow10(17) == 100_000_000_000_000_000,
        pow10(18) == SCALE,
{
    reveal_with_fuel(pow10, 20);
}

/// Powers of ten are positive.
pub proof fn lemma_pow10_positive(e: nat)
    ensures
        pow10(e) > 0,
    decreases e,
{
    if e > 0 {
        lemma_pow10_positive((e - 1) as nat);
    }
}

/// `c` is one of `0` to `9`.
pub open spec fn is_digit(c: char) -> bool {
    '0' <= c && c <= '9'
}

/// The number that a digit stands for.
pub open spec fn digit_value(c: char) -> nat {
    (c as u8 - 48) as nat
}

/// The digit that stands for a number below ten.
pub open spec fn digit_char(d: nat) -> char {
    ((d + 48) as u8) as char
}

/// Every character of `s` is a digit.
pub open spec fn all_digits(s: Seq<char>) -> bool {
    forall|i: int| 0 <= i < s.len() ==> is_digit(#[trigger] s[i])
}

/// The probability `weight / total` in units of `1 / SCALE`, rounded down;
/// zero where `total` is zero.
pub open spec fn fixed(weight: nat, total: nat) -> nat {
    if total == 0 {
        0
    } else {
        ((weight * SCALE) as nat) / total
    }
}

/// The digit at decimal place `p` of `q / SCALE`; place zero is the digit
/// before the point.
pub open spec fn place(q: nat, p: nat) -> nat {
    (q / pow10((18 - p) as nat)) % 10
}

/// The number of places of `q / SCALE` that have to be written, looking at
/// the first `n`: the last of them that is not zero.
pub open spec fn needed(q: nat, n: nat) -> nat
    decreases n,
{
    if n == 0 {
        0
    } else if place(q, n) != 0 {
        n
    } else {
        needed(q, (n - 1) as nat)
    }
}

/// The written form of `q / SCALE`, for a probability: the digit before the
/// point and, where a place is not zero, the point and the places up to the
/// last that is not zero.
pub open spec fn field_text(q: nat) -> Seq<char> {
    Seq::new(
        if needed(q, 18) == 0 {
            1
        } else {
            needed(q, 18) + 2
        },
        |k: int|
            if k == 0 {
                digit_char(place(q, 0))
            } else if k == 1 {
                '.'
            } else {
                digit_char(place(q, (k - 1) as nat))
            },
    )
}

/// `i` is where the run of digits that starts at `from` ends: the place of
/// the first character from there on that is no digit, or the length of
/// `s`.
pub open spec fn is_run_end(s: Seq<char>, from: int, i: int) -> bool {
    &&& from <= i <= s.len()
    &&& forall|j: int| from <= j < i ==> is_digit(#[trigger] s[j])
    &&& (i < s.len() ==> !is_digit(s[i]))
}

/// Where the run of digits that starts at `from` ends.
pub open spec fn run_end(s: Seq<char>, from: int) -> int {
    choose|i: int| is_run_end(s, from, i)
}

/// A run of digits has one end only.
pub proof fn lemma_run_end(s: Seq<char>, from: int, i: int)
    requires
        0 <= from,
        is_run_end(s, from, i),
    ensures
        run_end(s, from) == i,
{
    let k = run_end(s, from);
    assert(is_run_end(s, from, k));
    if k < i {
        assert(is_digit(s[k]));
    }
    if i < k {
        assert(is_digit(s[i]));
    }
}

proof fn lemma_run_from(s: Seq<char>, from: int, i: int)
    requires
        0 <= from <= i <= s.len(),
        forall|j: int| from <= j < i ==> is_digit(#[trigger] s[j]),
    ensures
        exists|k: int| is_run_end(s, from, k),
    decreases s.len() - i,
{
    if i < s.len() && is_digit(s[i]) {
        lemma_run_from(s, from, i + 1);
    } else {
        assert(is_run_end(s, from, i));
    }
}

/// Every run of digits ends somewhere.
pub proof fn lemma_run_exists(s: Seq<char>, from: int)
    requires
        0 <= from <= s.len(),
    ensures
        is_run_end(s, from, run_end(s, from)),
{
    lemma_run_from(s, from, from);
}

/// One where a sign stands at place `at` of `s`, zero where none does.
pub open spec fn sign_length(s: Seq<char>, at: int) -> int {
    if 0 <= at < s.len() && (s[at] == '+' || s[at] == '-') {
        1
    } else {
        0
    }
}

/// Where the digits before the point end.
pub open spec fn whole_end(s: Seq<char>) -> int {
    run_end(s, sign_length(s, 0))
}

/// A point follows the digits before it.
pub open spec fn has_point(s: Seq<char>) -> bool {
    whole_end(s) < s.len() && s[whole_end(s)] == '.'
}

/// Where the digits of the number end, those after the point included.
pub open spec fn mantissa_end(s: Seq<char>) -> int {
    if has_point(s) {
        run_end(s, whole_end(s) + 1)
    } else {
        whole_end(s)
    }
}

/// The number of digits after the point.
pub open spec fn fraction_length(s: Seq<char>) -> int {
    if has_point(s) {
        mantissa_end(s) - whole_end(s) - 1
    } else {
        0
    }
}

/// The digits of the number, those before and those after the point, in
/// one run.
pub open spec fn digits(s: Seq<char>) -> Seq<char> {
    s.subrange(sign_length(s, 0), whole_end(s)) + if has_point(s) {
        s.subrange(whole_end(s) + 1, mantissa_end(s))
    } else {
        Seq::<char>::empty()
    }
}

/// Something follows the digits of the number: an exponent, if the text is
/// a number.
pub open spec fn has_exponent(s: Seq<char>) -> bool {
    mantissa_end(s) < s.len()
}

/// Where the digits of the exponent start, after its mark and its sign.
pub open spec fn exponent_start(s: Seq<char>) -> int {
    mantissa_end(s) + 1 + sign_length(s, mantissa_end(s) + 1)
}

/// The number that a run of digits stands for.
pub open spec fn whole_value(s: Seq<char>) -> nat
    decreases s.len(),
{
    if s.len() == 0 {
        0
    } else {
        whole_value(s.drop_last()) * 10 + digit_value(s.last())
    }
}

/// The exponent of the number; zero where it has none.
pub open spec fn exponent(s: Seq<char>) -> int {
    if !has_exponent(s) {
        0
    } else if sign_length(s, mantissa_end(s) + 1) == 1 && s[mantissa_end(s) + 1] == '-' {
        -(whole_value(s.subrange(exponent_start(s), s.len() as int)) as int)
    } else {
        whole_value(s.subrange(exponent_start(s), s.len() as int)) as int
    }
}

/// The text is a decimal number as floating-point numbers are written: an
/// optional sign; digits, with an optional point among, before or after
/// them, and at least one digit in all; then optionally `e` or `E`, an
/// optional sign and one or more digits.
pub open spec fn is_number(s: Seq<char>) -> bool {
    &&& digits(s).len() > 0
    &&& has_exponent(s) ==> {
        &&& (s[mantissa_end(s)] == 'e' || s[mantissa_end(s)] == 'E')
        &&& exponent_start(s) < s.len()
        &&& run_end(s, exponent_start(s)) == s.len()
    }
}

/// The digits `d` with the point moved `k` places to the right of their
/// end, as a whole number; the digits that then stand after the point are
/// dropped.
pub open spec fn units(d: Seq<char>, k: int) -> nat {
    if k >= 0 {
        whole_value(d) * pow10(k as nat)
    } else if d.len() + k > 0 {
        whole_value(d.take(d.len() + k))
    } else {
        0
    }
}

/// The size of the number in units of `1 / SCALE`, rounded down.
pub open spec fn magnitude(s: Seq<char>) -> nat {
    units(digits(s), 18 + exponent(s) - fraction_length(s))
}

/// The probability that a field stands for, in units of `1 / SCALE`.
///
/// The field must be a number, and the number a probability: it is refused
/// if it is below zero, that is, has a minus sign and a digit other than
/// zero, or if its size, rounded down to the eighteenth place, is above
/// one.
pub open spec fn field_value(s: Seq<char>) -> Option<nat> {
    if !is_number(s) {
        None
    } else if whole_value(digits(s)) == 0 {
        Some(0)
    } else if s[0] == '-' || magnitude(s) > SCALE {
        None
    } else {
        Some(magnitude(s))
    }
}

/// What reading a field gives.
#[derive(Debug, Clone, Copy, PartialEq, Eq)]
pub enum Field {
    /// A probability, in units of `1 / SCALE`.
    Probability(u64),
    /// A number that is no probability: below zero or above one.
    OutOfRange,
    /// No number.
    Malformed,
}

/// `c` is a character that a number can hold: a digit, a sign, the point
/// or the mark of an exponent.
pub open spec fn is_number_char(c: char) -> bool {
    is_digit(c) || c == '+' || c == '-' || c == '.' || c == 'e' || c == 'E'
}

/// A number holds nothing but digits, signs, the point and the mark of an
/// exponent.
pub proof fn lemma_number_chars(s: Seq<char>)
    requires
        is_number(s),
    ensures
        forall|i: int| 0 <= i < s.len() ==> is_number_char(#[trigger] s[i]),
{
    let a = sign_length(s, 0);
    lemma_run_exists(s, a);
    let b = whole_end(s);
    if has_point(s) {
        lemma_run_exists(s, b + 1);
    }
    let c = mantissa_end(s);
    if has_exponent(s) {
        lemma_run_exists(s, exponent_start(s));
    }
    assert forall|i: int| 0 <= i < s.len() implies is_number_char(#[trigger] s[i]) by {
        if i < a {
        } else if i < b {
        } else if i < c {
        } else if i == c {
        } else if i < exponent_start(s) {
        } else {
        }
    }
}

/// Powers of ten grow with the exponent.
pub proof fn lemma_pow10_monotone(a: nat, b: nat)
    requires
        a <= b,
    ensures
        pow10(a) <= pow10(b),
    decreases b,
{
    if a < b {
        lemma_pow10_monotone(a, (b - 1) as nat);
    }
}

/// A probability that is read is at most one.
pub proof fn lemma_field_value_bound(s: Seq<char>)
    ensures
        field_value(s) matches Some(q) ==> q <= SCALE,
{
}

/// The probability `weight / total` in fixed point.
pub fn fixed_point(weight: u64, total: u64) -> (q: u64)
    requires
        weight <= total,
    ensures
        q == fixed(weight as nat, total as nat),
        q <= SCALE,
{
    if total == 0 {
        0
    } else {
        assert(0 <= weight * SCALE <= 0xffff_ffff_ffff_ffff * 0xffff_ffff_ffff_ffff && (weight
            * SCALE) / (total as int) <= SCALE) by (nonlinear_arith)
            requires
                0 <= weight <= total,
                0 < total <= 0xffff_ffff_ffff_ffff,
                SCALE == 1_000_000_000_000_000_000,
        ;
        let q: u128 = weight as u128 * SCALE as u128 / total as u128;
        q as u64
    }
}

/// The digit for a number below ten.
fn digit_of(d: u64) -> (c: char)
    requires
        d < 10,
    ensures
        c == digit_char(d as nat),
        is_digit(c),
        digit_value(c) == d,
{
    let b: u8 = d as u8 + 48;
    b as char
}

/// Ten to the power `k`.
fn power_of_ten(k: usize) -> (p: u128)
    requires
        k <= 18,
    ensures
        p == pow10(k as nat),
        p <= SCALE,
{
    let mut p: u128 = 1;
    let mut i: usize = 0;
    proof {
        lemma_pow10_values();
    }
    while i < k
        invariant
            i <= k <= 18,
            p == pow10(i as nat),
        decreases k - i,
    {
        proof {
            lemma_pow10_monotone((i + 1) as nat, 18);
            lemma_pow10_values();
        }
        p = p * 10;
        i = i + 1;
    }
    proof {
        lemma_pow10_monotone(k as nat, 18);
    }
    p
}

/// Appends the written form of `q / SCALE` to `out`.
pub fn push_field(out: &mut String, q: u64)
    requires
        q <= SCALE,
    ensures
        final(out)@ == old(out)@ + field_text(q as nat),
{
    let ghost start = out@;
    let ghost text = field_text(q as nat);
    proof {
        lemma_pow10_values();
    }
    let mut p: usize = 18;
    let mut unit: u64 = 1;
    while p > 0 && (q / unit) % 10 == 0
        invariant
            0 <= p <= 18,
            unit == pow10((18 - p) as nat),
            needed(q as nat, 18) == needed(q as nat, p as nat),
            unit > 0,
        decreases p,
    {
        proof {
            lemma_pow10_monotone((18 - p + 1) as nat, 18);
            lemma_pow10_values();
            assert(pow10((18 - p + 1) as nat) == 10 * pow10((18 - p) as nat));
        }
        p = p - 1;
        if p > 0 {
            unit = unit * 10;
        } else {
            unit = SCALE;
        }
    }
    assert(needed(q as nat, 18) == p);
    out.push(digit_of((q / SCALE) % 10));
    assert(out@ =~= start + text.take(1));
    if p > 0 {
        out.push('.');
        assert(out@ =~= start + text.take(2));
        let mut unit: u64 = 100_000_000_000_000_000;
        let mut k: usize = 0;
        while k < p
            invariant
                0 <= k <= p <= 18,
                p == needed(q as nat, 18),
                p > 0,
                unit == pow10((17 - k) as nat) || k == 18,
                unit > 0 || k == 18,
                out@ == start + text.take(2 + k),
                text == field_text(q as nat),
            decreases p - k,
        {
            let d: u64 = (q / unit) % 10;
            out.push(digit_of(d));
            proof {
                assert(text[2 + k] == digit_char(d as nat));
                assert(text.take(2 + k + 1) =~= text.take(2 + k).push(text[2 + k]));
                if k < 17 {
                    assert(pow10((17 - k) as nat) == 10 * pow10((16 - k) as nat));
                    lemma_pow10_positive((16 - k) as nat);
                }
            }
            unit = unit / 10;
            k = k + 1;
        }
        assert(text.take(2 + p) =~= text);
    } else {
        assert(text.take(1) =~= text);
    }
}

/// Follows the run of digits that starts at `from`, appending them to
/// `out`, and tells where it ends.
fn scan_digits(s: &Vec<char>, from: usize, out: &mut Vec<char>) -> (end: usize)
    requires
        from <= s@.len(),
        all_digits(old(out)@),
    ensures
        is_run_end(s@, from as int, end as int),
        run_end(s@, from as int) == end,
        final(out)@ == old(out)@ + s@.subrange(from as int, end as int),
        all_digits(final(out)@),
{
    let n: usize = s.len();
    let mut i: usize = from;
    assert(out@ =~= old(out)@ + s@.subrange(from as int, from as int));
    while i < n && '0' <= s[i] && s[i] <= '9'
        invariant
            n == s@.len(),
            from <= i <= n,
            forall|j: int| from <= j < i ==> is_digit(#[trigger] s@[j]),
            out@ == old(out)@ + s@.subrange(from as int, i as int),
            all_digits(out@),
        decreases n - i,
    {
        let ghost before = out@;
        out.push(s[i]);
        assert(out@ =~= old(out)@ + s@.subrange(from as int, i + 1));
        assert forall|j: int| 0 <= j < out@.len() implies is_digit(#[trigger] out@[j]) by {
            if j < before.len() {
                assert(out@[j] == before[j]);
            }
        }
        i = i + 1;
    }
    proof {
        lemma_run_end(s@, from as int, i as int);
    }
    i
}

/// The number that the first `upto` of the digits stand for, or `cap`
/// where it is more than that.
fn capped_value(d: &Vec<char>, upto: usize, cap: u128) -> (v: u128)
    requires
        all_digits(d@),
        upto <= d@.len(),
        cap <= 0xffff_ffff_ffff_ffff_ffff_ffff,
    ensures
        v <= cap,
        whole_value(d@.take(upto as int)) < cap ==> v == whole_value(d@.take(upto as int)),
        whole_value(d@.take(upto as int)) >= cap ==> v == cap,
{
    let mut v: u128 = 0;
    let mut i: usize = 0;
    assert(d@.take(0) =~= Seq::<char>::empty());
    while i < upto
        invariant
            0 <= i <= upto <= d@.len(),
            all_digits(d@),
            cap <= 0xffff_ffff_ffff_ffff_ffff_ffff,
            v <= cap,
            whole_value(d@.take(i as int)) < cap ==> v == whole_value(d@.take(i as int)),
            whole_value(d@.take(i as int)) >= cap ==> v == cap,
        decreases upto - i,
    {
        let c: char = d[i];
        proof {
            assert(is_digit(d@[i as int]));
            assert(d@.take(i + 1).drop_last() =~= d@.take(i as int));
            assert(d@.take(i + 1).last() == c);
        }
        let digit: u128 = (c as u8 - 48) as u128;
        let next: u128 = v * 10 + digit;
        v = if next >= cap {
            cap
        } else {
            next
        };
        i = i + 1;
    }
    v
}

/// Digits that stand for zero stand for zero however many of them are
/// taken; digits that stand for more than zero are worth at least the power
/// of ten they are moved by.
proof fn lemma_units_of_zero(d: Seq<char>, k: int)
    requires
        whole_value(d) == 0,
    ensures
        units(d, k) == 0,
{
    if k >= 0 {
        assert(0 * pow10(k as nat) == 0);
    } else if d.len() + k > 0 {
        lemma_prefix_of_zero(d, d.len() + k);
    }
}

proof fn lemma_prefix_of_zero(d: Seq<char>, n: int)
    requires
        whole_value(d) == 0,
        0 <= n <= d.len(),
    ensures
        whole_value(d.take(n)) == 0,
    decreases d.len(),
{
    if n == d.len() {
        assert(d.take(n) =~= d);
    } else {
        assert(whole_value(d.drop_last()) == 0);
        lemma_prefix_of_zero(d.drop_last(), n);
        assert(d.drop_last().take(n) =~= d.take(n));
    }
}

/// How far the point of a number with `places` digits after it and the
/// exponent digits `e`, lowered or raised, has to be moved to the right of
/// its digits to give units of `1 / SCALE`.
pub open spec fn shift(places: int, lowered: bool, e: Seq<char>) -> int {
    if lowered {
        18 - whole_value(e) - places
    } else {
        18 + whole_value(e) - places
    }
}

/// The size, in units of `1 / SCALE`, of the number with the digits `d`,
/// of which `places` stand after the point, and the exponent digits `e`;
/// told apart from a size above one.
fn scaled(d: &Vec<char>, places: usize, lowered: bool, e: &Vec<char>) -> (r: Field)
    requires
        all_digits(d@),
        all_digits(e@),
        places <= d@.len(),
        whole_value(d@) > 0,
    ensures
        match r {
            Field::Probability(q) => q == units(d@, shift(places as int, lowered, e@)) && q
                <= SCALE,
            Field::OutOfRange => units(d@, shift(places as int, lowered, e@)) > SCALE,
            Field::Malformed => false,
        },
{
    let ghost k = shift(places as int, lowered, e@);
    assert(e@.take(e@.len() as int) =~= e@);
    assert(d@.take(d@.len() as int) =~= d@);
    let raised: u128 = capped_value(e, e.len(), 0x40_0000_0000_0000_0000);
    let all: u128 = capped_value(d, d.len(), 1_000_000_000_000_000_001);
    let size: u128 = d.len() as u128;
    let behind: u128 = places as u128;
    if !lowered && raised > behind {
        proof {
            lemma_pow10_monotone(19, k as nat);
            reveal_with_fuel(pow10, 20);
            assert(whole_value(d@) * pow10(k as nat) >= pow10(k as nat)) by (nonlinear_arith)
                requires
                    whole_value(d@) >= 1,
            ;
        }
        return Field::OutOfRange;
    }
    if (!lowered && raised + 18 >= behind) || (lowered && raised + behind <= 18) {
        let by: usize = if lowered {
            (18 - raised - behind) as usize
        } else {
            (18 + raised - behind) as usize
        };
        assert(by == k);
        let factor: u128 = power_of_ten(by);
        proof {
            lemma_pow10_positive(by as nat);
            if all > SCALE {
                assert(whole_value(d@) * factor > SCALE) by (nonlinear_arith)
                    requires
                        whole_value(d@) > SCALE,
                        factor >= 1,
                ;
            }
        }
        if all > SCALE as u128 {
            return Field::OutOfRange;
        }
        assert(all * factor <= 1_000_000_000_000_000_000 * 1_000_000_000_000_000_000)
            by (nonlinear_arith)
            requires
                all <= 1_000_000_000_000_000_000,
                factor <= 1_000_000_000_000_000_000,
        ;
        let value: u128 = all * factor;
        if value > SCALE as u128 {
            return Field::OutOfRange;
        }
        return Field::Probability(value as u64);
    }
    let dropped: u128 = if lowered {
        raised + behind - 18
    } else {
        behind - 18 - raised
    };
    if dropped >= size {
        assert(d@.len() + k <= 0);
        return Field::Probability(0);
    }
    assert(dropped == -k);
    let keep: usize = (size - dropped) as usize;
    let value: u128 = capped_value(d, keep, 1_000_000_000_000_000_001);
    if value > SCALE as u128 {
        return Field::OutOfRange;
    }
    Field::Probability(value as u64)
}

/// The parts of a number: its digits, how many of them stand after the
/// point, whether it has a minus sign, whether its exponent has one, and
/// the digits of its exponent.
struct Parts {
    digits: Vec<char>,
    places: usize,
    negative: bool,
    lowered: bool,
    exponent: Vec<char>,
}

/// Takes a field apart, if it is a number.
fn scan(s: &Vec<char>) -> (r: Option<Parts>)
    ensures
        r is Some <==> is_number(s@),
        r matches Some(parts) ==> {
            &&& parts.digits@ == digits(s@)
            &&& all_digits(parts.digits@)
            &&& all_digits(parts.exponent@)
            &&& parts.places == fraction_length(s@)
            &&& parts.places <= parts.digits@.len()
            &&& parts.negative == (s@[0] == '-')
            &&& shift(parts.places as int, parts.lowered, parts.exponent@) == 18 + exponent(s@)
                - fraction_length(s@)
        },
{
    let n: usize = s.len();
    let negative: bool = n > 0 && s[0] == '-';
    let a: usize = if n > 0 && (s[0] == '+' || s[0] == '-') {
        1
    } else {
        0
    };
    let mut d: Vec<char> = Vec::new();
    let b: usize = scan_digits(s, a, &mut d);
    let point: bool = b < n && s[b] == '.';
    let c: usize = if point {
        scan_digits(s, b + 1, &mut d)
    } else {
        b
    };
    let places: usize = if point {
        c - b - 1
    } else {
        0
    };
    assert(d@ =~= digits(s@));
    assert(places == fraction_length(s@));
    if d.len() == 0 {
        return None;
    }
    let mut e: Vec<char> = Vec::new();
    let mut lowered: bool = false;
    if c < n {
        if !(s[c] == 'e' || s[c] == 'E') {
            return None;
        }
        let f: usize = c + 1;
        lowered = f < n && s[f] == '-';
        let g: usize = if f < n && (s[f] == '+' || s[f] == '-') {
            f + 1
        } else {
            f
        };
        let h: usize = scan_digits(s, g, &mut e);
        if g >= n || h != n {
            return None;
        }
        assert(e@ =~= s@.subrange(exponent_start(s@), s@.len() as int));
    } else {
        assert(whole_value(e@) == 0);
    }
    Some(Parts { digits: d, places, negative, lowered, exponent: e })
}

/// Reads a field: the probability it stands for in units of `1 / SCALE`, or
/// why it stands for none.
pub fn parse_field(s: &Vec<char>) -> (r: Field)
    ensures
        match r {
            Field::Probability(q) => field_value(s@) == Some(q as nat) && q <= SCALE,
            Field::OutOfRange => is_number(s@) && field_value(s@) is None,
            Field::Malformed => !is_number(s@) && field_value(s@) is None,
        },
{
    match scan(s) {
        None => Field::Malformed,
        Some(parts) => {
            assert(parts.digits@.take(parts.digits@.len() as int) =~= parts.digits@);
            let all: u128 = capped_value(&parts.digits, parts.digits.len(), 1);
            if all == 0 {
                Field::Probability(0)
            } else if parts.negative {
                Field::OutOfRange
            } else {
                scaled(&parts.digits, parts.places, parts.lowered, &parts.exponent)
            }
        },
    }
}

/// A written field holds digits and the point, nothing else.
pub proof fn lemma_field_chars(q: nat)
    requires
        q <= SCALE,
    ensures
        1 <= field_text(q).len() <= 20,
        forall|i: int|
            0 <= i < field_text(q).len() ==> is_digit(#[trigger] field_text(q)[i]) || field_text(
                q,
            )[i] == '.',
{
    let text = field_text(q);
    lemma_needed(q, 18);
    assert forall|i: int| 0 <= i < text.len() implies is_digit(#[trigger] text[i]) || text[i]
        == '.' by {
        if i != 1 {
            let p: nat = if i == 0 {
                0
            } else {
                (i - 1) as nat
            };
            lemma_pow10_positive((18 - p) as nat);
            assert(place(q, p) < 10);
        }
    }
}

/// The places that need not be written are zero: what they leave of `q` is
/// what all places leave of it.
proof fn lemma_needed(q: nat, n: nat)
    requires
        n <= 18,
    ensures
        needed(q, n) <= n,
        q % pow10((18 - needed(q, n)) as nat) == q % pow10((18 - n) as nat),
        needed(q, n) > 0 ==> place(q, needed(q, n)) != 0,
    decreases n,
{
    if n > 0 && place(q, n) == 0 {
        lemma_needed(q, (n - 1) as nat);
        let unit = pow10((18 - n) as nat);
        lemma_pow10_positive((18 - n) as nat);
        assert(pow10((18 - (n - 1)) as nat) == 10 * unit);
        lemma_breakdown(q as int, unit as int, 10);
        assert(unit * 10 == 10 * unit);
        assert(unit * 0 == 0);
    }
}

/// The digits of a written field, up to place `j`, stand for `q` without
/// the places after it.
proof fn lemma_written_digits(q: nat, d: Seq<char>, j: nat)
    requires
        q <= SCALE,
        j < d.len() <= 19,
        forall|i: int| 0 <= i < d.len() ==> d[i] == digit_char(place(q, i as nat)),
    ensures
        whole_value(d.take(j as int + 1)) == q / pow10((18 - j) as nat),
    decreases j,
{
    lemma_pow10_values();
    let unit = pow10((18 - j) as nat);
    let x = q / unit;
    lemma_pow10_positive((18 - j) as nat);
    let taken = d.take(j as int + 1);
    assert(taken.drop_last() =~= d.take(j as int));
    assert(taken.last() == d[j as int]);
    assert(place(q, j) == x % 10);
    assert(digit_value(digit_char(place(q, j))) == place(q, j));
    assert(whole_value(taken) == whole_value(d.take(j as int)) * 10 + x % 10);
    if j == 0 {
        assert(d.take(0).len() == 0);
        assert(whole_value(d.take(0)) == 0);
        assert(unit == 1_000_000_000_000_000_000);
        assert(q <= 1_000_000_000_000_000_000);
        assert(q / 1_000_000_000_000_000_000 <= 1);
        assert(x == q / 1_000_000_000_000_000_000);
    } else {
        lemma_written_digits(q, d, (j - 1) as nat);
        assert(d.take((j - 1) as int + 1) =~= d.take(j as int));
        assert(pow10((18 - (j - 1)) as nat) == 10 * unit);
        lemma_div_denominator(q as int, unit as int, 10);
        assert(unit * 10 == 10 * unit);
        assert(whole_value(d.take(j as int)) == x / 10);
        lemma_fundamental_div_mod(x as int, 10);
    }
}

/// What was written is read back exactly.
pub proof fn lemma_field_round_trip(q: nat)
    requires
        q <= SCALE,
    ensures
        field_value(field_text(q)) == Some(q),
        !field_text(q).contains(','),
        !field_text(q).contains('\n'),
        !field_text(q).contains('\r'),
{
    let text = field_text(q);
    let p = needed(q, 18);
    lemma_pow10_values();
    lemma_field_chars(q);
    lemma_needed(q, 18);
    assert(is_digit(text[0]));
    assert(sign_length(text, 0) == 0);
    assert(is_run_end(text, 0, 1));
    lemma_run_end(text, 0, 1);
    assert(whole_end(text) == 1);
    let d = Seq::new((p + 1) as nat, |i: int| digit_char(place(q, i as nat)));
    if p > 0 {
        assert(has_point(text));
        assert forall|j: int| 2 <= j < text.len() implies is_digit(#[trigger] text[j]) by {
            lemma_pow10_positive((18 - (j - 1)) as nat);
            assert(place(q, (j - 1) as nat) < 10);
        }
        assert(is_run_end(text, 2, text.len() as int));
        lemma_run_end(text, 2, text.len() as int);
        assert(digits(text) =~= d);
    } else {
        assert(!has_point(text));
        assert(digits(text) =~= d);
    }
    assert(mantissa_end(text) == text.len());
    assert(!has_exponent(text));
    assert(fraction_length(text) == p);
    assert(is_number(text));
    lemma_written_digits(q, d, p);
    assert(d.take(p as int + 1) =~= d);
    let unit = pow10((18 - p) as nat);
    lemma_pow10_positive((18 - p) as nat);
    assert(q % unit == 0) by {
        assert(q % 1 == 0);
    }
    lemma_fundamental_div_mod(q as int, unit as int);
    assert((q / unit) * unit == q) by (nonlinear_arith)
        requires
            q == unit * (q / unit) + q % unit,
            q % unit == 0,
    ;
    assert(magnitude(text) == q);
    if whole_value(d) == 0 {
        assert(q == 0) by (nonlinear_arith)
            requires
                (q / unit) * unit == q,
                q / unit == 0,
        ;
    }
    assert forall|i: int| 0 <= i < text.len() implies text[i] != ',' && text[i] != '\n' && text[i]
        != '\r' && text[i] != '-' by {
        assert(is_digit(text[i]) || text[i] == '.');
    }
}

} // verus!
