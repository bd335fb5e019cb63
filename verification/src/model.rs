//! The mathematical model of a bigram matrix: what a corpus counts, and what
//! a string scores against those counts.

use crate::charset::{fold, lemma_position_found, position};
use crate::ratio::{fraction, lemma_cross_order, Ratio};
use vstd::arithmetic::div_mod::lemma_fundamental_div_mod;
use vstd::prelude::*;

verus! {

/// One, in the fixed-point scale of eighteen decimal places in which stored
/// matrices are expressed.
pub const SCALE: u64 = 1_000_000_000_000_000_000;

/// One, in the finer scale of thirty-eight decimal places in which joint
/// scores are expressed: about as far down as single-precision floats
/// reach.
pub const JOINT_SCALE: u128 = 100_000_000_000_000_000_000_000_000_000_000_000_000;

/// The numerator of the threshold used where the caller names none.
pub const DEFAULT_THRESHOLD_NUMERATOR: u128 = 1;

/// The denominator of the threshold used where the caller names none.
pub const DEFAULT_THRESHOLD_DENOMINATOR: u128 = 10_000;

/// The threshold used where the caller names none: one in ten thousand.
pub open spec fn default_threshold() -> Ratio {
    fraction(DEFAULT_THRESHOLD_NUMERATOR, DEFAULT_THRESHOLD_DENOMINATOR)
}

/// The place of cell `(i, j)` in a row-major table of `n` columns.
pub open spec fn slot(i: int, j: int, n: int) -> int {
    i * n + j
}

/// Every cell of an `n` by `n` table has a place inside it.
pub proof fn lemma_slot_range(i: int, j: int, n: int)
    by (nonlinear_arith)
    requires
        0 <= i < n,
        0 <= j < n,
    ensures
        0 <= slot(i, j, n) < n * n,
{
}

/// Two cells with the same place are the same cell.
pub proof fn lemma_slot_injective(i: int, j: int, k: int, l: int, n: int)
    by (nonlinear_arith)
    requires
        0 <= i < n,
        0 <= j < n,
        0 <= k < n,
        0 <= l < n,
        slot(i, j, n) == slot(k, l, n),
    ensures
        i == k,
        j == l,
{
}

/// Every place inside an `n` by `n` table is the place of one cell: that of
/// row `x / n` and column `x % n`.
pub proof fn lemma_slot_of_place(x: int, n: int)
    requires
        0 <= n,
        0 <= x < n * n,
    ensures
        n > 0,
        0 <= x / n < n,
        0 <= x % n < n,
        slot(x / n, x % n, n) == x,
{
    assert(n > 0) by (nonlinear_arith)
        requires
            0 <= x < n * n,
            n >= 0,
    ;
    lemma_fundamental_div_mod(x, n);
    let i = x / n;
    let j = x % n;
    assert(0 <= i < n && i * n + j == x) by (nonlinear_arith)
        requires
            x == n * i + j,
            0 <= j < n,
            0 <= x < n * n,
    ;
}

/// The sum of all cells.
pub open spec fn sum(cells: Seq<u64>) -> nat
    decreases cells.len(),
{
    if cells.len() == 0 {
        0
    } else {
        sum(cells.drop_last()) + cells.last() as nat
    }
}

/// The largest cell, zero for an empty table.
pub open spec fn largest(cells: Seq<u64>) -> nat
    decreases cells.len(),
{
    if cells.len() == 0 {
        0
    } else if largest(cells.drop_last()) >= cells.last() {
        largest(cells.drop_last())
    } else {
        cells.last() as nat
    }
}

/// The characters at `k - 1` and `k` of `text` fold to `a` and `b`.
pub open spec fn is_pair(text: Seq<char>, k: int, a: char, b: char) -> bool {
    fold(text[k - 1]) == a && fold(text[k]) == b
}

/// How often `b` directly follows `a`, after folding, within the first `n`
/// characters of `text`.
pub open spec fn occurrences(text: Seq<char>, a: char, b: char, n: nat) -> nat
    decreases n,
{
    if n < 2 {
        0
    } else {
        occurrences(text, a, b, (n - 1) as nat) + if is_pair(text, n - 1, a, b) {
            1nat
        } else {
            0nat
        }
    }
}

/// The characters at `k - 1` and `k` of `text` both belong, after folding,
/// to the alphabet `cs`.
pub open spec fn is_transition(cs: Seq<char>, text: Seq<char>, k: int) -> bool {
    cs.contains(fold(text[k - 1])) && cs.contains(fold(text[k]))
}

/// The number of adjacent pairs of alphabet characters within the first `n`
/// characters of `text`. A character outside the alphabet breaks the
/// sequence: no pair reaches across it.
pub open spec fn transitions(cs: Seq<char>, text: Seq<char>, n: nat) -> nat
    decreases n,
{
    if n < 2 {
        0
    } else {
        transitions(cs, text, (n - 1) as nat) + if is_transition(cs, text, n - 1) {
            1nat
        } else {
            0nat
        }
    }
}

/// A bigram matrix as a mathematical value: the alphabet, one weight for each
/// ordered pair of its characters in row-major order, and the denominator
/// that turns a weight into a probability.
pub struct Model {
    pub charset: Seq<char>,
    pub cells: Seq<u64>,
    pub total: u64,
}

impl Model {
    /// The number of characters in the alphabet.
    pub open spec fn size(self) -> int {
        self.charset.len() as int
    }

    /// The alphabet repeats no character, the table is dense over all pairs
    /// of it, and no weight exceeds the denominator, so that every
    /// probability lies between 0 and 1.
    pub open spec fn wf(self) -> bool {
        &&& self.charset.no_duplicates()
        &&& self.cells.len() == self.size() * self.size()
        &&& forall|k: int| 0 <= k < self.cells.len() ==> #[trigger] self.cells[k] <= self.total
    }

    /// The weight of the pair of the characters at places `i` and `j`.
    pub open spec fn cell(self, i: int, j: int) -> nat {
        self.cells[slot(i, j, self.size())] as nat
    }

    /// Both characters belong to the alphabet.
    pub open spec fn covers(self, a: char, b: char) -> bool {
        self.charset.contains(a) && self.charset.contains(b)
    }

    /// The weight of `b` following `a`; zero where either is outside the
    /// alphabet.
    pub open spec fn weight(self, a: char, b: char) -> nat {
        match (position(self.charset, a), position(self.charset, b)) {
            (Some(i), Some(j)) => self.cell(i, j),
            _ => 0,
        }
    }

    /// The weight of the adjacent pair that ends at place `k` of `text`.
    pub open spec fn pair_weight(self, text: Seq<char>, k: int) -> nat {
        self.weight(fold(text[k - 1]), fold(text[k]))
    }

    /// The sum of the weights of all adjacent pairs within the first `n`
    /// characters of `text`.
    pub open spec fn weight_sum(self, text: Seq<char>, n: nat) -> nat
        decreases n,
    {
        if n < 2 {
            0
        } else {
            self.weight_sum(text, (n - 1) as nat) + self.pair_weight(text, n - 1)
        }
    }

    /// The weighted score of `text` as numerator and denominator: the sum
    /// of the probabilities of all its adjacent pairs, divided by the number
    /// of all its characters. A single character scores one. The empty
    /// string scores zero, and so does every longer string against a model
    /// without data.
    pub open spec fn weighted(self, text: Seq<char>) -> (nat, nat) {
        if text.len() == 1 {
            (1, 1)
        } else if text.len() == 0 || self.total == 0 {
            (0, 1)
        } else {
            (self.weight_sum(text, text.len()), (self.total * text.len()) as nat)
        }
    }

    /// The joint score of the first `n` characters of `text`, in units of
    /// `1 / JOINT_SCALE`: the product of the probabilities of all adjacent pairs,
    /// starting from one and rounded down after each factor. Against a model
    /// without data every probability counts as zero.
    pub open spec fn joint(self, text: Seq<char>, n: nat) -> nat
        decreases n,
    {
        if n < 2 {
            JOINT_SCALE as nat
        } else {
            let before = self.joint(text, (n - 1) as nat);
            if self.covers(fold(text[n - 2]), fold(text[n - 1])) {
                if self.total == 0 {
                    0
                } else {
                    before * self.pair_weight(text, n - 1) / (self.total as nat)
                }
            } else {
                before
            }
        }
    }

    /// The exact product of the probabilities of all adjacent pairs of
    /// alphabet characters within the first `n` characters of `text`, as
    /// numerator and denominator.
    pub open spec fn product(self, text: Seq<char>, n: nat) -> (nat, nat)
        decreases n,
    {
        if n < 2 {
            (1, 1)
        } else {
            let before = self.product(text, (n - 1) as nat);
            if self.covers(fold(text[n - 2]), fold(text[n - 1])) {
                let factor = self.probability(fold(text[n - 2]), fold(text[n - 1]));
                (before.0 * factor.0, before.1 * factor.1)
            } else {
                before
            }
        }
    }

    /// The weighted score of `text` is strictly above `min`.
    pub open spec fn clears(self, text: Seq<char>, min: Ratio) -> bool {
        self.weighted(text).0 * min.denominator() > min.numerator() * self.weighted(text).1
    }

    /// The probability of `b` following `a` as numerator and denominator;
    /// zero against a model without data.
    pub open spec fn probability(self, a: char, b: char) -> (nat, nat) {
        if self.total == 0 {
            (0, 1)
        } else {
            (self.weight(a, b), self.total as nat)
        }
    }

    /// The adjacent pair that ends at place `k` of `text` is a transition
    /// whose probability is below `min`.
    pub open spec fn is_rare(self, text: Seq<char>, k: int, min: Ratio) -> bool {
        &&& is_transition(self.charset, text, k)
        &&& min.numerator() * self.probability(fold(text[k - 1]), fold(text[k])).1
            > self.probability(fold(text[k - 1]), fold(text[k])).0 * min.denominator()
    }

    /// The number of transitions within the first `n` characters of `text`
    /// whose probability is below `min`.
    pub open spec fn rare(self, text: Seq<char>, n: nat, min: Ratio) -> nat
        decreases n,
    {
        if n < 2 {
            0
        } else {
            self.rare(text, (n - 1) as nat, min) + if self.is_rare(text, n - 1, min) {
                1nat
            } else {
                0nat
            }
        }
    }

    /// No weight has been recorded: the model carries no signal.
    pub open spec fn is_blank(self) -> bool {
        &&& self.total == 0
        &&& forall|k: int| 0 <= k < self.cells.len() ==> #[trigger] self.cells[k] == 0
    }

    /// The model holds exactly what `corpus` counts: each cell the number of
    /// times its pair occurs, the denominator the number of all transitions.
    pub open spec fn counts(self, corpus: Seq<char>) -> bool {
        &&& self.total == transitions(self.charset, corpus, corpus.len())
        &&& forall|i: int, j: int|
            0 <= i < self.size() && 0 <= j < self.size() ==> #[trigger] self.cell(i, j)
                == occurrences(corpus, self.charset[i], self.charset[j], corpus.len())
    }
}

/// No cell is larger than the sum of all cells.
pub proof fn lemma_cell_at_most_sum(cells: Seq<u64>, k: int)
    requires
        0 <= k < cells.len(),
    ensures
        cells[k] <= sum(cells),
    decreases cells.len(),
{
    if k < cells.len() - 1 {
        lemma_cell_at_most_sum(cells.drop_last(), k);
    }
}

/// Raising one cell by one raises the sum by one.
pub proof fn lemma_sum_after_increment(cells: Seq<u64>, k: int, v: u64)
    requires
        0 <= k < cells.len(),
        v == cells[k] + 1,
    ensures
        sum(cells.update(k, v)) == sum(cells) + 1,
    decreases cells.len(),
{
    let after = cells.update(k, v);
    if k < cells.len() - 1 {
        lemma_sum_after_increment(cells.drop_last(), k, v);
        assert(after.drop_last() =~= cells.drop_last().update(k, v));
    } else {
        assert(after.drop_last() =~= cells.drop_last());
    }
}

/// A table of zeros sums to zero.
pub proof fn lemma_sum_of_zeros(cells: Seq<u64>)
    requires
        forall|k: int| 0 <= k < cells.len() ==> cells[k] == 0,
    ensures
        sum(cells) == 0,
    decreases cells.len(),
{
    if cells.len() > 0 {
        lemma_sum_of_zeros(cells.drop_last());
    }
}

/// No cell is larger than the largest.
pub proof fn lemma_cell_at_most_largest(cells: Seq<u64>, k: int)
    requires
        0 <= k < cells.len(),
    ensures
        cells[k] <= largest(cells),
    decreases cells.len(),
{
    if k < cells.len() - 1 {
        lemma_cell_at_most_largest(cells.drop_last(), k);
    }
}

/// No pair weighs more than the largest cell.
pub proof fn lemma_weight_at_most_largest(m: Model, a: char, b: char)
    requires
        m.wf(),
    ensures
        m.weight(a, b) <= largest(m.cells),
{
    lemma_position_found(m.charset, a);
    lemma_position_found(m.charset, b);
    if let Some(i) = position(m.charset, a) {
        if let Some(j) = position(m.charset, b) {
            lemma_slot_range(i, j, m.size());
            lemma_cell_at_most_largest(m.cells, slot(i, j, m.size()));
        }
    }
}

/// The sum of the pair weights never shrinks as more of the text is taken.
pub proof fn lemma_weight_sum_monotone(m: Model, text: Seq<char>, shorter: nat, longer: nat)
    requires
        shorter <= longer,
    ensures
        m.weight_sum(text, shorter) <= m.weight_sum(text, longer),
    decreases longer,
{
    if shorter < longer {
        lemma_weight_sum_monotone(m, text, shorter, (longer - 1) as nat);
    }
}

/// The sum of the pair weights of `n` characters is at most `n` times the
/// largest cell.
pub proof fn lemma_weight_sum_bounded(m: Model, text: Seq<char>, n: nat)
    requires
        m.wf(),
    ensures
        m.weight_sum(text, n) <= n * largest(m.cells),
    decreases n,
{
    if n >= 2 {
        lemma_weight_sum_bounded(m, text, (n - 1) as nat);
        lemma_weight_at_most_largest(m, fold(text[n - 2]), fold(text[n - 1]));
        assert(n * largest(m.cells) == (n - 1) * largest(m.cells) + largest(m.cells))
            by (nonlinear_arith);
    } else {
        assert(n * largest(m.cells) >= 0) by (nonlinear_arith);
    }
}

/// The weighted score is never negative and never above the largest
/// probability in the matrix: `score <= largest / total`, here cross
/// multiplied. It holds of every text but a single character, whose score
/// is one whatever the matrix holds.
pub proof fn lemma_weighted_at_most_largest(m: Model, text: Seq<char>)
    requires
        m.wf(),
        text.len() != 1,
    ensures
        m.weighted(text).1 > 0,
        m.weighted(text).0 * m.total <= largest(m.cells) * m.weighted(text).1,
{
    let big = largest(m.cells);
    let len = text.len();
    if len == 0 || m.total == 0 {
        assert(0 * m.total == 0);
        assert(big * 1 >= 0);
    } else {
        lemma_weight_sum_bounded(m, text, len);
        let s = m.weight_sum(text, len);
        let t = m.total as nat;
        assert(s * t <= big * (t * len) && t * len > 0) by (nonlinear_arith)
            requires
                s <= len * big,
                t > 0,
                len > 0,
        ;
    }
}

/// The denominator of a weighted score is never zero.
pub proof fn lemma_weighted_denominator(m: Model, text: Seq<char>)
    ensures
        m.weighted(text).1 > 0,
{
    if text.len() > 1 && m.total > 0 {
        assert(m.total * text.len() > 0) by (nonlinear_arith)
            requires
                m.total > 0,
                text.len() > 0,
        ;
    }
}

/// Raising the threshold can only move a text from cleartext to not
/// cleartext: a text that clears the higher of two thresholds clears the
/// lower one as well.
pub proof fn lemma_threshold_monotone(m: Model, text: Seq<char>, low: Ratio, high: Ratio)
    requires
        low.denominator() > 0,
        high.denominator() > 0,
        low.at_most(high),
        m.clears(text, high),
    ensures
        m.clears(text, low),
{
    lemma_weighted_denominator(m, text);
    lemma_cross_order(
        m.weighted(text).0,
        m.weighted(text).1,
        low.numerator(),
        low.denominator(),
        high.numerator(),
        high.denominator(),
    );
}

/// Two texts are the same but for the case of their letters.
pub open spec fn same_folded(one: Seq<char>, other: Seq<char>) -> bool {
    &&& one.len() == other.len()
    &&& forall|i: int| 0 <= i < one.len() ==> fold(#[trigger] one[i]) == fold(other[i])
}

/// Counting is blind to case: texts that differ only in the case of their
/// letters hold the same pairs and the same transitions.
pub proof fn lemma_counts_ignore_case(
    cs: Seq<char>,
    one: Seq<char>,
    other: Seq<char>,
    a: char,
    b: char,
    n: nat,
)
    requires
        same_folded(one, other),
        n <= one.len(),
    ensures
        occurrences(one, a, b, n) == occurrences(other, a, b, n),
        transitions(cs, one, n) == transitions(cs, other, n),
    decreases n,
{
    if n >= 2 {
        lemma_counts_ignore_case(cs, one, other, a, b, (n - 1) as nat);
        assert(fold(one[n - 1]) == fold(other[n - 1]));
        assert(fold(one[n - 2]) == fold(other[n - 2]));
    }
}

/// A model that holds the counts of a corpus holds the counts of every
/// corpus that differs from it only in the case of its letters.
pub proof fn lemma_model_ignores_case(m: Model, one: Seq<char>, other: Seq<char>)
    requires
        same_folded(one, other),
        m.counts(one),
    ensures
        m.counts(other),
{
    lemma_counts_ignore_case(m.charset, one, other, 'a', 'a', one.len());
    assert forall|i: int, j: int| 0 <= i < m.size() && 0 <= j < m.size() implies #[trigger] m.cell(
        i,
        j,
    ) == occurrences(other, m.charset[i], m.charset[j], other.len()) by {
        lemma_counts_ignore_case(m.charset, one, other, m.charset[i], m.charset[j], one.len());
    }
}

/// Scoring is blind to case: texts that differ only in the case of their
/// letters have the same weighted and the same joint score.
pub proof fn lemma_scores_ignore_case(m: Model, one: Seq<char>, other: Seq<char>, n: nat)
    requires
        same_folded(one, other),
        n <= one.len(),
    ensures
        m.weight_sum(one, n) == m.weight_sum(other, n),
        m.joint(one, n) == m.joint(other, n),
        n == one.len() ==> m.weighted(one) == m.weighted(other),
    decreases n,
{
    if n >= 2 {
        lemma_scores_ignore_case(m, one, other, (n - 1) as nat);
        assert(fold(one[n - 1]) == fold(other[n - 1]));
        assert(fold(one[n - 2]) == fold(other[n - 2]));
    }
}

/// The joint score never grows as more of the text is taken, and never
/// exceeds one.
pub proof fn lemma_joint_decays(m: Model, text: Seq<char>, shorter: nat, longer: nat)
    requires
        m.wf(),
        shorter <= longer,
    ensures
        m.joint(text, longer) <= m.joint(text, shorter) <= JOINT_SCALE,
    decreases longer,
{
    if longer < 2 {
    } else if shorter == longer {
        lemma_joint_decays(m, text, (longer - 1) as nat, (longer - 1) as nat);
        lemma_joint_step(m, text, longer);
    } else {
        lemma_joint_decays(m, text, shorter, (longer - 1) as nat);
        lemma_joint_step(m, text, longer);
    }
}

proof fn lemma_joint_step(m: Model, text: Seq<char>, n: nat)
    requires
        m.wf(),
        n >= 2,
    ensures
        m.joint(text, n) <= m.joint(text, (n - 1) as nat),
{
    let before = m.joint(text, (n - 1) as nat);
    let a = fold(text[n - 2]);
    let b = fold(text[n - 1]);
    if m.covers(a, b) && m.total > 0 {
        lemma_weight_at_most_total(m, a, b);
        let w = m.weight(a, b);
        let t = m.total as nat;
        assert(before * w / t <= before) by (nonlinear_arith)
            requires
                0 <= w <= t,
                t > 0,
                before >= 0,
        ;
    }
}

/// The counts of the pairs that stand at the first `k` places of the table
/// over `cs`, within the first `n` characters of `text`, added up.
pub open spec fn tally(cs: Seq<char>, text: Seq<char>, n: nat, k: nat) -> nat
    decreases k,
{
    if k == 0 {
        0
    } else {
        tally(cs, text, n, (k - 1) as nat) + occurrences(
            text,
            cs[(k - 1) / (cs.len() as int)],
            cs[(k - 1) % (cs.len() as int)],
            n,
        )
    }
}

proof fn lemma_tally_grows(cs: Seq<char>, text: Seq<char>, n: nat, k: nat)
    requires
        cs.no_duplicates(),
        n >= 1,
        k <= cs.len() * cs.len(),
    ensures
        tally(cs, text, n + 1, k) == tally(cs, text, n, k) + if is_transition(cs, text, n as int)
            && slot(
            position(cs, fold(text[n - 1]))->0,
            position(cs, fold(text[n as int]))->0,
            cs.len() as int,
        ) < k {
            1nat
        } else {
            0nat
        },
    decreases k,
{
    if k > 0 {
        let d = cs.len() as int;
        let x = k - 1;
        lemma_tally_grows(cs, text, n, (k - 1) as nat);
        lemma_slot_of_place(x, d);
        let i = x / d;
        let j = x % d;
        let a = fold(text[n - 1]);
        let b = fold(text[n as int]);
        lemma_position_found(cs, a);
        lemma_position_found(cs, b);
        if is_transition(cs, text, n as int) {
            let p = position(cs, a)->0;
            let q = position(cs, b)->0;
            lemma_slot_range(p, q, d);
            if slot(p, q, d) == x {
                lemma_slot_injective(i, j, p, q, d);
                assert(is_pair(text, n as int, cs[i], cs[j]));
            } else {
                assert(!is_pair(text, n as int, cs[i], cs[j]));
            }
        } else {
            assert(!is_pair(text, n as int, cs[i], cs[j]));
        }
    }
}

proof fn lemma_tally_of_nothing(cs: Seq<char>, text: Seq<char>, n: nat, k: nat)
    requires
        n < 2,
    ensures
        tally(cs, text, n, k) == 0,
    decreases k,
{
    if k > 0 {
        lemma_tally_of_nothing(cs, text, n, (k - 1) as nat);
    }
}

/// Each transition of a text is counted for exactly one pair of the
/// alphabet: the counts of all pairs add up to the number of transitions.
pub proof fn lemma_tally_is_transitions(cs: Seq<char>, text: Seq<char>, n: nat)
    requires
        cs.no_duplicates(),
    ensures
        tally(cs, text, n, cs.len() * cs.len()) == transitions(cs, text, n),
    decreases n,
{
    let all = cs.len() * cs.len();
    if n < 2 {
        lemma_tally_of_nothing(cs, text, n, all);
    } else {
        let before = (n - 1) as nat;
        lemma_tally_is_transitions(cs, text, before);
        lemma_tally_grows(cs, text, before, all);
        if is_transition(cs, text, before as int) {
            lemma_position_found(cs, fold(text[before - 1]));
            lemma_position_found(cs, fold(text[before as int]));
            lemma_slot_range(
                position(cs, fold(text[before - 1]))->0,
                position(cs, fold(text[before as int]))->0,
                cs.len() as int,
            );
        }
    }
}

proof fn lemma_sum_is_tally(m: Model, corpus: Seq<char>, k: nat)
    requires
        m.wf(),
        m.counts(corpus),
        k <= m.cells.len(),
    ensures
        sum(m.cells.take(k as int)) == tally(m.charset, corpus, corpus.len(), k),
    decreases k,
{
    if k > 0 {
        lemma_sum_is_tally(m, corpus, (k - 1) as nat);
        let x = k - 1;
        lemma_slot_of_place(x, m.size());
        assert(m.cells.take(k as int).drop_last() =~= m.cells.take(k - 1));
        assert(m.cells.take(k as int).last() == m.cell(x / m.size(), x % m.size()));
    }
}

/// In every model that holds the counts of a corpus the cells add up to the
/// denominator. So where the corpus has at least one transition, the
/// probabilities of all pairs sum to exactly one.
pub proof fn lemma_counted_cells_sum(m: Model, corpus: Seq<char>)
    requires
        m.wf(),
        m.counts(corpus),
    ensures
        sum(m.cells) == m.total,
{
    lemma_sum_is_tally(m, corpus, m.cells.len());
    assert(m.cells.take(m.cells.len() as int) =~= m.cells);
    lemma_tally_is_transitions(m.charset, corpus, corpus.len());
}

proof fn lemma_rounded_factor(j: nat, num: nat, den: nat, k: nat, w: nat, t: nat)
    by (nonlinear_arith)
    requires
        den > 0,
        t > 0,
        w <= t,
        j * den <= JOINT_SCALE * num,
        JOINT_SCALE * num <= (j + k) * den,
    ensures
        den * t > 0,
        (j * w / t) * (den * t) <= JOINT_SCALE * (num * w),
        JOINT_SCALE * (num * w) <= ((j * w / t) + k + 1) * (den * t),
{
    let r = j * w / t;
    assert(r * t <= j * w < (r + 1) * t);
    assert(r * (den * t) == (r * t) * den);
    assert((r * t) * den <= (j * w) * den);
    assert((j * w) * den == w * (j * den));
    assert(w * (j * den) <= w * (JOINT_SCALE * num));
    assert(w * (JOINT_SCALE * num) == JOINT_SCALE * (num * w));
    assert(w * (JOINT_SCALE * num) <= w * ((j + k) * den));
    assert(w * ((j + k) * den) == (j * w) * den + (k * w) * den);
    assert((j * w) * den <= ((r + 1) * t) * den);
    assert((k * w) * den <= (k * t) * den);
    assert(((r + 1) * t) * den + (k * t) * den == (r + k + 1) * (den * t));
}

/// The joint score is the exact product rounded down: it never exceeds the
/// product, and falls short of it by at most one unit of `1 / JOINT_SCALE` for
/// each transition of the text.
pub proof fn lemma_joint_is_rounded_product(m: Model, text: Seq<char>, n: nat)
    requires
        m.wf(),
    ensures
        m.product(text, n).1 > 0,
        m.joint(text, n) * m.product(text, n).1 <= JOINT_SCALE * m.product(text, n).0,
        JOINT_SCALE * m.product(text, n).0 <= (m.joint(text, n) + transitions(m.charset, text, n))
            * m.product(text, n).1,
    decreases n,
{
    if n >= 2 {
        lemma_joint_is_rounded_product(m, text, (n - 1) as nat);
        let a = fold(text[n - 2]);
        let b = fold(text[n - 1]);
        let j = m.joint(text, (n - 1) as nat);
        let before = m.product(text, (n - 1) as nat);
        let k = transitions(m.charset, text, (n - 1) as nat);
        if m.covers(a, b) {
            assert(is_transition(m.charset, text, n - 1));
            if m.total == 0 {
                lemma_rounded_factor(j, before.0, before.1, k, 0, 1);
                assert(j * 0 / 1 == 0);
                assert(before.0 * 0 == 0);
                assert(before.1 * 1 == before.1);
            } else {
                lemma_weight_at_most_total(m, a, b);
                lemma_rounded_factor(j, before.0, before.1, k, m.weight(a, b), m.total as nat);
            }
        } else {
            assert(!is_transition(m.charset, text, n - 1));
        }
    }
}

/// The joint score has a floor: where the exact product is below one unit
/// of `1 / JOINT_SCALE`, the joint score is zero.
pub proof fn lemma_joint_floor(m: Model, text: Seq<char>, n: nat)
    requires
        m.wf(),
        JOINT_SCALE * m.product(text, n).0 < m.product(text, n).1,
    ensures
        m.joint(text, n) == 0,
{
    lemma_joint_is_rounded_product(m, text, n);
    let j = m.joint(text, n);
    let den = m.product(text, n).1;
    assert(j == 0) by (nonlinear_arith)
        requires
            j * den < den,
            den > 0,
            j >= 0,
    ;
}

/// No pair weighs more than the denominator: every probability is at most
/// one.
pub proof fn lemma_weight_at_most_total(m: Model, a: char, b: char)
    requires
        m.wf(),
    ensures
        m.weight(a, b) <= m.total,
{
    lemma_position_found(m.charset, a);
    lemma_position_found(m.charset, b);
    if let Some(i) = position(m.charset, a) {
        if let Some(j) = position(m.charset, b) {
            lemma_slot_range(i, j, m.size());
        }
    }
}

} // verus!
