//! The bigram analyzer: a dense matrix of transition weights over a fixed
//! alphabet, built from a corpus or read from its stored text, and the
//! scores of strings against it.

use crate::charset::{admissible, fold, fold_case, lemma_position_found, position, Charset};
use crate::model::{
    default_threshold, is_pair, is_transition, lemma_cell_at_most_sum, lemma_slot_injective,
    lemma_slot_range, lemma_sum_after_increment, lemma_sum_of_zeros, occurrences, slot, sum,
    transitions, Model, DEFAULT_THRESHOLD_DENOMINATOR, DEFAULT_THRESHOLD_NUMERATOR,
    JOINT_SCALE, SCALE,
};
use crate::ratio::{mul_div, Ratio};
use crate::storage::{
    agrees, fields_agree, held, layout, lemma_agreeing_fields, lemma_layout_round_trip,
    lemma_parsed_wf, lemma_round_trip, matrix_text, parsed, plain, read_matrix, stored,
    write_fields, write_matrix, FormatError,
};
use crate::table::{draw, draw_fields, rendered, table_layout, table_of, table_rows};
use crate::text::texts;
use vstd::prelude::*;

verus! {

/// A table of `n` times `n` zeros.
fn zeros(n: usize) -> (cells: Vec<u64>)
    requires
        n * n <= usize::MAX,
    ensures
        cells@.len() == n * n,
        forall|k: int| 0 <= k < cells@.len() ==> cells@[k] == 0,
{
    let size: usize = n * n;
    let mut cells: Vec<u64> = Vec::new();
    let mut k: usize = 0;
    while k < size
        invariant
            k <= size,
            cells@.len() == k,
            forall|m: int| 0 <= m < k ==> cells@[m] == 0,
        decreases size - k,
    {
        cells.push(0);
        k = k + 1;
    }
    cells
}

/// A bigram model together with the names of the sources it is meant to be
/// filled from.
pub struct BigramAnalyzer {
    charset: Charset,
    cells: Vec<u64>,
    total: u64,
    corpus_filename: Option<String>,
    matrix_filename: Option<String>,
}

impl View for BigramAnalyzer {
    type V = Model;

    closed spec fn view(&self) -> Model {
        Model { charset: self.charset@, cells: self.cells@, total: self.total }
    }
}

impl BigramAnalyzer {
    /// The analyzer holds a well-formed model.
    pub open spec fn wf(&self) -> bool {
        self@.wf()
    }

    /// The name of the corpus the analyzer was made for, if any.
    pub closed spec fn corpus_name(&self) -> Option<Seq<char>> {
        match self.corpus_filename {
            Some(name) => Some(name@),
            None => None,
        }
    }

    /// The name of the stored matrix the analyzer was made for, if any.
    pub closed spec fn matrix_name(&self) -> Option<Seq<char>> {
        match self.matrix_filename {
            Some(name) => Some(name@),
            None => None,
        }
    }

    /// A blank analyzer over `charset`, to be filled from the corpus named
    /// `corpus_filename`.
    pub fn from_corpus(charset: Vec<char>, corpus_filename: String) -> (r: Self)
        requires
            admissible(charset@),
        ensures
            r.wf(),
            r@.charset == charset@,
            r@.is_blank(),
            r.corpus_name() == Some(corpus_filename@),
            r.matrix_name() is None,
    {
        let n: usize = charset.len();
        let cells = zeros(n);
        let charset = Charset::new(charset).unwrap();
        BigramAnalyzer {
            charset,
            cells,
            total: 0,
            corpus_filename: Some(corpus_filename),
            matrix_filename: None,
        }
    }

    /// A blank analyzer over `charset`, to be filled from the stored matrix
    /// named `matrix_filename`.
    pub fn from_matrix(charset: Vec<char>, matrix_filename: String) -> (r: Self)
        requires
            admissible(charset@),
        ensures
            r.wf(),
            r@.charset == charset@,
            r@.is_blank(),
            r.corpus_name() is None,
            r.matrix_name() == Some(matrix_filename@),
    {
        let n: usize = charset.len();
        let cells = zeros(n);
        let charset = Charset::new(charset).unwrap();
        BigramAnalyzer {
            charset,
            cells,
            total: 0,
            corpus_filename: None,
            matrix_filename: Some(matrix_filename),
        }
    }

    /// Counts the transitions of `corpus` into the matrix, replacing what it
    /// held. Every character is folded first; a character outside the
    /// alphabet breaks the sequence. Afterwards each cell holds the number of
    /// times its pair occurs and the denominator the number of all
    /// transitions, so the cells add up to the denominator: the
    /// probabilities of a corpus with at least one transition sum to one.
    pub fn analyze_corpus(&mut self, corpus: &str)
        requires
            old(self).wf(),
        ensures
            final(self).wf(),
            final(self)@.charset == old(self)@.charset,
            final(self)@.counts(corpus@),
            sum(final(self)@.cells) == final(self)@.total,
            final(self).corpus_name() == old(self).corpus_name(),
            final(self).matrix_name() == old(self).matrix_name(),
    {
        let n: usize = self.charset.len();
        let len: usize = corpus.unicode_len();
        let size: usize = self.cells.len();
        assert(n * n == size);
        let mut cells = zeros(n);
        let mut total: u64 = 0;
        let mut prev: Option<usize> = None;
        let ghost cs = self.charset@;
        let ghost text = corpus@;
        proof {
            lemma_sum_of_zeros(cells@);
            assert forall|i: int, j: int| 0 <= i < n && 0 <= j < n implies cells@[#[trigger] slot(
                i,
                j,
                n as int,
            )] == 0 by {
                lemma_slot_range(i, j, n as int);
            }
        }
        for ch in it: corpus.chars()
            invariant
                it.seq() == text,
                len == text.len(),
                cs == self.charset@,
                cs.no_duplicates(),
                n == cs.len(),
                cells@.len() == n * n,
                n * n == size,
                total == transitions(cs, text, it.index() as nat),
                total <= it.index(),
                sum(cells@) == total,
                forall|i: int, j: int|
                    0 <= i < n && 0 <= j < n ==> cells@[#[trigger] slot(i, j, n as int)]
                        == occurrences(text, cs[i], cs[j], it.index() as nat),
                it.index() == 0 ==> prev is None,
                it.index() > 0 ==> match prev {
                    Some(p) => position(cs, fold(text[it.index() - 1])) == Some(p as int),
                    None => position(cs, fold(text[it.index() - 1])) is None,
                },
        {
            let ghost k = it.index() as int;
            let c = fold_case(ch);
            let here = self.charset.position(c);
            proof {
                lemma_position_found(cs, c);
                if k > 0 {
                    lemma_position_found(cs, fold(text[k - 1]));
                }
            }
            let ghost mut counted = false;
            if let Some(p) = prev {
                if let Some(q) = here {
                    proof {
                        lemma_slot_range(p as int, q as int, n as int);
                        lemma_cell_at_most_sum(cells@, slot(p as int, q as int, n as int));
                    }
                    assert(p * n + q < size);
                    let at: usize = p * n + q;
                    let ghost before = cells@;
                    let raised: u64 = cells[at] + 1;
                    cells.set(at, raised);
                    total = total + 1;
                    proof {
                        counted = true;
                        lemma_sum_after_increment(before, at as int, raised);
                        assert forall|i: int, j: int| 0 <= i < n && 0 <= j < n implies cells@[#[trigger] slot(
                            i,
                            j,
                            n as int,
                        )] == occurrences(text, cs[i], cs[j], (k + 1) as nat) by {
                            lemma_slot_range(i, j, n as int);
                            if i == p && j == q {
                                assert(is_pair(text, k, cs[i], cs[j]));
                            } else {
                                if slot(i, j, n as int) == at {
                                    lemma_slot_injective(i, j, p as int, q as int, n as int);
                                }
                                assert(!is_pair(text, k, cs[i], cs[j]));
                            }
                        }
                        assert(is_transition(cs, text, k));
                    }
                }
            }
            proof {
                if !counted {
                    assert forall|i: int, j: int| 0 <= i < n && 0 <= j < n implies cells@[#[trigger] slot(
                        i,
                        j,
                        n as int,
                    )] == occurrences(text, cs[i], cs[j], (k + 1) as nat) by {
                        if k > 0 {
                            assert(!is_pair(text, k, cs[i], cs[j]));
                        }
                    }
                    assert(k > 0 ==> !is_transition(cs, text, k));
                }
            }
            prev = here;
        }
        proof {
            assert forall|m: int| 0 <= m < cells@.len() implies #[trigger] cells@[m] <= total by {
                lemma_cell_at_most_sum(cells@, m);
            }
        }
        self.cells = cells;
        self.total = total;
    }

    /// The weighted score of `string`: the sum of the probabilities of all
    /// its adjacent pairs of alphabet characters, divided by the number of
    /// all its characters. A single character always scores exactly one; the
    /// empty string scores zero, and so does any string against a model
    /// without data.
    pub fn weighted_slice_probability(&self, string: &str) -> (r: Ratio)
        requires
            self.wf(),
        ensures
            r.numerator() == self@.weighted(string@).0,
            r.denominator() == self@.weighted(string@).1,
            string@.len() == 1 ==> r.numerator() == 1 && r.denominator() == 1,
    {
        let n: usize = self.charset.len();
        let len: usize = string.unicode_len();
        let size: usize = self.cells.len();
        let mut acc: u128 = 0;
        let mut prev: Option<usize> = None;
        let ghost cs = self.charset@;
        let ghost text = string@;
        for ch in it: string.chars()
            invariant
                it.seq() == text,
                len == text.len(),
                self.wf(),
                cs == self@.charset,
                n == cs.len(),
                n * n == size,
                size == self.cells@.len(),
                acc == self@.weight_sum(text, it.index() as nat),
                acc <= it.index() * self.total,
                it.index() == 0 ==> prev is None,
                it.index() > 0 ==> match prev {
                    Some(p) => position(cs, fold(text[it.index() - 1])) == Some(p as int),
                    None => position(cs, fold(text[it.index() - 1])) is None,
                },
        {
            let ghost k = it.index() as int;
            let c = fold_case(ch);
            let here = self.charset.position(c);
            proof {
                lemma_position_found(cs, c);
                assert((k + 1) * self.total == k * self.total + self.total) by (nonlinear_arith);
                assert((k + 1) * self.total <= 0xffff_ffff_ffff_ffff * 0xffff_ffff_ffff_ffff)
                    by (nonlinear_arith)
                    requires
                        0 <= k + 1 <= 0xffff_ffff_ffff_ffff,
                        0 <= self.total <= 0xffff_ffff_ffff_ffff,
                ;
            }
            if let Some(p) = prev {
                if let Some(q) = here {
                    proof {
                        lemma_slot_range(p as int, q as int, n as int);
                    }
                    assert(p * n + q < size);
                    let w: u64 = self.cells[p * n + q];
                    assert(w == self@.pair_weight(text, k));
                    acc = acc + w as u128;
                }
            }
            prev = here;
        }
        if len == 1 {
            Ratio::of(1, 1)
        } else if len == 0 || self.total == 0 {
            Ratio::of(0, 1)
        } else {
            assert(0 < self.total * len <= 0xffff_ffff_ffff_ffff * 0xffff_ffff_ffff_ffff)
                by (nonlinear_arith)
                requires
                    0 < len <= 0xffff_ffff_ffff_ffff,
                    0 < self.total <= 0xffff_ffff_ffff_ffff,
            ;
            Ratio::of(acc, self.total as u128 * len as u128)
        }
    }

    /// The joint score of `string`: the product of the probabilities of all
    /// its adjacent pairs of alphabet characters, starting from one, as a
    /// fraction over `JOINT_SCALE` that is rounded down after each factor.
    /// It decays towards zero as the string grows, and it has a floor: a
    /// product below `1 / JOINT_SCALE`, ten to the minus thirty-eighth,
    /// comes out as exactly zero, so strings whose products are that small
    /// are not told apart.
    pub fn slice_probability(&self, string: &str) -> (r: Ratio)
        requires
            self.wf(),
        ensures
            r.numerator() == self@.joint(string@, string@.len()),
            r.denominator() == JOINT_SCALE,
            r.numerator() <= JOINT_SCALE,
    {
        let n: usize = self.charset.len();
        let size: usize = self.cells.len();
        let mut product: u128 = JOINT_SCALE;
        let mut prev: Option<usize> = None;
        let ghost cs = self.charset@;
        let ghost text = string@;
        for ch in it: string.chars()
            invariant
                it.seq() == text,
                self.wf(),
                cs == self@.charset,
                n == cs.len(),
                n * n == size,
                size == self.cells@.len(),
                product == self@.joint(text, it.index() as nat),
                product <= JOINT_SCALE,
                it.index() == 0 ==> prev is None,
                it.index() > 0 ==> match prev {
                    Some(p) => position(cs, fold(text[it.index() - 1])) == Some(p as int),
                    None => position(cs, fold(text[it.index() - 1])) is None,
                },
        {
            let ghost k = it.index() as int;
            let c = fold_case(ch);
            let here = self.charset.position(c);
            proof {
                lemma_position_found(cs, c);
                if k > 0 {
                    lemma_position_found(cs, fold(text[k - 1]));
                }
            }
            if let Some(p) = prev {
                if let Some(q) = here {
                    proof {
                        lemma_slot_range(p as int, q as int, n as int);
                    }
                    assert(p * n + q < size);
                    let w: u64 = self.cells[p * n + q];
                    assert(w == self@.pair_weight(text, k));
                    if self.total == 0 {
                        product = 0;
                    } else {
                        proof {
                            lemma_slot_range(p as int, q as int, n as int);
                        }
                        product = mul_div(product, w, self.total);
                    }
                }
            }
            prev = here;
        }
        Ratio::of(product, JOINT_SCALE)
    }

    /// Classifies `word` as cleartext: its weighted score is strictly above
    /// `min_score`, or above one in ten thousand where none is given.
    pub fn is_word_cleartext(&self, word: &str, min_score: Option<Ratio>) -> (clear: bool)
        requires
            self.wf(),
        ensures
            clear == self@.clears(
                word@,
                match min_score {
                    Some(min) => min,
                    None => default_threshold(),
                },
            ),
    {
        let score = self.weighted_slice_probability(word);
        match min_score {
            Some(min) => score.is_greater_than(&min),
            None => {
                let min = Ratio::of(DEFAULT_THRESHOLD_NUMERATOR, DEFAULT_THRESHOLD_DENOMINATOR);
                score.is_greater_than(&min)
            },
        }
    }

    /// The number of transitions of `word` whose probability is below `min`.
    pub fn rare_transitions(&self, word: &str, min: &Ratio) -> (count: usize)
        requires
            self.wf(),
        ensures
            count == self@.rare(word@, word@.len(), *min),
    {
        let n: usize = self.charset.len();
        let len: usize = word.unicode_len();
        let size: usize = self.cells.len();
        let mut count: usize = 0;
        let mut prev: Option<usize> = None;
        let ghost cs = self.charset@;
        let ghost text = word@;
        for ch in it: word.chars()
            invariant
                it.seq() == text,
                len == text.len(),
                self.wf(),
                cs == self@.charset,
                n == cs.len(),
                n * n == size,
                size == self.cells@.len(),
                count == self@.rare(text, it.index() as nat, *min),
                count <= it.index(),
                it.index() == 0 ==> prev is None,
                it.index() > 0 ==> match prev {
                    Some(p) => position(cs, fold(text[it.index() - 1])) == Some(p as int),
                    None => position(cs, fold(text[it.index() - 1])) is None,
                },
        {
            let ghost k = it.index() as int;
            let c = fold_case(ch);
            let here = self.charset.position(c);
            proof {
                lemma_position_found(cs, c);
                if k > 0 {
                    lemma_position_found(cs, fold(text[k - 1]));
                }
            }
            if let Some(p) = prev {
                if let Some(q) = here {
                    proof {
                        lemma_slot_range(p as int, q as int, n as int);
                    }
                    assert(p * n + q < size);
                    let w: u64 = self.cells[p * n + q];
                    assert(w == self@.pair_weight(text, k));
                    let chance = if self.total == 0 {
                        Ratio::of(0, 1)
                    } else {
                        Ratio::of(w as u128, self.total as u128)
                    };
                    if min.is_greater_than(&chance) {
                        count = count + 1;
                    }
                }
            }
            prev = here;
        }
        count
    }

    /// Classifies `word` by counting: it is cleartext if fewer than
    /// `max_occurrences` of its transitions have a probability below
    /// `min_score`, or below one in ten thousand where none is given.
    pub fn is_word_cleartext_by_count(
        &self,
        word: &str,
        min_score: Option<Ratio>,
        max_occurrences: usize,
    ) -> (clear: bool)
        requires
            self.wf(),
        ensures
            clear == (self@.rare(
                word@,
                word@.len(),
                match min_score {
                    Some(min) => min,
                    None => default_threshold(),
                },
            ) < max_occurrences),
    {
        let min = match min_score {
            Some(min) => min,
            None => Ratio::of(DEFAULT_THRESHOLD_NUMERATOR, DEFAULT_THRESHOLD_DENOMINATOR),
        };
        self.rare_transitions(word, &min) < max_occurrences
    }

    /// The stored text of the matrix: the header line, then one line of
    /// probabilities per character, each written in the shortest form that
    /// holds its eighteen places. Unless the alphabet holds a comma, a
    /// newline or a carriage return, reading the text gives the model back,
    /// each probability rounded down to the eighteenth place.
    pub fn store_matrix(&self) -> (out: String)
        requires
            self.wf(),
        ensures
            out@ == matrix_text(self@),
            plain(self@.charset) ==> parsed(out@) == Ok::<Model, FormatError>(stored(self@)),
    {
        let size: usize = self.cells.len();
        proof {
            if plain(self@.charset) {
                lemma_round_trip(self@);
            }
        }
        write_matrix(&self.charset, &self.cells, self.total)
    }

    /// The stored text of the matrix with the probabilities as the caller
    /// has written them, in `fields` row by row: for a caller that writes
    /// numbers its own way, as floating-point numbers are printed. It is
    /// given only for fields that stand for the model: one row per
    /// character with one field per character, each a probability within a
    /// millionth of that of its cell. Unless the alphabet holds a comma, a
    /// newline or a carriage return, reading the text gives the alphabet
    /// and those probabilities back.
    pub fn store_matrix_as(&self, fields: &Vec<Vec<String>>) -> (r: Option<String>)
        requires
            self.wf(),
        ensures
            match r {
                Some(out) => agrees(self@, texts(fields@)) && out@ == layout(
                    self@.charset,
                    texts(fields@),
                ) && (plain(self@.charset) ==> parsed(out@) == Ok::<Model, FormatError>(
                    held(self@.charset, texts(fields@)),
                )),
                None => !agrees(self@, texts(fields@)),
            },
    {
        if fields_agree(&self.charset, &self.cells, self.total, fields) {
            let size: usize = self.cells.len();
            proof {
                lemma_agreeing_fields(self@, texts(fields@));
                if plain(self@.charset) {
                    lemma_layout_round_trip(self@.charset, texts(fields@));
                }
            }
            Some(write_fields(&self.charset, fields))
        } else {
            None
        }
    }

    /// The matrix drawn as a table with the probabilities as the caller has
    /// written them; given only for fields that stand for the model, as
    /// `store_matrix_as` is.
    pub fn print_matrix_as(&self, fields: &Vec<Vec<String>>) -> (r: Option<String>)
        requires
            self.wf(),
        ensures
            match r {
                Some(out) => agrees(self@, texts(fields@)) && out@ == rendered(
                    table_layout(self@.charset, texts(fields@)),
                ),
                None => !agrees(self@, texts(fields@)),
            },
    {
        if fields_agree(&self.charset, &self.cells, self.total, fields) {
            Some(draw_fields(&self.charset, &self.cells, self.total, fields))
        } else {
            None
        }
    }

    /// Replaces the model by the one that `text` stores: the alphabet of
    /// its header line, and its probabilities as numerators over `SCALE`.
    /// A text that is no stored matrix is refused with the first thing
    /// wrong with it, and the analyzer is left as it was.
    pub fn load_matrix(&mut self, text: &str) -> (r: Result<(), FormatError>)
        requires
            old(self).wf(),
        ensures
            match r {
                Ok(()) => parsed(text@) == Ok::<Model, FormatError>(final(self)@),
                Err(e) => parsed(text@) == Err::<Model, FormatError>(e) && *final(self) == *old(
                    self,
                ),
            },
            final(self).wf(),
            final(self).corpus_name() == old(self).corpus_name(),
            final(self).matrix_name() == old(self).matrix_name(),
    {
        proof {
            lemma_parsed_wf(text@);
        }
        match read_matrix(text) {
            Ok((charset, cells)) => {
                self.charset = charset;
                self.cells = cells;
                self.total = SCALE;
                Ok(())
            },
            Err(e) => Err(e),
        }
    }

    /// The cells of the table that shows the matrix: a title row with the
    /// alphabet, then one row per character with its probabilities.
    pub fn matrix_table(&self) -> (rows: Vec<Vec<String>>)
        requires
            self.wf(),
        ensures
            texts(rows@) == table_rows(self@),
    {
        table_of(&self.charset, &self.cells, self.total)
    }

    /// The matrix drawn as a table, ready to be printed.
    pub fn print_matrix(&self) -> (out: String)
        requires
            self.wf(),
        ensures
            out@ == rendered(table_rows(self@)),
    {
        draw(&self.charset, &self.cells, self.total)
    }

    /// The number of characters in the alphabet.
    pub fn size(&self) -> (n: usize)
        ensures
            n == self@.charset.len(),
    {
        self.charset.len()
    }

    /// The character at place `i` of the alphabet.
    pub fn character(&self, i: usize) -> (c: char)
        requires
            i < self@.charset.len(),
        ensures
            c == self@.charset[i as int],
    {
        self.charset.get(i)
    }

    /// The weight in the cell of the characters at places `i` and `j` of
    /// the alphabet: over `total`, the probability of the second following
    /// the first.
    pub fn cell(&self, i: usize, j: usize) -> (w: u64)
        requires
            self.wf(),
            i < self@.charset.len(),
            j < self@.charset.len(),
        ensures
            w == self@.cell(i as int, j as int),
            w <= self@.total,
    {
        let n: usize = self.charset.len();
        let size: usize = self.cells.len();
        proof {
            lemma_slot_range(i as int, j as int, n as int);
        }
        assert(i * n + j < size);
        self.cells[i * n + j]
    }

    /// The denominator of every probability in the matrix: the number of
    /// transitions counted, or `SCALE` for a matrix that was loaded.
    pub fn total(&self) -> (t: u64)
        ensures
            t == self@.total,
    {
        self.total
    }

    /// The weight of `second` following `first`, both folded; zero where
    /// either is outside the alphabet. Over `total` it is the probability
    /// of the pair.
    pub fn weight(&self, first: char, second: char) -> (w: u64)
        requires
            self.wf(),
        ensures
            w == self@.weight(fold(first), fold(second)),
            w <= self@.total,
    {
        let n: usize = self.charset.len();
        let size: usize = self.cells.len();
        proof {
            lemma_position_found(self@.charset, fold(first));
            lemma_position_found(self@.charset, fold(second));
        }
        match self.charset.position(fold_case(first)) {
            Some(p) => match self.charset.position(fold_case(second)) {
                Some(q) => {
                    proof {
                        lemma_slot_range(p as int, q as int, n as int);
                    }
                    assert(p * n + q < size);
                    self.cells[p * n + q]
                },
                None => 0,
            },
            None => 0,
        }
    }

    /// The name of the corpus the analyzer was made for, if any.
    pub fn corpus_filename(&self) -> (name: &Option<String>)
        ensures
            match name {
                Some(text) => self.corpus_name() == Some(text@),
                None => self.corpus_name() is None,
            },
    {
        &self.corpus_filename
    }

    /// The name of the stored matrix the analyzer was made for, if any.
    pub fn matrix_filename(&self) -> (name: &Option<String>)
        ensures
            match name {
                Some(text) => self.matrix_name() == Some(text@),
                None => self.matrix_name() is None,
            },
    {
        &self.matrix_filename
    }
}

} // verus!
