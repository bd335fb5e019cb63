//! The stored text of a matrix.
//!
//! The first line lists the alphabet, each character followed by a comma.
//! One line per character follows, in the same order; it holds one field per
//! character, each followed by a comma: the probability of that character
//! following the line's own, as a decimal number. Lines end with a newline.

use crate::charset::Charset;
use crate::decimal::{
    field_text, field_value, fixed, fixed_point, is_number, is_number_char,
    lemma_field_round_trip, lemma_field_value_bound, lemma_number_chars, parse_field, push_field,
    Field,
};
use crate::model::{lemma_slot_of_place, lemma_slot_range, slot, Model, SCALE};
use crate::text::{
    chars_of, contents, join, lemma_join_take, lemma_split_join, lemma_split_nonempty, row_texts,
    split, split_chars, texts, without,
};
use vstd::string::StringExecFns;
use vstd::arithmetic::div_mod::{lemma_fundamental_div_mod, lemma_fundamental_div_mod_converse};
use vstd::prelude::*;

verus! {

/// Why a text is not a stored matrix.
#[derive(Debug, Clone, Copy, PartialEq, Eq)]
pub enum FormatError {
    /// The text is empty: there is no header line.
    MissingHeader,
    /// The header names more characters than a table can be addressed for.
    TooManyCharacters,
    /// The header names a character twice.
    RepeatedCharacter,
    /// The text ends before the line of this row.
    MissingRow { row: usize },
    /// The line of this row does not hold one field per header character.
    FieldCount { row: usize },
    /// This field is not a number.
    BadField { row: usize, column: usize },
    /// This field is a number, but no probability: it is below zero or
    /// above one.
    NotProbability { row: usize, column: usize },
    /// This line, after the last row, is not empty.
    TrailingText { line: usize },
}

/// The least `i` below `n` for which `bad` holds.
pub open spec fn first_where(n: nat, bad: spec_fn(int) -> bool) -> Option<int>
    decreases n,
{
    if n == 0 {
        None
    } else {
        match first_where((n - 1) as nat, bad) {
            Some(i) => Some(i),
            None => if bad(n - 1) {
                Some(n - 1)
            } else {
                None
            },
        }
    }
}

/// Where `bad` holds nowhere, nothing is found.
pub proof fn lemma_first_where_none(n: nat, bad: spec_fn(int) -> bool)
    requires
        forall|i: int| 0 <= i < n ==> !#[trigger] bad(i),
    ensures
        first_where(n, bad) is None,
    decreases n,
{
    if n > 0 {
        lemma_first_where_none((n - 1) as nat, bad);
    }
}

/// Where `bad` holds at `i` and nowhere before, `i` is found.
pub proof fn lemma_first_where_found(n: nat, bad: spec_fn(int) -> bool, i: int)
    requires
        0 <= i < n,
        bad(i),
        forall|j: int| 0 <= j < i ==> !#[trigger] bad(j),
    ensures
        first_where(n, bad) == Some(i),
    decreases n,
{
    if n - 1 == i {
        lemma_first_where_none(i as nat, bad);
    } else {
        lemma_first_where_found((n - 1) as nat, bad, i);
    }
}

/// Where nothing is found, `bad` holds nowhere.
pub proof fn lemma_first_where_clear(n: nat, bad: spec_fn(int) -> bool, i: int)
    requires
        first_where(n, bad) is None,
        0 <= i < n,
    ensures
        !bad(i),
    decreases n,
{
    if i < n - 1 {
        lemma_first_where_clear((n - 1) as nat, bad, i);
    }
}

/// The alphabet as header fields: one character each.
pub open spec fn header_fields(cs: Seq<char>) -> Seq<Seq<char>> {
    Seq::new(cs.len(), |i: int| seq![cs[i]])
}

/// The fields of row `i`: the probabilities of each character following the
/// `i`-th, in fixed point.
pub open spec fn row_fields(m: Model, i: int) -> Seq<Seq<char>> {
    Seq::new(m.charset.len(), |j: int| field_text(fixed(m.cell(i, j), m.total as nat)))
}

/// The lines of the stored text, without their newlines.
pub open spec fn matrix_lines(m: Model) -> Seq<Seq<char>> {
    Seq::new(
        m.charset.len() + 1,
        |r: int|
            if r == 0 {
                join(header_fields(m.charset), ',')
            } else {
                join(row_fields(m, r - 1), ',')
            },
    )
}

/// The stored text of a model.
pub open spec fn matrix_text(m: Model) -> Seq<char> {
    join(matrix_lines(m), '\n')
}

/// The lines of the stored text that holds the given fields, row by row,
/// under the header of the alphabet `cs`.
pub open spec fn layout_lines(cs: Seq<char>, fields: Seq<Seq<Seq<char>>>) -> Seq<Seq<char>> {
    Seq::new(
        fields.len() + 1,
        |r: int|
            if r == 0 {
                join(header_fields(cs), ',')
            } else {
                join(fields[r - 1], ',')
            },
    )
}

/// The stored text that holds the given fields: the header line of the
/// alphabet, then one line per row, every field followed by a comma and
/// every line by a newline.
pub open spec fn layout(cs: Seq<char>, fields: Seq<Seq<Seq<char>>>) -> Seq<char> {
    join(layout_lines(cs, fields), '\n')
}

/// The fields of the stored text of a model, row by row.
pub open spec fn number_fields(m: Model) -> Seq<Seq<Seq<char>>> {
    Seq::new(m.charset.len(), |i: int| row_fields(m, i))
}

/// The stored text of a model is the layout of its own fields.
pub proof fn lemma_matrix_text_is_layout(m: Model)
    ensures
        matrix_text(m) == layout(m.charset, number_fields(m)),
{
    assert(matrix_lines(m) =~= layout_lines(m.charset, number_fields(m)));
}

/// How far a field that the caller has written may be from the probability
/// it stands for: a millionth, in units of `1 / SCALE`.
pub const TOLERANCE: u64 = 1_000_000_000_000;

/// The field in row `i` and column `j` is a probability, and within the
/// tolerance of that of the model's cell.
pub open spec fn field_agrees(m: Model, fields: Seq<Seq<Seq<char>>>, i: int, j: int) -> bool {
    &&& field_value(fields[i][j]) matches Some(q)
    &&& q <= fixed(m.cell(i, j), m.total as nat) + TOLERANCE
    &&& fixed(m.cell(i, j), m.total as nat) <= q + TOLERANCE
}

/// The fields stand for the model: there is one row per character with one
/// field per character, and every field agrees with its cell.
pub open spec fn agrees(m: Model, fields: Seq<Seq<Seq<char>>>) -> bool {
    &&& fields.len() == m.size()
    &&& forall|i: int| 0 <= i < m.size() ==> (#[trigger] fields[i]).len() == m.size()
    &&& forall|i: int, j: int|
        0 <= i < m.size() && 0 <= j < m.size() ==> #[trigger] field_agrees(m, fields, i, j)
}

/// A line without the carriage return that may end it.
pub open spec fn strip_cr(line: Seq<char>) -> Seq<char> {
    if line.len() > 0 && line.last() == '\r' {
        line.drop_last()
    } else {
        line
    }
}

/// The fields of a line: its pieces between commas, without the empty piece
/// that follows a closing comma.
pub open spec fn row_pieces(line: Seq<char>) -> Seq<Seq<char>> {
    let pieces = split(strip_cr(line), ',');
    if pieces.last().len() == 0 {
        pieces.drop_last()
    } else {
        pieces
    }
}

/// Tells of each field of a row whether it fails to be a probability.
pub open spec fn field_is_bad(fields: Seq<Seq<char>>) -> spec_fn(int) -> bool {
    |j: int| field_value(fields[j]) is None
}

/// What is wrong with row `i` of a text with `n` header characters, if
/// anything: its line is missing, it does not hold `n` fields, or one of
/// them, the first such, is no number or no probability.
pub open spec fn row_error(lines: Seq<Seq<char>>, n: nat, i: int) -> Option<FormatError> {
    if 1 + i >= lines.len() {
        Some(FormatError::MissingRow { row: i as usize })
    } else if row_pieces(lines[1 + i]).len() != n {
        Some(FormatError::FieldCount { row: i as usize })
    } else {
        match first_where(n, field_is_bad(row_pieces(lines[1 + i]))) {
            Some(j) => if is_number(row_pieces(lines[1 + i])[j]) {
                Some(FormatError::NotProbability { row: i as usize, column: j as usize })
            } else {
                Some(FormatError::BadField { row: i as usize, column: j as usize })
            },
            None => None,
        }
    }
}

/// Tells of each row whether something is wrong with it.
pub open spec fn row_is_bad(lines: Seq<Seq<char>>, n: nat) -> spec_fn(int) -> bool {
    |i: int| row_error(lines, n, i) is Some
}

/// Tells of each line after the last row, counted from the first such line,
/// whether it holds anything.
pub open spec fn line_is_extra(lines: Seq<Seq<char>>, n: nat) -> spec_fn(int) -> bool {
    |r: int| strip_cr(lines[n + 1 + r]).len() > 0
}

/// The number in field `j` of row `i`.
pub open spec fn cell_value(lines: Seq<Seq<char>>, i: int, j: int) -> u64 {
    field_value(row_pieces(lines[1 + i])[j]).unwrap() as u64
}

/// All numbers of a text with `n` header characters, row by row.
pub open spec fn cell_values(lines: Seq<Seq<char>>, n: nat) -> Seq<u64> {
    Seq::new(n * n, |k: int| cell_value(lines, k / (n as int), k % (n as int)))
}

/// What a text holds: the model it stores, or the first thing that keeps it
/// from being a stored matrix.
///
/// The alphabet is the header line without its commas. Exactly one line per
/// header character must follow, each with exactly one probability per
/// header character; whatever comes after must be empty lines. The
/// probabilities are held as numerators over `SCALE`.
pub open spec fn parsed(text: Seq<char>) -> Result<Model, FormatError> {
    let lines = split(text, '\n');
    let cs = without(strip_cr(lines[0]), ',');
    let n = cs.len();
    if text.len() == 0 {
        Err(FormatError::MissingHeader)
    } else if n * n > usize::MAX {
        Err(FormatError::TooManyCharacters)
    } else if !cs.no_duplicates() {
        Err(FormatError::RepeatedCharacter)
    } else {
        match first_where(n, row_is_bad(lines, n)) {
            Some(i) => Err(row_error(lines, n, i).unwrap()),
            None => match first_where((lines.len() - (n + 1)) as nat, line_is_extra(lines, n)) {
                Some(r) => Err(FormatError::TrailingText { line: (n + 1 + r) as usize }),
                None => Ok(Model { charset: cs, cells: cell_values(lines, n), total: SCALE }),
            },
        }
    }
}

/// Writes the stored text of the model made of `charset`, `cells` and
/// `total`.
pub fn write_matrix(charset: &Charset, cells: &Vec<u64>, total: u64) -> (out: String)
    requires
        (Model { charset: charset@, cells: cells@, total }).wf(),
    ensures
        out@ == matrix_text(Model { charset: charset@, cells: cells@, total }),
{
    let ghost m = Model { charset: charset@, cells: cells@, total };
    let ghost lines = matrix_lines(m);
    let n: usize = charset.len();
    let size: usize = cells.len();
    let mut out = String::new();
    let mut i: usize = 0;
    let ghost head = header_fields(m.charset);
    while i < n
        invariant
            0 <= i <= n,
            n == m.charset.len(),
            m.charset == charset@,
            head == header_fields(m.charset),
            out@ == join(head.take(i as int), ','),
        decreases n - i,
    {
        proof {
            lemma_join_take(head, ',', i as int);
        }
        out.push(charset.get(i));
        out.push(',');
        assert(out@ =~= join(head.take(i as int), ',') + head[i as int] + seq![',']);
        i = i + 1;
    }
    proof {
        assert(head.take(n as int) =~= head);
        lemma_join_take(lines, '\n', 0);
        assert(join(lines.take(0), '\n') =~= Seq::<char>::empty());
    }
    out.push('\n');
    assert(out@ =~= join(lines.take(1), '\n'));
    let mut i: usize = 0;
    while i < n
        invariant
            0 <= i <= n,
            n == m.charset.len(),
            n * n == size,
            size == cells@.len(),
            m == (Model { charset: charset@, cells: cells@, total }),
            m.wf(),
            lines == matrix_lines(m),
            out@ == join(lines.take(1 + i), '\n'),
        decreases n - i,
    {
        let ghost before = out@;
        let ghost fields = row_fields(m, i as int);
        let mut j: usize = 0;
        assert(out@ =~= before + join(fields.take(0), ','));
        while j < n
            invariant
                0 <= j <= n,
                0 <= i < n,
                n == m.charset.len(),
                n * n == size,
                size == cells@.len(),
                m == (Model { charset: charset@, cells: cells@, total }),
                m.wf(),
                fields == row_fields(m, i as int),
                out@ == before + join(fields.take(j as int), ','),
            decreases n - j,
        {
            proof {
                lemma_slot_range(i as int, j as int, n as int);
                lemma_join_take(fields, ',', j as int);
            }
            assert(i * n + j < size);
            let q: u64 = fixed_point(cells[i * n + j], total);
            push_field(&mut out, q);
            out.push(',');
            assert(out@ =~= before + (join(fields.take(j as int), ',') + fields[j as int]
                + seq![',']));
            j = j + 1;
        }
        proof {
            assert(fields.take(n as int) =~= fields);
            lemma_join_take(lines, '\n', 1 + i);
        }
        out.push('\n');
        assert(out@ =~= join(lines.take(1 + i), '\n') + lines[1 + i] + seq!['\n']);
        i = i + 1;
    }
    assert(lines.take(1 + n) =~= lines);
    out
}

/// Lays out a stored text from fields that the caller has written: the
/// header line of `charset`, then one line per row of `fields`.
pub fn write_fields(charset: &Charset, fields: &Vec<Vec<String>>) -> (out: String)
    ensures
        out@ == layout(charset@, texts(fields@)),
{
    let ghost all = texts(fields@);
    let ghost lines = layout_lines(charset@, all);
    let ghost head = header_fields(charset@);
    let n: usize = charset.len();
    let mut out = String::new();
    let mut i: usize = 0;
    while i < n
        invariant
            0 <= i <= n,
            n == charset@.len(),
            head == header_fields(charset@),
            out@ == join(head.take(i as int), ','),
        decreases n - i,
    {
        proof {
            lemma_join_take(head, ',', i as int);
        }
        out.push(charset.get(i));
        out.push(',');
        assert(out@ =~= join(head.take(i as int), ',') + head[i as int] + seq![',']);
        i = i + 1;
    }
    proof {
        assert(head.take(n as int) =~= head);
        lemma_join_take(lines, '\n', 0);
        assert(join(lines.take(0), '\n') =~= Seq::<char>::empty());
    }
    out.push('\n');
    assert(out@ =~= join(lines.take(1), '\n'));
    let rows: usize = fields.len();
    let mut i: usize = 0;
    while i < rows
        invariant
            0 <= i <= rows,
            rows == fields@.len(),
            all == texts(fields@),
            lines == layout_lines(charset@, all),
            out@ == join(lines.take(1 + i), '\n'),
        decreases rows - i,
    {
        let ghost before = out@;
        let row = &fields[i];
        let ghost want = row_texts(row@);
        assert(all[i as int] == want);
        let width: usize = row.len();
        let mut j: usize = 0;
        assert(out@ =~= before + join(want.take(0), ','));
        while j < width
            invariant
                0 <= j <= width,
                width == row@.len(),
                want == row_texts(row@),
                out@ == before + join(want.take(j as int), ','),
            decreases width - j,
        {
            proof {
                lemma_join_take(want, ',', j as int);
            }
            out.append(row[j].as_str());
            out.push(',');
            assert(out@ =~= before + (join(want.take(j as int), ',') + want[j as int] + seq![',']));
            j = j + 1;
        }
        proof {
            assert(want.take(width as int) =~= want);
            lemma_join_take(lines, '\n', 1 + i);
        }
        out.push('\n');
        assert(out@ =~= join(lines.take(1 + i), '\n') + lines[1 + i] + seq!['\n']);
        i = i + 1;
    }
    assert(lines.take(1 + rows) =~= lines);
    out
}

/// Whether the fields that the caller has written stand for the model made
/// of `charset`, `cells` and `total`.
pub fn fields_agree(
    charset: &Charset,
    cells: &Vec<u64>,
    total: u64,
    fields: &Vec<Vec<String>>,
) -> (b: bool)
    requires
        (Model { charset: charset@, cells: cells@, total }).wf(),
    ensures
        b == agrees(Model { charset: charset@, cells: cells@, total }, texts(fields@)),
{
    let ghost m = Model { charset: charset@, cells: cells@, total };
    let ghost all = texts(fields@);
    let n: usize = charset.len();
    let size: usize = cells.len();
    if fields.len() != n {
        return false;
    }
    let mut i: usize = 0;
    while i < n
        invariant
            0 <= i <= n,
            n == m.charset.len(),
            n == fields@.len(),
            n * n == size,
            size == cells@.len(),
            m == (Model { charset: charset@, cells: cells@, total }),
            m.wf(),
            all == texts(fields@),
            forall|k: int| 0 <= k < i ==> (#[trigger] all[k]).len() == n,
            forall|k: int, j: int|
                0 <= k < i && 0 <= j < n ==> #[trigger] field_agrees(m, all, k, j),
        decreases n - i,
    {
        let row = &fields[i];
        assert(all[i as int] == row_texts(row@));
        if row.len() != n {
            return false;
        }
        let mut j: usize = 0;
        while j < n
            invariant
                0 <= j <= n,
                0 <= i < n,
                n == m.charset.len(),
                n == row@.len(),
                n * n == size,
                size == cells@.len(),
                m == (Model { charset: charset@, cells: cells@, total }),
                m.wf(),
                n == fields@.len(),
                all == texts(fields@),
                all[i as int] == row_texts(row@),
                forall|k: int| 0 <= k < j ==> #[trigger] field_agrees(m, all, i as int, k),
            decreases n - j,
        {
            proof {
                lemma_slot_range(i as int, j as int, n as int);
            }
            assert(i * n + j < size);
            let want: u64 = fixed_point(cells[i * n + j], total);
            let text = chars_of(row[j].as_str());
            assert(text@ == all[i as int][j as int]);
            let close: bool = match parse_field(&text) {
                Field::Probability(q) => q <= want + TOLERANCE && want <= q + TOLERANCE,
                _ => false,
            };
            if !close {
                assert(!field_agrees(m, all, i as int, j as int));
                return false;
            }
            j = j + 1;
        }
        i = i + 1;
    }
    true
}

/// A copy of `line` without the carriage return that may end it.
fn stripped(line: &Vec<char>) -> (r: Vec<char>)
    ensures
        r@ == strip_cr(line@),
{
    let n: usize = line.len();
    let m: usize = if n > 0 && line[n - 1] == '\r' {
        n - 1
    } else {
        n
    };
    let mut r: Vec<char> = Vec::new();
    let mut i: usize = 0;
    while i < m
        invariant
            0 <= i <= m <= n,
            n == line@.len(),
            r@ == line@.take(i as int),
        decreases m - i,
    {
        r.push(line[i]);
        assert(line@.take(i + 1) =~= line@.take(i as int).push(line@[i as int]));
        i = i + 1;
    }
    assert(line@.take(n as int) =~= line@);
    assert(line@.take(n - 1) =~= line@.drop_last());
    r
}

/// A copy of `line` without its commas.
fn uncommaed(line: &Vec<char>) -> (r: Vec<char>)
    ensures
        r@ == without(line@, ','),
{
    let n: usize = line.len();
    let mut r: Vec<char> = Vec::new();
    let mut i: usize = 0;
    while i < n
        invariant
            0 <= i <= n,
            n == line@.len(),
            r@ == without(line@.take(i as int), ','),
        decreases n - i,
    {
        proof {
            assert(line@.take(i + 1).drop_last() =~= line@.take(i as int));
        }
        if line[i] != ',' {
            r.push(line[i]);
        }
        i = i + 1;
    }
    assert(line@.take(n as int) =~= line@);
    r
}

/// The fields of `line`.
fn pieces_of(line: &Vec<char>) -> (r: Vec<Vec<char>>)
    ensures
        contents(r@) == row_pieces(line@),
{
    let bare = stripped(line);
    let mut pieces = split_chars(&bare, ',');
    proof {
        lemma_split_nonempty(bare@, ',');
    }
    let ghost all = contents(pieces@);
    let k: usize = pieces.len();
    assert(all[k - 1] == pieces@[k - 1]@);
    if pieces[k - 1].len() == 0 {
        pieces.pop();
        assert(contents(pieces@) =~= all.drop_last());
    }
    pieces
}

/// The numbers in the fields of a row.
pub open spec fn row_values(fields: Seq<Seq<char>>) -> Seq<u64> {
    Seq::new(fields.len(), |j: int| field_value(fields[j]).unwrap() as u64)
}

/// Reads the fields of a row and appends their numbers to `cells`; or tells
/// the place of the first field that is no probability, and whether that
/// one is a number at all.
fn read_row(fields: &Vec<Vec<char>>, cells: &mut Vec<u64>) -> (r: Option<(usize, bool)>)
    ensures
        match r {
            None => first_where(fields@.len(), field_is_bad(contents(fields@))) is None
                && final(cells)@ == old(cells)@ + row_values(contents(fields@)),
            Some((j, number)) => first_where(fields@.len(), field_is_bad(contents(fields@)))
                == Some(j as int) && j < fields@.len() && number == is_number(
                contents(fields@)[j as int],
            ),
        },
{
    let ghost fs = contents(fields@);
    let ghost bad_field = field_is_bad(fs);
    let ghost start = cells@;
    let n: usize = fields.len();
    let mut j: usize = 0;
    assert(cells@ =~= start + row_values(fs).take(0));
    while j < n
        invariant
            0 <= j <= n,
            n == fields@.len(),
            fs == contents(fields@),
            bad_field == field_is_bad(fs),
            forall|k: int| 0 <= k < j ==> !#[trigger] bad_field(k),
            cells@ == start + row_values(fs).take(j as int),
        decreases n - j,
    {
        assert(fs[j as int] == fields@[j as int]@);
        match parse_field(&fields[j]) {
            Field::Probability(q) => {
                cells.push(q);
                assert(row_values(fs).take(j + 1) =~= row_values(fs).take(j as int).push(q));
                assert(cells@ =~= start + row_values(fs).take(j + 1));
            },
            Field::OutOfRange => {
                proof {
                    lemma_first_where_found(n as nat, bad_field, j as int);
                }
                return Some((j, true));
            },
            Field::Malformed => {
                proof {
                    lemma_first_where_found(n as nat, bad_field, j as int);
                }
                return Some((j, false));
            },
        }
        j = j + 1;
    }
    proof {
        lemma_first_where_none(n as nat, bad_field);
        assert(row_values(fs).take(n as int) =~= row_values(fs));
    }
    None
}

/// Reads a stored matrix: the alphabet of its header and its numbers, row
/// by row, as numerators over `SCALE`.
#[verifier::loop_isolation(false)]
pub fn read_matrix(text: &str) -> (r: Result<(Charset, Vec<u64>), FormatError>)
    ensures
        match r {
            Ok((charset, cells)) => parsed(text@) == Ok::<Model, FormatError>(
                Model { charset: charset@, cells: cells@, total: SCALE },
            ),
            Err(e) => parsed(text@) == Err::<Model, FormatError>(e),
        },
{
    let all = chars_of(text);
    if all.len() == 0 {
        return Err(FormatError::MissingHeader);
    }
    let lines = split_chars(&all, '\n');
    let ghost ls = split(text@, '\n');
    proof {
        lemma_split_nonempty(text@, '\n');
        assert(ls[0] == lines@[0]@);
    }
    let count: usize = lines.len();
    let header = uncommaed(&stripped(&lines[0]));
    let ghost cs = header@;
    let n: usize = header.len();
    if n.checked_mul(n).is_none() {
        return Err(FormatError::TooManyCharacters);
    }
    let charset = match Charset::new(header) {
        Some(charset) => charset,
        None => {
            return Err(FormatError::RepeatedCharacter);
        },
    };
    assert(n < usize::MAX) by (nonlinear_arith)
        requires
            n * n <= usize::MAX,
            usize::MAX >= 0xffff_ffff,
    ;
    let ghost bad_row = row_is_bad(ls, n as nat);
    let mut cells: Vec<u64> = Vec::new();
    let mut i: usize = 0;
    assert(cells@ =~= cell_values(ls, n as nat).take(0));
    while i < n
        invariant
            0 <= i <= n,
            n * n <= usize::MAX,
            count == ls.len(),
            contents(lines@) == ls,
            forall|k: int| 0 <= k < i ==> !#[trigger] bad_row(k),
            cells@ == cell_values(ls, n as nat).take(i * n),
            i * n <= n * n,
        decreases n - i,
    {
        if i + 1 >= count {
            proof {
                lemma_first_where_found(n as nat, bad_row, i as int);
            }
            return Err(FormatError::MissingRow { row: i });
        }
        assert(ls[1 + i] == lines@[1 + i]@);
        let fields = pieces_of(&lines[i + 1]);
        let ghost fs = row_pieces(ls[1 + i]);
        if fields.len() != n {
            proof {
                lemma_first_where_found(n as nat, bad_row, i as int);
            }
            return Err(FormatError::FieldCount { row: i });
        }
        let ghost before = cells@;
        proof {
            assert(i * n + n == (i + 1) * n) by (nonlinear_arith);
            assert((i + 1) * n <= n * n) by (nonlinear_arith)
                requires
                    i + 1 <= n,
            ;
        }
        match read_row(&fields, &mut cells) {
            Some((j, number)) => {
                proof {
                    lemma_first_where_found(n as nat, bad_row, i as int);
                }
                if number {
                    return Err(FormatError::NotProbability { row: i, column: j });
                } else {
                    return Err(FormatError::BadField { row: i, column: j });
                }
            },
            None => {},
        }
        proof {
            assert(!bad_row(i as int));
            let all = cell_values(ls, n as nat);
            assert(cells@ =~= all.take((i + 1) * n)) by {
                assert forall|x: int| i * n <= x < (i + 1) * n implies cells@[x] == all[x] by {
                    let j = x - i * n;
                    lemma_fundamental_div_mod_converse(x, n as int, i as int, j);
                    assert(cells@[x] == row_values(fs)[j]);
                }
            }
        }
        i = i + 1;
    }
    proof {
        lemma_first_where_none(n as nat, bad_row);
        assert(cell_values(ls, n as nat).take(n * n) =~= cell_values(ls, n as nat));
    }
    let ghost extra = line_is_extra(ls, n as nat);
    let mut r: usize = n + 1;
    while r < count
        invariant
            n + 1 <= r,
            count == ls.len(),
            contents(lines@) == ls,
            forall|k: int| 0 <= k < r - (n + 1) ==> !#[trigger] extra(k),
        decreases count - r,
    {
        assert(ls[r as int] == lines@[r as int]@);
        let line = &lines[r];
        let blank: bool = line.len() == 0 || (line.len() == 1 && line[0] == '\r');
        if !blank {
            proof {
                assert(extra(r - (n + 1)));
                lemma_first_where_found((count - (n + 1)) as nat, extra, r - (n + 1));
            }
            return Err(FormatError::TrailingText { line: r });
        }
        r = r + 1;
    }
    proof {
        lemma_first_where_none((count - (n + 1)) as nat, extra);
    }
    Ok((charset, cells))
}

/// None of the characters is one that the stored text gives a meaning to:
/// the comma, the newline, the carriage return.
pub open spec fn plain(cs: Seq<char>) -> bool {
    forall|i: int|
        0 <= i < cs.len() ==> (#[trigger] cs[i]) != ',' && cs[i] != '\n' && cs[i] != '\r'
}

/// The model that a stored text holds: the same alphabet, and every
/// probability in units of `1 / SCALE`, rounded down.
pub open spec fn stored(m: Model) -> Model {
    Model {
        charset: m.charset,
        cells: Seq::new(m.cells.len(), |k: int| fixed(m.cells[k] as nat, m.total as nat) as u64),
        total: SCALE,
    }
}

/// A probability in fixed point is at most one, and below the exact value
/// by less than one unit: writing a matrix costs less than `1 / SCALE` in
/// each cell.
pub proof fn lemma_fixed_precision(weight: nat, total: nat)
    requires
        weight <= total,
    ensures
        fixed(weight, total) <= SCALE,
        total > 0 ==> fixed(weight, total) * total <= weight * SCALE < (fixed(weight, total) + 1)
            * total,
{
    if total > 0 {
        let x = (weight * SCALE) as int;
        let d = total as int;
        lemma_fundamental_div_mod(x, d);
        assert(0 <= x % d < d);
        assert(x == d * (x / d) + x % d);
        assert(fixed(weight, total) == x / d);
        assert((x / d) * d == d * (x / d)) by (nonlinear_arith);
        assert((x / d + 1) * d == (x / d) * d + d) by (nonlinear_arith);
        assert(x / d <= SCALE) by (nonlinear_arith)
            requires
                x == weight * SCALE,
                0 <= weight <= d,
                d > 0,
                SCALE == 1_000_000_000_000_000_000,
        ;
    }
}

/// A probability that is already in fixed point is stored as it is.
pub proof fn lemma_fixed_of_stored(q: nat)
    ensures
        fixed(q, SCALE as nat) == q,
{
    assert((q * SCALE) / (SCALE as int) == q) by (nonlinear_arith)
        requires
            SCALE == 1_000_000_000_000_000_000,
    ;
}

/// Joined parts hold no character that neither is the separator nor occurs
/// in a part.
pub proof fn lemma_join_excludes(parts: Seq<Seq<char>>, sep: char, c: char)
    requires
        c != sep,
        forall|i: int| 0 <= i < parts.len() ==> !(#[trigger] parts[i]).contains(c),
    ensures
        !join(parts, sep).contains(c),
    decreases parts.len(),
{
    if parts.len() > 0 {
        lemma_join_excludes(parts.drop_last(), sep, c);
        let whole = join(parts, sep);
        let front = join(parts.drop_last(), sep);
        if whole.contains(c) {
            let k = choose|k: int| 0 <= k < whole.len() && whole[k] == c;
            if k < front.len() {
                assert(front[k] == c);
            } else if k < front.len() + parts.last().len() {
                assert(parts.last()[k - front.len()] == c);
            }
        }
    }
}

/// Joined parts, if there are any, end with the separator.
pub proof fn lemma_join_ends(parts: Seq<Seq<char>>, sep: char)
    requires
        parts.len() > 0,
    ensures
        join(parts, sep).len() > 0,
        join(parts, sep).last() == sep,
{
}

/// The header line without its commas is the alphabet.
pub proof fn lemma_header_line(cs: Seq<char>)
    requires
        !cs.contains(','),
    ensures
        without(join(header_fields(cs), ','), ',') == cs,
    decreases cs.len(),
{
    let fields = header_fields(cs);
    if cs.len() == 0 {
        assert(without(join(fields, ','), ',') =~= cs);
    } else {
        let shorter = cs.drop_last();
        assert(!shorter.contains(',')) by {
            if shorter.contains(',') {
                let i = choose|i: int| 0 <= i < shorter.len() && shorter[i] == ',';
                assert(cs[i] == ',');
            }
        }
        lemma_header_line(shorter);
        assert(fields.drop_last() =~= header_fields(shorter));
        let front = join(header_fields(shorter), ',');
        let line = join(fields, ',');
        assert(line =~= front + seq![cs.last()] + seq![',']);
        let inner = line.drop_last();
        assert(line.last() == ',');
        assert(without(line, ',') == without(inner, ','));
        assert(inner =~= front.push(cs.last()));
        assert(inner.drop_last() =~= front);
        assert(cs[cs.len() - 1] != ',');
        assert(inner.last() == cs.last());
        assert(without(inner, ',') == without(front, ',').push(cs.last()));
        assert(shorter.push(cs.last()) =~= cs);
    }
}

/// The fields are the probabilities of a table over `n` characters: `n`
/// rows of `n` fields, each a probability.
pub open spec fn readable(fields: Seq<Seq<Seq<char>>>, n: nat) -> bool {
    &&& fields.len() == n
    &&& forall|i: int| 0 <= i < n ==> (#[trigger] fields[i]).len() == n
    &&& forall|i: int, j: int|
        0 <= i < n && 0 <= j < n ==> field_value(#[trigger] fields[i][j]) is Some
}

/// The model that the laid-out fields hold: each probability as it is
/// read, in units of `1 / SCALE`.
pub open spec fn held(cs: Seq<char>, fields: Seq<Seq<Seq<char>>>) -> Model {
    Model {
        charset: cs,
        cells: Seq::new(
            cs.len() * cs.len(),
            |k: int|
                field_value(fields[k / (cs.len() as int)][k % (cs.len() as int)]).unwrap() as u64,
        ),
        total: SCALE,
    }
}

/// The line of a row of numbers is cut back into the fields it was joined
/// from.
pub proof fn lemma_line_of_fields(row: Seq<Seq<char>>)
    requires
        row.len() > 0,
        forall|j: int| 0 <= j < row.len() ==> is_number(#[trigger] row[j]),
    ensures
        row_pieces(join(row, ',')) == row,
        !join(row, ',').contains('\n'),
{
    assert forall|j: int| 0 <= j < row.len() implies !(#[trigger] row[j]).contains(',')
        && !row[j].contains('\n') by {
        lemma_number_chars(row[j]);
        if row[j].contains(',') {
            let k = choose|k: int| 0 <= k < row[j].len() && row[j][k] == ',';
            assert(is_number_char(row[j][k]));
        }
        if row[j].contains('\n') {
            let k = choose|k: int| 0 <= k < row[j].len() && row[j][k] == '\n';
            assert(is_number_char(row[j][k]));
        }
    }
    lemma_split_join(row, ',');
    lemma_join_ends(row, ',');
    lemma_join_excludes(row, ',', '\n');
    let line = join(row, ',');
    assert(strip_cr(line) == line);
    let pieces = split(line, ',');
    assert(pieces.last().len() == 0);
    assert(pieces.drop_last() =~= row);
}

/// Reading a layout of probabilities gives them back: the alphabet of the
/// header, and in every cell the probability of its field. It holds of
/// every alphabet without repetition that is free of the comma, the newline
/// and the carriage return.
pub proof fn lemma_layout_round_trip(cs: Seq<char>, fields: Seq<Seq<Seq<char>>>)
    requires
        cs.no_duplicates(),
        plain(cs),
        cs.len() * cs.len() <= usize::MAX,
        readable(fields, cs.len()),
    ensures
        parsed(layout(cs, fields)) == Ok::<Model, FormatError>(held(cs, fields)),
{
    let n = cs.len();
    let lines = layout_lines(cs, fields);
    let text = layout(cs, fields);
    let head = header_fields(cs);
    assert forall|i: int| 0 <= i < head.len() implies !(#[trigger] head[i]).contains('\n') by {
        assert(cs[i] != '\n');
    }
    lemma_join_excludes(head, ',', '\n');
    assert forall|i: int| 0 <= i < n implies row_pieces(join(#[trigger] fields[i], ','))
        == fields[i] && !join(fields[i], ',').contains('\n') by {
        assert forall|j: int| 0 <= j < fields[i].len() implies is_number(
            #[trigger] fields[i][j],
        ) by {
            assert(field_value(fields[i][j]) is Some);
        }
        lemma_line_of_fields(fields[i]);
    }
    assert forall|r: int| 0 <= r < lines.len() implies !(#[trigger] lines[r]).contains('\n') by {
        if r > 0 {
            assert(lines[r] == join(fields[r - 1], ','));
        }
    }
    lemma_split_join(lines, '\n');
    lemma_join_ends(lines, '\n');
    let ls = split(text, '\n');
    assert(ls == lines.push(Seq::<char>::empty()));
    assert(ls[0] == join(head, ','));
    if n > 0 {
        lemma_join_ends(head, ',');
    }
    assert(strip_cr(ls[0]) == ls[0]);
    assert(!cs.contains(',')) by {
        if cs.contains(',') {
            let i = choose|i: int| 0 <= i < cs.len() && cs[i] == ',';
            assert(cs[i] != ',');
        }
    }
    lemma_header_line(cs);
    assert forall|i: int| 0 <= i < n implies !(#[trigger] row_is_bad(ls, n)(i)) by {
        assert(ls[1 + i] == join(fields[i], ','));
        let pieces = row_pieces(ls[1 + i]);
        assert(pieces == fields[i]);
        assert forall|j: int| 0 <= j < n implies !(#[trigger] field_is_bad(pieces)(j)) by {
            assert(field_value(fields[i][j]) is Some);
        }
        lemma_first_where_none(n, field_is_bad(pieces));
    }
    lemma_first_where_none(n, row_is_bad(ls, n));
    assert(ls.len() - (n + 1) == 1);
    assert(strip_cr(ls[n as int + 1]).len() == 0);
    assert(!line_is_extra(ls, n)(0));
    lemma_first_where_none(1, line_is_extra(ls, n));
    assert(cell_values(ls, n) =~= held(cs, fields).cells) by {
        assert forall|k: int| 0 <= k < n * n implies cell_values(ls, n)[k] == held(
            cs,
            fields,
        ).cells[k] by {
            let d = n as int;
            lemma_slot_of_place(k, d);
            let i = k / d;
            assert(ls[1 + i] == join(fields[i], ','));
            assert(row_pieces(ls[1 + i]) == fields[i]);
        }
    }
}

/// Reading what was written gives the model back, each probability in fixed
/// point: the same alphabet, and in every cell the written probability,
/// which is below the exact one by less than `1 / SCALE`. It holds of every
/// well-formed model whose alphabet is free of the comma, the newline and
/// the carriage return.
pub proof fn lemma_round_trip(m: Model)
    requires
        m.wf(),
        plain(m.charset),
        m.cells.len() <= usize::MAX,
    ensures
        parsed(matrix_text(m)) == Ok::<Model, FormatError>(stored(m)),
{
    let cs = m.charset;
    let n = cs.len();
    let fields = number_fields(m);
    lemma_matrix_text_is_layout(m);
    assert forall|i: int, j: int| 0 <= i < n && 0 <= j < n implies field_value(
        #[trigger] fields[i][j],
    ) == Some(fixed(m.cell(i, j), m.total as nat)) by {
        lemma_slot_range(i, j, n as int);
        lemma_fixed_precision(m.cell(i, j), m.total as nat);
        lemma_field_round_trip(fixed(m.cell(i, j), m.total as nat));
    }
    lemma_layout_round_trip(cs, fields);
    assert(held(cs, fields).cells =~= stored(m).cells) by {
        assert forall|k: int| 0 <= k < n * n implies held(cs, fields).cells[k] == stored(
            m,
        ).cells[k] by {
            let d = n as int;
            lemma_slot_of_place(k, d);
            let i = k / d;
            let j = k % d;
            assert(field_value(fields[i][j]) == Some(fixed(m.cell(i, j), m.total as nat)));
            lemma_fixed_precision(m.cell(i, j), m.total as nat);
        }
    }
}

/// Fields that stand for a model are the probabilities of a table over its
/// alphabet, and what is read of them is within a millionth of the model
/// in every cell.
pub proof fn lemma_agreeing_fields(m: Model, fields: Seq<Seq<Seq<char>>>)
    requires
        m.wf(),
        agrees(m, fields),
    ensures
        readable(fields, m.charset.len()),
        forall|i: int, j: int|
            0 <= i < m.size() && 0 <= j < m.size() ==> #[trigger] held(m.charset, fields).cell(
                i,
                j,
            ) <= fixed(m.cell(i, j), m.total as nat) + TOLERANCE && fixed(
                m.cell(i, j),
                m.total as nat,
            ) <= held(m.charset, fields).cell(i, j) + TOLERANCE,
{
    let n = m.size();
    assert forall|i: int, j: int| 0 <= i < n && 0 <= j < n implies field_value(
        #[trigger] fields[i][j],
    ) is Some by {
        assert(field_agrees(m, fields, i, j));
    }
    assert forall|i: int, j: int| 0 <= i < n && 0 <= j < n implies #[trigger] held(
        m.charset,
        fields,
    ).cell(i, j) <= fixed(m.cell(i, j), m.total as nat) + TOLERANCE && fixed(
        m.cell(i, j),
        m.total as nat,
    ) <= held(m.charset, fields).cell(i, j) + TOLERANCE by {
        lemma_slot_range(i, j, n);
        lemma_fundamental_div_mod_converse(slot(i, j, n), n, i, j);
        assert(field_agrees(m, fields, i, j));
        lemma_field_value_bound(fields[i][j]);
    }
}

/// Writing a model that was read writes the text of the model it was stored
/// from: what is lost in storing is lost once.
pub proof fn lemma_stored_text(m: Model)
    requires
        m.wf(),
    ensures
        stored(m).wf(),
        matrix_text(stored(m)) == matrix_text(m),
{
    let s = stored(m);
    let n = m.size();
    assert forall|k: int| 0 <= k < s.cells.len() implies #[trigger] s.cells[k] <= s.total by {
        lemma_fixed_precision(m.cells[k] as nat, m.total as nat);
    }
    assert forall|i: int| 0 <= i < n implies #[trigger] row_fields(s, i) == row_fields(m, i) by {
        assert forall|j: int| 0 <= j < n implies row_fields(s, i)[j] == row_fields(m, i)[j] by {
            lemma_slot_range(i, j, n);
            lemma_fixed_precision(m.cell(i, j), m.total as nat);
            lemma_fixed_of_stored(fixed(m.cell(i, j), m.total as nat));
        }
        assert(row_fields(s, i) =~= row_fields(m, i));
    }
    assert(matrix_lines(s) =~= matrix_lines(m));
}

/// Every model that a text holds is well-formed: its alphabet repeats no
/// character, its table is dense, and each of its probabilities lies
/// between zero and one.
pub proof fn lemma_parsed_wf(text: Seq<char>)
    ensures
        parsed(text) matches Ok(m) ==> m.wf() && m.total == SCALE && m.cells.len() <= usize::MAX,
{
    if let Ok(m) = parsed(text) {
        let lines = split(text, '\n');
        let n = m.charset.len();
        assert forall|k: int| 0 <= k < m.cells.len() implies #[trigger] m.cells[k] <= m.total by {
            let d = n as int;
            lemma_slot_of_place(k, d);
            let i = k / d;
            let j = k % d;
            lemma_first_where_clear(n, row_is_bad(lines, n), i);
            assert(row_error(lines, n, i) is None);
            lemma_first_where_clear(n, field_is_bad(row_pieces(lines[1 + i])), j);
        }
    }
}

} // verus!
