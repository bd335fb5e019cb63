//! The matrix as a table for the eye: a title row, then one row per
//! character, drawn by the `prettytable` crate.

use crate::charset::Charset;
use crate::decimal::{
    field_text, fixed, fixed_point, lemma_field_chars, lemma_number_chars, push_field,
};
use crate::model::{lemma_slot_range, Model};
use crate::storage::lemma_fixed_precision;
use crate::storage::{agrees, field_agrees, header_fields, number_fields, row_fields};
use crate::text::{row_texts, texts};
use vstd::prelude::*;

verus! {

/// The text that `prettytable` draws for a table of the given cells, in its
/// default format.
pub uninterp spec fn rendered(rows: Seq<Seq<Seq<char>>>) -> Seq<char>;

/// The word in the corner of the table.
pub open spec fn corner() -> Seq<char> {
    "MATRIX"@
}

/// The cells of the table of a model: the title row holds the corner word
/// and the alphabet; each further row holds its character and the
/// probabilities of every character following it, written as they are
/// stored.
pub open spec fn table_rows(m: Model) -> Seq<Seq<Seq<char>>> {
    Seq::new(
        m.charset.len() + 1,
        |r: int|
            if r == 0 {
                seq![corner()] + header_fields(m.charset)
            } else {
                seq![seq![m.charset[r - 1]]] + row_fields(m, r - 1)
            },
    )
}

/// The cells of the table that shows the given fields, row by row, under
/// the alphabet `cs`: the title row holds the corner word and the alphabet;
/// each further row holds its character and its fields.
pub open spec fn table_layout(cs: Seq<char>, fields: Seq<Seq<Seq<char>>>) -> Seq<Seq<Seq<char>>> {
    Seq::new(
        fields.len() + 1,
        |r: int|
            if r == 0 {
                seq![corner()] + header_fields(cs)
            } else {
                seq![seq![cs[r - 1]]] + fields[r - 1]
            },
    )
}

/// The table of a model is the table of its own fields.
pub proof fn lemma_table_is_layout(m: Model)
    ensures
        table_rows(m) == table_layout(m.charset, number_fields(m)),
{
    assert(table_rows(m) =~= table_layout(m.charset, number_fields(m)));
}

/// The text starts no terminal colour sequence: nowhere in it is the
/// escape character directly followed by an opening bracket.
pub open spec fn plain_cell(text: Seq<char>) -> bool {
    forall|i: int|
        0 <= i < text.len() - 1 ==> !((#[trigger] text[i]) == '\u{1b}' && text[i + 1] == '[')
}

/// No cell of the table starts a terminal colour sequence.
pub open spec fn plain_cells(rows: Seq<Seq<Seq<char>>>) -> bool {
    forall|r: int, c: int|
        0 <= r < rows.len() && 0 <= c < rows[r].len() ==> plain_cell(#[trigger] rows[r][c])
}

/// Draws a table. `prettytable::Table::from` makes one row of each inner
/// vector and one left-aligned cell of each string, as `Table::add_row`,
/// `Row::add_cell` and `Cell::new` would one by one; the table's
/// `to_string` then draws it in the default format. The contract only
/// names the text that comes back: it is a function of the cells alone.
/// To measure a cell the crate skips terminal colour sequences and asserts
/// on what it skipped; cells that start no such sequence never fail there,
/// so only those are admitted.
#[verifier::external_body]
fn render(rows: &Vec<Vec<String>>) -> (out: String)
    requires
        plain_cells(texts(rows@)),
    ensures
        out@ == rendered(texts(rows@)),
{
    prettytable::Table::from(rows).to_string()
}

/// The cells of the table of the model made of `charset`, `cells` and
/// `total`.
pub fn table_of(charset: &Charset, cells: &Vec<u64>, total: u64) -> (rows: Vec<Vec<String>>)
    requires
        (Model { charset: charset@, cells: cells@, total }).wf(),
    ensures
        texts(rows@) == table_rows(Model { charset: charset@, cells: cells@, total }),
{
    let ghost m = Model { charset: charset@, cells: cells@, total };
    let ghost goal = table_rows(m);
    let n: usize = charset.len();
    let size: usize = cells.len();
    let mut rows: Vec<Vec<String>> = Vec::new();
    let mut title: Vec<String> = Vec::new();
    title.push("MATRIX".to_owned());
    assert(row_texts(title@) =~= goal[0].take(1));
    let mut i: usize = 0;
    while i < n
        invariant
            0 <= i <= n,
            n == m.charset.len(),
            m.charset == charset@,
            goal == table_rows(m),
            row_texts(title@) == goal[0].take(1 + i),
        decreases n - i,
    {
        let mut cell = String::new();
        cell.push(charset.get(i));
        assert(cell@ =~= seq![m.charset[i as int]]);
        let ghost before = row_texts(title@);
        title.push(cell);
        assert(row_texts(title@) =~= before.push(cell@));
        assert(goal[0].take(1 + i + 1) =~= goal[0].take(1 + i).push(goal[0][1 + i]));
        i = i + 1;
    }
    assert(goal[0].take(1 + n) =~= goal[0]);
    rows.push(title);
    assert(texts(rows@) =~= goal.take(1));
    let mut i: usize = 0;
    while i < n
        invariant
            0 <= i <= n,
            n == m.charset.len(),
            n * n == size,
            size == cells@.len(),
            m == (Model { charset: charset@, cells: cells@, total }),
            m.wf(),
            goal == table_rows(m),
            texts(rows@) == goal.take(1 + i),
        decreases n - i,
    {
        let ghost want = goal[1 + i];
        let mut row: Vec<String> = Vec::new();
        let mut label = String::new();
        label.push(charset.get(i));
        assert(label@ =~= seq![m.charset[i as int]]);
        row.push(label);
        assert(row_texts(row@) =~= want.take(1));
        let mut j: usize = 0;
        while j < n
            invariant
                0 <= j <= n,
                0 <= i < n,
                n == m.charset.len(),
                n * n == size,
                size == cells@.len(),
                m == (Model { charset: charset@, cells: cells@, total }),
                m.wf(),
                goal == table_rows(m),
                want == goal[1 + i],
                row_texts(row@) == want.take(1 + j),
            decreases n - j,
        {
            proof {
                lemma_slot_range(i as int, j as int, n as int);
            }
            assert(i * n + j < size);
            let q: u64 = fixed_point(cells[i * n + j], total);
            let mut cell = String::new();
            push_field(&mut cell, q);
            assert(cell@ =~= field_text(fixed(m.cell(i as int, j as int), m.total as nat)));
            let ghost before = row_texts(row@);
            row.push(cell);
            assert(row_texts(row@) =~= before.push(cell@));
            assert(want.take(1 + j + 1) =~= want.take(1 + j).push(want[1 + j]));
            j = j + 1;
        }
        assert(want.take(1 + n) =~= want);
        let ghost before = texts(rows@);
        rows.push(row);
        assert(texts(rows@) =~= before.push(want));
        assert(goal.take(1 + i + 1) =~= goal.take(1 + i).push(want));
        i = i + 1;
    }
    assert(goal.take(1 + n) =~= goal);
    rows
}

/// No cell of the table of a model starts a terminal colour sequence: each
/// is the corner word, a single character, or a written probability.
pub proof fn lemma_table_is_plain(m: Model)
    requires
        m.wf(),
    ensures
        plain_cells(table_rows(m)),
{
    let rows = table_rows(m);
    reveal_strlit("MATRIX");
    assert forall|r: int, c: int| 0 <= r < rows.len() && 0 <= c < rows[r].len() implies plain_cell(
        #[trigger] rows[r][c],
    ) by {
        if c > 0 && r > 0 {
            let q = fixed(m.cell(r - 1, c - 1), m.total as nat);
            lemma_slot_range(r - 1, c - 1, m.size());
            lemma_fixed_precision(m.cell(r - 1, c - 1), m.total as nat);
            lemma_field_chars(q);
            assert(rows[r][c] == field_text(q));
        } else if c > 0 {
            assert(rows[r][c] == seq![m.charset[c - 1]]);
        } else if r > 0 {
            assert(rows[r][c] == seq![m.charset[r - 1]]);
        } else {
            assert(rows[r][c] == corner());
        }
    }
}

/// No cell of a table of fields that stand for a model starts a terminal
/// colour sequence: a number holds no escape character.
pub proof fn lemma_table_of_fields_is_plain(m: Model, fields: Seq<Seq<Seq<char>>>)
    requires
        agrees(m, fields),
    ensures
        plain_cells(table_layout(m.charset, fields)),
{
    let rows = table_layout(m.charset, fields);
    reveal_strlit("MATRIX");
    assert forall|r: int, c: int| 0 <= r < rows.len() && 0 <= c < rows[r].len() implies plain_cell(
        #[trigger] rows[r][c],
    ) by {
        if c > 0 && r > 0 {
            assert(rows[r][c] == fields[r - 1][c - 1]);
            assert(fields[r - 1].len() == m.size());
            assert(field_agrees(m, fields, r - 1, c - 1));
            lemma_number_chars(fields[r - 1][c - 1]);
        } else if c > 0 {
            assert(rows[r][c] == seq![m.charset[c - 1]]);
        } else if r > 0 {
            assert(rows[r][c] == seq![m.charset[r - 1]]);
        } else {
            assert(rows[r][c] == corner());
        }
    }
}

/// The cells of the table that shows `fields` under `charset`.
pub fn table_of_fields(charset: &Charset, fields: &Vec<Vec<String>>) -> (rows: Vec<Vec<String>>)
    requires
        fields@.len() == charset@.len(),
    ensures
        texts(rows@) == table_layout(charset@, texts(fields@)),
{
    let ghost all = texts(fields@);
    let ghost goal = table_layout(charset@, all);
    let n: usize = charset.len();
    let mut rows: Vec<Vec<String>> = Vec::new();
    let mut title: Vec<String> = Vec::new();
    title.push("MATRIX".to_owned());
    assert(row_texts(title@) =~= goal[0].take(1));
    let mut i: usize = 0;
    while i < n
        invariant
            0 <= i <= n,
            n == charset@.len(),
            n == fields@.len(),
            all == texts(fields@),
            goal == table_layout(charset@, all),
            row_texts(title@) == goal[0].take(1 + i),
        decreases n - i,
    {
        let mut cell = String::new();
        cell.push(charset.get(i));
        assert(cell@ =~= seq![charset@[i as int]]);
        let ghost before = row_texts(title@);
        title.push(cell);
        assert(row_texts(title@) =~= before.push(cell@));
        assert(goal[0].take(1 + i + 1) =~= goal[0].take(1 + i).push(goal[0][1 + i]));
        i = i + 1;
    }
    assert(goal[0].take(1 + n) =~= goal[0]);
    rows.push(title);
    assert(texts(rows@) =~= goal.take(1));
    let mut i: usize = 0;
    while i < n
        invariant
            0 <= i <= n,
            n == charset@.len(),
            n == fields@.len(),
            all == texts(fields@),
            goal == table_layout(charset@, all),
            texts(rows@) == goal.take(1 + i),
        decreases n - i,
    {
        let ghost want = goal[1 + i];
        let given = &fields[i];
        assert(all[i as int] == row_texts(given@));
        let width: usize = given.len();
        let mut row: Vec<String> = Vec::new();
        let mut label = String::new();
        label.push(charset.get(i));
        assert(label@ =~= seq![charset@[i as int]]);
        row.push(label);
        assert(row_texts(row@) =~= want.take(1));
        let mut j: usize = 0;
        while j < width
            invariant
                0 <= j <= width,
                width == given@.len(),
                want == seq![seq![charset@[i as int]]] + row_texts(given@),
                row_texts(row@) == want.take(1 + j),
            decreases width - j,
        {
            let cell = given[j].clone();
            let ghost before = row_texts(row@);
            row.push(cell);
            assert(row_texts(row@) =~= before.push(cell@));
            assert(want.take(1 + j + 1) =~= want.take(1 + j).push(want[1 + j]));
            j = j + 1;
        }
        assert(want.take(1 + width) =~= want);
        let ghost before = texts(rows@);
        rows.push(row);
        assert(texts(rows@) =~= before.push(want));
        assert(goal.take(1 + i + 1) =~= goal.take(1 + i).push(want));
        i = i + 1;
    }
    assert(goal.take(1 + n) =~= goal);
    rows
}

/// The table that shows `fields` under `charset`, drawn; the fields must
/// stand for the model made of `charset`, `cells` and `total`.
pub fn draw_fields(charset: &Charset, cells: &Vec<u64>, total: u64, fields: &Vec<Vec<String>>) -> (out:
    String)
    requires
        agrees(Model { charset: charset@, cells: cells@, total }, texts(fields@)),
    ensures
        out@ == rendered(table_layout(charset@, texts(fields@))),
{
    let rows = table_of_fields(charset, fields);
    proof {
        lemma_table_of_fields_is_plain(
            Model { charset: charset@, cells: cells@, total },
            texts(fields@),
        );
    }
    render(&rows)
}

/// The table of the model made of `charset`, `cells` and `total`, drawn.
pub fn draw(charset: &Charset, cells: &Vec<u64>, total: u64) -> (out: String)
    requires
        (Model { charset: charset@, cells: cells@, total }).wf(),
    ensures
        out@ == rendered(table_rows(Model { charset: charset@, cells: cells@, total })),
{
    let rows = table_of(charset, cells, total);
    proof {
        lemma_table_is_plain(Model { charset: charset@, cells: cells@, total });
    }
    render(&rows)
}

} // verus!
