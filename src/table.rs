//! The table model: a header row, data rows and a delimiter, with the parser
//! that builds a table from text, the projector that selects columns, and the
//! renderer that turns a table back into text.

use vstd::prelude::*;
use vstd::string::StringExecFns;
use crate::text::char_rows;
use crate::text::chars_of;
use crate::text::join_strings;
use crate::text::join_with;
use crate::text::lines_of;
use crate::text::split_chars;
use crate::text::split_lines;
use crate::text::split_on;
use crate::text::string_of;
use crate::text::string_views;

verus! {

/// Delimited text held as a header row of column names and data rows of fields.
#[derive(Debug, Clone, PartialEq, Eq)]
pub struct Table {
    /// One name per column; their order gives the column indices.
    pub columns: Vec<String>,
    /// The data rows, in input order.
    pub rows: Vec<Vec<String>>,
    /// What separates fields, on input and on output.
    pub delimiter: String,
}

/// A table as sequences of characters.
pub struct TableView {
    pub columns: Seq<Seq<char>>,
    pub rows: Seq<Seq<Seq<char>>>,
    pub delimiter: Seq<char>,
}

/// The fields of each row of `rows`, as character sequences.
pub open spec fn rows_view(rows: Seq<Vec<String>>) -> Seq<Seq<Seq<char>>> {
    rows.map_values(|r: Vec<String>| string_views(r@))
}

impl View for Table {
    type V = TableView;

    open spec fn view(&self) -> TableView {
        TableView {
            columns: string_views(self.columns@),
            rows: rows_view(self.rows@),
            delimiter: self.delimiter@,
        }
    }
}

/// Why a table could not be built or projected.
#[derive(Debug, Clone, Copy, PartialEq, Eq, Structural)]
pub enum TableError {
    /// The text has no line, so there is no header.
    EmptyInput,
    /// A requested column index is not below the header's width.
    IndexOutOfRange { index: u32, width: usize },
    /// A data row has no field at a requested index.
    RowWidth { row: usize, index: u32 },
}

/// The table that text `raw` describes with delimiter `d`: the first line
/// split on `d` is the header, each later line split on `d` is a row.
/// Text without lines describes none.
pub open spec fn parsed(raw: Seq<char>, d: Seq<char>) -> Option<TableView> {
    let lines = lines_of(raw);
    if lines.len() == 0 {
        None
    } else {
        Some(
            TableView {
                columns: split_on(lines[0], d),
                rows: lines.skip(1).map_values(|l: Seq<char>| split_on(l, d)),
                delimiter: d,
            },
        )
    }
}

/// The strings of the fields of `line` split on `d`.
fn field_strings(line: &[char], d: &[char]) -> (r: Vec<String>)
    requires
        d@.len() > 0,
    ensures
        string_views(r@) == split_on(line@, d@),
{
    let parts = split_chars(line, d);
    let ghost pv = char_rows(parts@);
    let mut out: Vec<String> = Vec::new();
    let mut i: usize = 0;
    while i < parts.len()
        invariant
            pv == char_rows(parts@),
            pv == split_on(line@, d@),
            i <= parts@.len(),
            string_views(out@) =~= pv.take(i as int),
        decreases parts@.len() - i,
    {
        let ghost prev = out@;
        out.push(string_of(parts[i].as_slice()));
        assert(string_views(out@) =~= string_views(prev).push(pv[i as int]));
        i = i + 1;
    }
    assert(pv.take(i as int) =~= pv);
    out
}

/// Parses `raw` into a table: the first line holds the column names, each
/// later line one row. Lines are split on the literal `delimiter`; a row may
/// have another number of fields than the header.
pub fn parse_tsv(raw: String, delimiter: &String) -> (r: Result<Table, TableError>)
    requires
        delimiter@.len() > 0,
    ensures
        match r {
            Ok(t) => parsed(raw@, delimiter@) == Some(t@),
            Err(e) => parsed(raw@, delimiter@) is None && e == TableError::EmptyInput,
        },
{
    let text = chars_of(raw.as_str());
    let d = chars_of(delimiter.as_str());
    let lines = split_lines(text.as_slice());
    let ghost lv = char_rows(lines@);
    if lines.len() == 0 {
        return Err(TableError::EmptyInput);
    }
    let columns = field_strings(lines[0].as_slice(), d.as_slice());
    let mut rows: Vec<Vec<String>> = Vec::new();
    let mut i: usize = 1;
    while i < lines.len()
        invariant
            lv == char_rows(lines@),
            lv == lines_of(raw@),
            d@ == delimiter@,
            d@.len() > 0,
            1 <= i <= lines@.len(),
            rows_view(rows@) =~= lv.skip(1).take(i - 1).map_values(|l: Seq<char>| split_on(l, d@)),
        decreases lines@.len() - i,
    {
        let ghost prev = rows@;
        let row = field_strings(lines[i].as_slice(), d.as_slice());
        rows.push(row);
        assert(rows_view(rows@) =~= rows_view(prev).push(split_on(lv[i as int], d@)));
        i = i + 1;
    }
    assert(lv.skip(1).take(i - 1) =~= lv.skip(1));
    let t = Table { columns, rows, delimiter: delimiter.clone() };
    assert(t@.rows =~= parsed(raw@, delimiter@)->Some_0.rows);
    Ok(t)
}

/// The position of the first entry of `idx`, at `k` or later, that is not below
/// `width`; `idx.len()` if there is none.
pub open spec fn first_at_least(idx: Seq<u32>, width: int, k: int) -> int
    decreases idx.len() - k,
{
    if k < 0 || k >= idx.len() {
        idx.len() as int
    } else if idx[k] >= width {
        k
    } else {
        first_at_least(idx, width, k + 1)
    }
}

/// The position of the first row, at `r` or later, that lacks a field at some
/// entry of `idx`; `rows.len()` if there is none.
pub open spec fn first_short_row(rows: Seq<Seq<Seq<char>>>, idx: Seq<u32>, r: int) -> int
    decreases rows.len() - r,
{
    if r < 0 || r >= rows.len() {
        rows.len() as int
    } else if first_at_least(idx, rows[r].len() as int, 0) < idx.len() {
        r
    } else {
        first_short_row(rows, idx, r + 1)
    }
}

/// The fields of `fields` at the positions `idx`, in the order of `idx`.
pub open spec fn select(fields: Seq<Seq<char>>, idx: Seq<u32>) -> Seq<Seq<char>> {
    idx.map_values(|i: u32| fields[i as int])
}

/// The projection of `t` onto the columns `idx`. The first index, in the
/// order given, that is not below the header's width fails it; else the first
/// row that is too short for some index fails it, naming its first such index;
/// else each row, and the header, keep the fields at `idx`, in that order.
pub open spec fn projection(t: TableView, idx: Seq<u32>) -> Result<TableView, TableError> {
    let width = t.columns.len() as int;
    let k = first_at_least(idx, width, 0);
    let r = first_short_row(t.rows, idx, 0);
    if k < idx.len() {
        Err(TableError::IndexOutOfRange { index: idx[k], width: width as usize })
    } else if r < t.rows.len() {
        Err(
            TableError::RowWidth {
                row: r as usize,
                index: idx[first_at_least(idx, t.rows[r].len() as int, 0)],
            },
        )
    } else {
        Ok(
            TableView {
                columns: select(t.columns, idx),
                rows: t.rows.map_values(|row: Seq<Seq<char>>| select(row, idx)),
                delimiter: t.delimiter,
            },
        )
    }
}

/// A result of the projector, with its table seen as character sequences.
pub open spec fn result_view(r: Result<Table, TableError>) -> Result<TableView, TableError> {
    match r {
        Ok(t) => Ok(t@),
        Err(e) => Err(e),
    }
}

pub proof fn lemma_first_at_least_skip(idx: Seq<u32>, width: int, a: int, b: int)
    requires
        0 <= a <= b,
        forall|j: int| a <= j < b && j < idx.len() ==> idx[j] < width,
    ensures
        first_at_least(idx, width, a) == first_at_least(idx, width, b),
    decreases b - a,
{
    if a < b && a < idx.len() {
        lemma_first_at_least_skip(idx, width, a + 1, b);
    }
}

proof fn lemma_first_at_least_below(idx: Seq<u32>, width: int, k: int)
    requires
        0 <= k,
    ensures
        forall|j: int| k <= j < first_at_least(idx, width, k) ==> idx[j] < width,
        k <= idx.len() ==> k <= first_at_least(idx, width, k) <= idx.len(),
    decreases idx.len() - k,
{
    if k < idx.len() && idx[k] < width {
        lemma_first_at_least_below(idx, width, k + 1);
    }
}

pub proof fn lemma_first_short_row_skip(rows: Seq<Seq<Seq<char>>>, idx: Seq<u32>, a: int, b: int)
    requires
        0 <= a <= b <= rows.len(),
        forall|j: int| a <= j < b ==> first_at_least(idx, rows[j].len() as int, 0) >= idx.len(),
    ensures
        first_short_row(rows, idx, a) == first_short_row(rows, idx, b),
    decreases b - a,
{
    if a < b {
        lemma_first_short_row_skip(rows, idx, a + 1, b);
    }
}

/// The position of the first entry of `idx` that is not below `width`, or
/// `idx.len()`.
fn first_at_least_exec(idx: &Vec<u32>, width: usize) -> (k: usize)
    ensures
        k == first_at_least(idx@, width as int, 0),
        forall|j: int| 0 <= j < k ==> idx@[j] < width,
{
    let mut k: usize = 0;
    while k < idx.len()
        invariant
            k <= idx@.len(),
            forall|j: int| 0 <= j < k ==> idx@[j] < width,
        decreases idx@.len() - k,
    {
        if idx[k] as usize >= width {
            proof {
                lemma_first_at_least_skip(idx@, width as int, 0, k as int);
            }
            return k;
        }
        k = k + 1;
    }
    proof {
        lemma_first_at_least_skip(idx@, width as int, 0, k as int);
    }
    k
}

/// The strings of `fields` at the positions `idx`, in the order of `idx`.
fn select_strings(fields: &Vec<String>, idx: &Vec<u32>) -> (r: Vec<String>)
    requires
        forall|j: int| 0 <= j < idx@.len() ==> idx@[j] < fields@.len(),
    ensures
        string_views(r@) == select(string_views(fields@), idx@),
{
    let mut out: Vec<String> = Vec::new();
    let mut k: usize = 0;
    while k < idx.len()
        invariant
            k <= idx@.len(),
            forall|j: int| 0 <= j < idx@.len() ==> idx@[j] < fields@.len(),
            string_views(out@) =~= select(string_views(fields@), idx@).take(k as int),
        decreases idx@.len() - k,
    {
        let ghost prev = out@;
        out.push(fields[idx[k] as usize].clone());
        assert(string_views(out@) =~= string_views(prev).push(
            string_views(fields@)[idx@[k as int] as int],
        ));
        k = k + 1;
    }
    out
}

impl Table {
    /// A new table with the columns at `indices`, in that order; an index may
    /// repeat. Every row keeps the fields at the same indices; the delimiter is
    /// kept. An index not below the header's width, or a row too short for an
    /// index, is an error, as `projection` describes.
    pub fn get_cols(&self, indices: Vec<u32>) -> (r: Result<Table, TableError>)
        ensures
            result_view(r) == projection(self@, indices@),
    {
        let width: usize = self.columns.len();
        let k = first_at_least_exec(&indices, width);
        if k < indices.len() {
            return Err(TableError::IndexOutOfRange { index: indices[k], width });
        }
        proof {
            lemma_first_at_least_below(indices@, width as int, 0);
        }
        let mut r: usize = 0;
        while r < self.rows.len()
            invariant
                width == self@.columns.len(),
                first_at_least(indices@, width as int, 0) == indices@.len(),
                r <= self@.rows.len(),
                forall|j: int|
                    0 <= j < r ==> first_at_least(indices@, self@.rows[j].len() as int, 0)
                        >= indices@.len(),
            decreases self@.rows.len() - r,
        {
            assert(self.rows@[r as int]@.len() == self@.rows[r as int].len());
            let j = first_at_least_exec(&indices, self.rows[r].len());
            if j < indices.len() {
                proof {
                    lemma_first_short_row_skip(self@.rows, indices@, 0, r as int);
                }
                return Err(TableError::RowWidth { row: r, index: indices[j] });
            }
            r = r + 1;
        }
        proof {
            lemma_first_short_row_skip(self@.rows, indices@, 0, r as int);
        }
        let columns = select_strings(&self.columns, &indices);
        let mut rows: Vec<Vec<String>> = Vec::new();
        let mut i: usize = 0;
        while i < self.rows.len()
            invariant
                width == self@.columns.len(),
                first_at_least(indices@, width as int, 0) == indices@.len(),
                first_short_row(self@.rows, indices@, 0) == self@.rows.len(),
                i <= self@.rows.len(),
                forall|j: int|
                    0 <= j < self@.rows.len() ==> first_at_least(
                        indices@,
                        self@.rows[j].len() as int,
                        0,
                    ) >= indices@.len(),
                rows_view(rows@) =~= self@.rows.take(i as int).map_values(
                    |row: Seq<Seq<char>>| select(row, indices@),
                ),
            decreases self@.rows.len() - i,
        {
            proof {
                lemma_first_at_least_below(indices@, self@.rows[i as int].len() as int, 0);
            }
            assert(self.rows@[i as int]@.len() == self@.rows[i as int].len());
            let ghost prev = rows@;
            let row = select_strings(&self.rows[i], &indices);
            rows.push(row);
            assert(rows_view(rows@) =~= rows_view(prev).push(select(self@.rows[i as int], indices@)));
            i = i + 1;
        }
        assert(self@.rows.take(i as int) =~= self@.rows);
        let t = Table { columns, rows, delimiter: self.delimiter.clone() };
        Ok(t)
    }
}

/// The lines of the text form of `t`: the header, then each row, with their
/// fields joined by the delimiter.
pub open spec fn record_lines(t: TableView) -> Seq<Seq<char>> {
    seq![join_with(t.columns, t.delimiter)] + t.rows.map_values(
        |r: Seq<Seq<char>>| join_with(r, t.delimiter),
    )
}

/// The text form of `t`: its lines separated by single newlines, with none
/// after the last.
pub open spec fn rendered(t: TableView) -> Seq<char> {
    join_with(record_lines(t), seq!['\n'])
}

impl Table {
    /// The text form of the table, as `rendered` describes.
    pub fn render(&self) -> (r: String)
        ensures
            r@ == rendered(self@),
    {
        let ghost lines = record_lines(self@);
        let newline = "\n";
        proof {
            reveal_strlit("\n");
        }
        let mut out = join_strings(&self.columns, self.delimiter.as_str());
        assert(lines.take(1) =~= seq![lines[0]]);
        let mut i: usize = 0;
        while i < self.rows.len()
            invariant
                lines == record_lines(self@),
                newline@ == seq!['\n'],
                i <= self@.rows.len(),
                out@ == join_with(lines.take(i + 1), seq!['\n']),
            decreases self@.rows.len() - i,
        {
            assert(lines.take(i + 2).drop_last() =~= lines.take(i + 1));
            out.append(newline);
            let line = join_strings(&self.rows[i], self.delimiter.as_str());
            out.append(line.as_str());
            i = i + 1;
        }
        assert(lines.take(i + 1) =~= lines);
        out
    }
}

impl Default for Table {
    /// An empty table, without columns or rows, whose delimiter is a tab.
    fn default() -> (r: Self)
        ensures
            r@.columns.len() == 0,
            r@.rows.len() == 0,
            r@.delimiter == seq!['\t'],
    {
        let tab = "\t";
        proof {
            reveal_strlit("\t");
        }
        Table { columns: Vec::new(), rows: Vec::new(), delimiter: String::from_str(tab) }
    }
}

} // verus!
