//! What holds across the parser, the projector and the renderer.

use vstd::prelude::*;
use crate::table::first_at_least;
use crate::table::parsed;
use crate::table::record_lines;
use crate::table::rendered;
use crate::text::first_occurrence;
use crate::text::join_with;
use crate::text::lemma_join_last;
use crate::text::lemma_newline_free;
use crate::text::lemma_split_join;
use crate::text::lines_of;
use crate::text::separable;
use crate::text::split_on;
use crate::text::strip_cr;
use crate::table::first_short_row;
use crate::table::lemma_first_at_least_skip;
use crate::table::lemma_first_short_row_skip;
use crate::table::projection;
use crate::table::result_view;
use crate::table::select;
use crate::table::Table;
use crate::table::TableError;
use crate::table::TableView;

verus! {

/// The indices `0, 1, ..., n - 1`, in order.
pub open spec fn all_indices(n: nat) -> Seq<u32> {
    Seq::new(n, |i: int| i as u32)
}

/// Every row of `t` has as many fields as its header.
pub open spec fn is_rectangular(t: TableView) -> bool {
    forall|r: int| 0 <= r < t.rows.len() ==> #[trigger] t.rows[r].len() == t.columns.len()
}

/// Selecting every column of a rectangular table, in order, gives the table back.
pub proof fn lemma_project_all_columns(t: TableView)
    requires
        t.columns.len() <= u32::MAX + 1,
        is_rectangular(t),
    ensures
        projection(t, all_indices(t.columns.len())) == Ok::<TableView, TableError>(t),
{
    let n = t.columns.len();
    let idx = all_indices(n);
    lemma_first_at_least_skip(idx, n as int, 0, n as int);
    assert forall|j: int| 0 <= j < t.rows.len() implies first_at_least(
        idx,
        t.rows[j].len() as int,
        0,
    ) >= idx.len() by {
        lemma_first_at_least_skip(idx, t.rows[j].len() as int, 0, n as int);
    }
    lemma_first_short_row_skip(t.rows, idx, 0, t.rows.len() as int);
    assert(select(t.columns, idx) =~= t.columns);
    assert forall|j: int| 0 <= j < t.rows.len() implies #[trigger] select(t.rows[j], idx)
        == t.rows[j] by {
        assert(select(t.rows[j], idx) =~= t.rows[j]);
    }
    let projected = t.rows.map_values(|row: Seq<Seq<char>>| select(row, idx));
    assert(projected =~= t.rows);
}

/// The projector's result depends on the table and the indices alone: two
/// results for the same table and indices are equal.
pub proof fn lemma_projection_deterministic(
    t: Table,
    indices: Seq<u32>,
    r1: Result<Table, TableError>,
    r2: Result<Table, TableError>,
)
    requires
        result_view(r1) == projection(t@, indices),
        result_view(r2) == projection(t@, indices),
    ensures
        result_view(r1) == result_view(r2),
{
}

/// A single index at or past the header's width fails with that index and the
/// width, and no table.
pub proof fn lemma_index_out_of_range(t: TableView, i: u32)
    requires
        i >= t.columns.len(),
    ensures
        projection(t, seq![i]) == Err::<TableView, TableError>(
            TableError::IndexOutOfRange { index: i, width: t.columns.len() as usize },
        ),
{
}

/// Selecting no column keeps every row, each with no field, and no header field.
pub proof fn lemma_project_no_columns(t: TableView)
    ensures
        projection(t, Seq::empty()) is Ok,
        projection(t, Seq::empty())->Ok_0.columns.len() == 0,
        projection(t, Seq::empty())->Ok_0.rows.len() == t.rows.len(),
        forall|r: int|
            0 <= r < t.rows.len() ==> (#[trigger] projection(t, Seq::empty())->Ok_0.rows[r]).len()
                == 0,
        projection(t, Seq::empty())->Ok_0.delimiter == t.delimiter,
{
    lemma_first_short_row_skip(t.rows, Seq::empty(), 0, t.rows.len() as int);
}

/// The text form of `t` reads back as `t`: its delimiter is not empty; no line
/// of the text holds a newline or ends in a carriage return; the last line is
/// not empty; and the header and every row are separable on the delimiter.
pub open spec fn reads_back(t: TableView) -> bool {
    let lines = record_lines(t);
    &&& t.delimiter.len() > 0
    &&& forall|i: int, j: int|
        0 <= i < lines.len() && 0 <= j < lines[i].len() ==> #[trigger] lines[i][j] != '\n'
    &&& forall|i: int|
        0 <= i < lines.len() ==> !(#[trigger] lines[i].len() > 0 && lines[i].last() == '\r')
    &&& lines.last().len() > 0
    &&& separable(t.columns, t.delimiter)
    &&& forall|r: int| 0 <= r < t.rows.len() ==> separable(#[trigger] t.rows[r], t.delimiter)
}

/// Parsing the text form of a table with its own delimiter gives back its
/// header and rows.
pub proof fn lemma_parse_render_round_trip(t: TableView)
    requires
        reads_back(t),
    ensures
        parsed(rendered(t), t.delimiter) == Some(t),
{
    let lines = record_lines(t);
    let nl = seq!['\n'];
    let text = rendered(t);
    let d = t.delimiter;
    assert forall|i: int| 0 <= i < lines.len() - 1 implies first_occurrence(
        #[trigger] lines[i] + nl,
        nl,
        0,
    ) == lines[i].len() by {
        lemma_newline_free(lines[i], 0);
    }
    lemma_newline_free(lines.last(), 0);
    lemma_split_join(lines, nl);
    lemma_join_last(lines, nl);
    let parts = split_on(text, nl);
    assert(parts == lines);
    let ls = lines_of(text);
    assert forall|i: int| 0 <= i < lines.len() - 1 implies #[trigger] strip_cr(lines[i])
        == lines[i] by {}
    assert(ls =~= lines);
    lemma_split_join(t.columns, d);
    let rows = ls.skip(1).map_values(|l: Seq<char>| split_on(l, d));
    assert forall|r: int| 0 <= r < t.rows.len() implies #[trigger] rows[r] == t.rows[r] by {
        assert(ls.skip(1)[r] == join_with(t.rows[r], d));
        lemma_split_join(t.rows[r], d);
    }
    assert(rows =~= t.rows);
}

} // verus!
