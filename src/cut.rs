//! One run of the tool on text already read: parse, keep the requested
//! fields, render.

use vstd::prelude::*;
use crate::table::parse_tsv;
use crate::table::parsed;
use crate::table::projection;
use crate::table::rendered;
use crate::table::TableError;

verus! {

/// Field numbers counted from 1, as column indices counted from 0.
pub open spec fn zero_based(fields: Seq<u32>) -> Seq<u32> {
    fields.map_values(|f: u32| (f - 1) as u32)
}

/// The text that a run on `raw` gives, with delimiter `d` and the field numbers
/// `fields`, counted from 1: the table that `raw` describes, projected onto
/// those fields and rendered; or the error that parsing or projection meets.
pub open spec fn cut_result(raw: Seq<char>, d: Seq<char>, fields: Seq<u32>) -> Result<
    Seq<char>,
    TableError,
> {
    match parsed(raw, d) {
        None => Err(TableError::EmptyInput),
        Some(t) => match projection(t, zero_based(fields)) {
            Err(e) => Err(e),
            Ok(p) => Ok(rendered(p)),
        },
    }
}

/// The fields at the numbers `fields`, counted from 1, of the table that `raw`
/// holds with `delimiter`, rendered as text, as `cut_result` describes.
pub fn cut_text(raw: String, delimiter: &String, fields: &Vec<u32>) -> (r: Result<
    String,
    TableError,
>)
    requires
        delimiter@.len() > 0,
        forall|i: int| 0 <= i < fields@.len() ==> fields@[i] >= 1,
    ensures
        match r {
            Ok(s) => cut_result(raw@, delimiter@, fields@) == Ok::<Seq<char>, TableError>(s@),
            Err(e) => cut_result(raw@, delimiter@, fields@) == Err::<Seq<char>, TableError>(e),
        },
{
    let mut indices: Vec<u32> = Vec::new();
    let mut i: usize = 0;
    while i < fields.len()
        invariant
            i <= fields@.len(),
            forall|j: int| 0 <= j < fields@.len() ==> fields@[j] >= 1,
            indices@ =~= zero_based(fields@).take(i as int),
        decreases fields@.len() - i,
    {
        indices.push(fields[i] - 1);
        i = i + 1;
    }
    assert(indices@ =~= zero_based(fields@));
    let table = match parse_tsv(raw, delimiter) {
        Ok(t) => t,
        Err(e) => {
            return Err(e);
        },
    };
    match table.get_cols(indices) {
        Ok(p) => Ok(p.render()),
        Err(e) => Err(e),
    }
}

} // verus!
