//! Loading one descriptor table: decoding the comma-separated input, deriving
//! the column index from the directive row, and segmenting the data rows into
//! sheets at the boundary column.

use vstd::prelude::*;
use crate::annotation::{TableIndex, create_indices, strings_view, role_spec};
use crate::errors::TableError;

verus! {

/// View of a list of rows as sequences of character sequences.
pub open spec fn rows_view(rs: Seq<Vec<String>>) -> Seq<Seq<Seq<char>>> {
    rs.map_values(|r: Vec<String>| strings_view(r@))
}

/// View of the decoded records: one entry per record of the input, `None`
/// where the record could not be decoded.
pub open spec fn recs_view(rs: Seq<Option<Vec<String>>>) -> Seq<Option<Seq<Seq<char>>>> {
    rs.map_values(
        |r: Option<Vec<String>>|
            match r {
                Option::None => Option::<Seq<Seq<char>>>::None,
                Option::Some(v) => Option::Some(strings_view(v@)),
            },
    )
}

/// What the comma-separated decoder yields on the given bytes: the records
/// in input order, each either its decoded fields or nothing where the
/// record is malformed (bad text encoding, or a width unequal to the first
/// record's).
pub uninterp spec fn csv_records_of(data: Seq<u8>) -> Seq<Option<Seq<Seq<char>>>>;

/// Relies on csv::ReaderBuilder / csv::Reader: decodes the whole input
/// without a header row, one entry per record in order; a record that fails
/// to decode is `None`.  With flexible decoding off, the reader admits a
/// record only when its field count equals the first record's, so all
/// decoded records have the same width.
#[verifier::external_body]
fn csv_records(data: &Vec<u8>) -> (r: Vec<Option<Vec<String>>>)
    ensures
        recs_view(r@) == csv_records_of(data@),
        forall|i: int, j: int|
            0 <= i < r@.len() && 0 <= j < r@.len() && r@[i] is Some && r@[j] is Some
                ==> #[trigger] r@[i]->Some_0@.len() == #[trigger] r@[j]->Some_0@.len(),
{
    let mut rdr = csv::ReaderBuilder::new().has_headers(false).from_reader(data.as_slice());
    rdr.records().map(
        |rec| rec.ok().map(|rec| rec.iter().map(|field| field.to_string()).collect()),
    ).collect()
}

/// The sheet ranges of `rows` from row `i` on, with the open sheet having
/// begun at `start`: a cut is made at every row past the first whose
/// boundary cell is non-empty, and the final sheet closes at the row count.
pub open spec fn cuts_from(
    rows: Seq<Seq<Seq<char>>>,
    h: int,
    i: int,
    start: int,
) -> Seq<(int, int)>
    decreases rows.len() - i,
{
    if i < 0 || i >= rows.len() {
        seq![(start, rows.len() as int)]
    } else if rows[i][h].len() != 0 {
        seq![(start, i)] + cuts_from(rows, h, i + 1, i)
    } else {
        cuts_from(rows, h, i + 1, start)
    }
}

/// The sheet ranges of a table: row 0 always opens the first sheet, a
/// non-empty boundary cell in any later row closes the sheet before it, and
/// an empty table has no sheets.
pub open spec fn ranges_spec(rows: Seq<Seq<Seq<char>>>, h: int) -> Seq<(int, int)> {
    if rows.len() == 0 {
        Seq::empty()
    } else {
        cuts_from(rows, h, 1, 0)
    }
}

/// View of the executable ranges.
pub open spec fn ranges_view(v: Seq<(usize, usize)>) -> Seq<(int, int)> {
    v.map_values(|p: (usize, usize)| (p.0 as int, p.1 as int))
}

/// Appends the sheet ranges of `rows`, cut at the boundary column
/// `*header_idx`.
pub fn creat_header_ranges(
    rows: &Vec<Vec<String>>,
    header_ranges: &mut Vec<(usize, usize)>,
    header_idx: &usize,
)
    requires
        forall|i: int| 0 <= i < rows@.len() ==> *header_idx < #[trigger] rows@[i]@.len(),
    ensures
        ranges_view(final(header_ranges)@) == ranges_view(old(header_ranges)@) + ranges_spec(
            rows_view(rows@),
            *header_idx as int,
        ),
{
    let ghost rv = rows_view(rows@);
    let ghost h = *header_idx as int;
    if rows.len() == 0 {
        assert(ranges_view(header_ranges@) =~= ranges_view(header_ranges@) + ranges_spec(rv, h));
        return ;
    }
    let ghost init = ranges_view(header_ranges@);
    let mut start: usize = 0;
    let mut i: usize = 1;
    while i < rows.len()
        invariant
            1 <= i,
            i <= rows@.len() || i == 1,
            start < i,
            rows@.len() > 0,
            rv == rows_view(rows@),
            h == *header_idx as int,
            forall|k: int| 0 <= k < rows@.len() ==> *header_idx < #[trigger] rows@[k]@.len(),
            init + ranges_spec(rv, h) =~= ranges_view(header_ranges@) + cuts_from(
                rv,
                h,
                i as int,
                start as int,
            ),
        decreases rows@.len() - i,
    {
        proof {
            assert(rv[i as int] == strings_view(rows@[i as int]@));
            assert(rv[i as int][h] == rows@[i as int]@[h]@);
        }
        if !rows[i][*header_idx].as_str().is_empty() {
            header_ranges.push((start, i));
            proof {
                assert(ranges_view(header_ranges@) =~= ranges_view(header_ranges@.drop_last())
                    + seq![(start as int, i as int)]);
            }
            start = i;
        }
        i += 1;
        proof {
            assert(init + ranges_spec(rv, h) =~= ranges_view(header_ranges@) + cuts_from(
                rv,
                h,
                i as int,
                start as int,
            ));
        }
    }
    header_ranges.push((start, rows.len()));
    proof {
        assert(cuts_from(rv, h, i as int, start as int) =~= seq![
            (start as int, rows@.len() as int),
        ]);
        assert(ranges_view(header_ranges@) =~= ranges_view(header_ranges@.drop_last()) + seq![
            (start as int, rows@.len() as int),
        ]);
        assert(ranges_view(header_ranges@) =~= init + ranges_spec(rv, h));
    }
}

/// One loaded descriptor table: the column index from its directive row, the
/// data rows, and the sheet ranges over those rows.
pub struct SampleCSV {
    pub index: TableIndex,
    pub header_ranges: Vec<(usize, usize)>,
    pub rows: Vec<Vec<String>>,
}

/// The data rows of the decoded records: everything after the first record,
/// keeping only the records that decoded.
pub open spec fn data_rows_spec(recs: Seq<Option<Seq<Seq<char>>>>) -> Seq<Seq<Seq<char>>>
    decreases recs.len(),
{
    if recs.len() <= 1 {
        Seq::empty()
    } else {
        data_rows_spec(recs.drop_last()) + (match recs.last() {
            Option::None => Seq::<Seq<Seq<char>>>::empty(),
            Option::Some(r) => seq![r],
        })
    }
}

proof fn lemma_role_spec_bound(cells: Seq<Seq<char>>, n: int, role: Seq<char>)
    ensures
        role_spec(cells, n, role) matches Some(i) ==> 0 <= i < n,
    decreases n,
{
    if n > 0 {
        lemma_role_spec_bound(cells, n - 1, role);
    }
}

/// A range lies between `lo` and `n` with its ends ordered.
pub open spec fn range_ok(r: (int, int), lo: int, n: int) -> bool {
    lo <= r.0 <= r.1 <= n
}

proof fn lemma_cuts_bounds(rows: Seq<Seq<Seq<char>>>, h: int, i: int, start: int)
    requires
        0 <= start <= i <= rows.len(),
    ensures
        forall|k: int|
            0 <= k < cuts_from(rows, h, i, start).len() ==> range_ok(
                #[trigger] cuts_from(rows, h, i, start)[k],
                start,
                rows.len() as int,
            ),
    decreases rows.len() - i,
{
    let whole = cuts_from(rows, h, i, start);
    if i < rows.len() {
        if rows[i][h].len() != 0 {
            lemma_cuts_bounds(rows, h, i + 1, i);
            let rec = cuts_from(rows, h, i + 1, i);
            assert(whole == seq![(start, i)] + rec);
            assert forall|k: int| 0 <= k < whole.len() implies range_ok(
                #[trigger] whole[k],
                start,
                rows.len() as int,
            ) by {
                if k > 0 {
                    assert(whole[k] == rec[k - 1]);
                    assert(range_ok(rec[k - 1], i, rows.len() as int));
                }
            }
        } else {
            lemma_cuts_bounds(rows, h, i + 1, start);
            assert(whole == cuts_from(rows, h, i + 1, start));
        }
    } else {
        assert(whole == seq![(start, rows.len() as int)]);
    }
}

impl SampleCSV {
    /// The role columns fall inside every data row, and the sheet ranges lie
    /// within the data rows.
    pub open spec fn wf(&self) -> bool {
        &&& self.index.header matches Some(h) ==> forall|k: int|
            0 <= k < self.rows@.len() ==> (h as int) < #[trigger] self.rows@[k]@.len()
        &&& self.index.sample matches Some(si) ==> forall|k: int|
            0 <= k < self.rows@.len() ==> (si as int) < #[trigger] self.rows@[k]@.len()
        &&& forall|k: int|
            0 <= k < self.header_ranges@.len() ==> #[trigger] self.header_ranges@[k].0
                <= self.header_ranges@[k].1 <= self.rows@.len()
    }

    /// How the loaded table relates to the raw bytes it was read from.
    /// Every kept data row has the directive row's width, as the decoder
    /// admits only records of the first record's field count.
    pub open spec fn loaded_from(&self, data: Seq<u8>) -> bool {
        let recs = csv_records_of(data);
        &&& recs.len() >= 1
        &&& recs[0] is Some
        &&& self.index.derived_from(recs[0]->Some_0)
        &&& rows_view(self.rows@) == data_rows_spec(recs)
        &&& forall|k: int|
            0 <= k < self.rows@.len() ==> #[trigger] self.rows@[k]@.len() == recs[0]
                ->Some_0.len()
        &&& self.index.header is Some
        &&& ranges_view(self.header_ranges@) == ranges_spec(
            rows_view(self.rows@),
            self.index.header->Some_0 as int,
        )
    }
}

/// Loads one descriptor table from its raw bytes: the first decoded record
/// is the directive row, later records are data rows (malformed ones are
/// dropped), and sheets are cut at the `@header` column.  Fails when the
/// directive row is missing or unreadable, or when no `@header` directive is
/// present.
pub fn parse_sample_csv(data: &Vec<u8>) -> (r: Result<SampleCSV, TableError>)
    ensures
        ({
            let recs = csv_records_of(data@);
            match r {
                Result::Ok(t) => t.loaded_from(data@) && t.wf(),
                Result::Err(e) => {
                    ||| (e == TableError::MissingDirectiveRow && (recs.len() == 0 || recs[0]
                        is None))
                    ||| (e == TableError::MissingHeader && recs.len() >= 1 && recs[0] is Some
                        && role_spec(recs[0]->Some_0, recs[0]->Some_0.len() as int, "header"@)
                        is None)
                },
            }
        }),
{
    let recs = csv_records(data);
    let ghost rv = csv_records_of(data@);
    if recs.len() == 0 {
        assert(rv.len() == 0);
        return Err(TableError::MissingDirectiveRow);
    }
    assert(recs_view(recs@)[0] == rv[0]);
    let directive: Vec<String> = match &recs[0] {
        Option::None => {
            return Err(TableError::MissingDirectiveRow);
        },
        Option::Some(d) => d.clone(),
    };
    assert(strings_view(directive@) == rv[0]->Some_0);
    let index = create_indices(&directive);
    // Collect the data rows, dropping records that did not decode.
    let mut rows: Vec<Vec<String>> = Vec::new();
    let mut i: usize = 1;
    while i < recs.len()
        invariant
            1 <= i <= recs@.len(),
            recs_view(recs@) == rv,
            rows_view(rows@) =~= data_rows_spec(rv.take(i as int)),
            forall|k: int|
                0 <= k < rows@.len() ==> exists|m: int|
                    0 <= m < recs@.len() && recs@[m] is Some && #[trigger] rows@[k]@.len()
                        == recs@[m]->Some_0@.len(),
        decreases recs@.len() - i,
    {
        proof {
            assert(rv.take(i as int + 1).drop_last() =~= rv.take(i as int));
            assert(recs_view(recs@)[i as int] == rv[i as int]);
        }
        match &recs[i] {
            Option::None => {},
            Option::Some(row) => {
                rows.push(row.clone());
                proof {
                    assert(rows_view(rows@) =~= rows_view(rows@.drop_last()) + seq![
                        strings_view(row@),
                    ]);
                }
            },
        }
        i += 1;
    }
    proof {
        assert(rv.take(rv.len() as int) =~= rv);
    }
    let header_idx = match index.header {
        Option::None => {
            proof {
                reveal_strlit("header");
            }
            return Err(TableError::MissingHeader);
        },
        Option::Some(h) => h,
    };
    proof {
        lemma_role_spec_bound(rv[0]->Some_0, rv[0]->Some_0.len() as int, "header"@);
    }
    // Every kept row has the width of the directive record, so the boundary
    // column is in range.
    proof {
        assert forall|k: int|
            0 <= k < rows@.len() implies #[trigger] rows@[k]@.len() == rv[0]->Some_0.len() by {
            let m = choose|m: int|
                0 <= m < recs@.len() && recs@[m] is Some && #[trigger] rows@[k]@.len()
                    == recs@[m]->Some_0@.len();
            assert(recs@[m]->Some_0@.len() == recs@[0]->Some_0@.len());
            assert(rv[0] == recs_view(recs@)[0]);
        }
    }
    assert(forall|k: int| 0 <= k < rows@.len() ==> header_idx < #[trigger] rows@[k]@.len());
    // The sample column, when present, also falls inside the directive width.
    proof {
        lemma_role_spec_bound(rv[0]->Some_0, rv[0]->Some_0.len() as int, "sample"@);
    }
    assert(index.sample matches Some(si) ==> forall|k: int|
        0 <= k < rows@.len() ==> (si as int) < #[trigger] rows@[k]@.len());
    let mut header_ranges: Vec<(usize, usize)> = Vec::new();
    creat_header_ranges(&rows, &mut header_ranges, &header_idx);
    proof {
        assert(ranges_view(header_ranges@) =~= ranges_spec(
            rows_view(rows@),
            header_idx as int,
        ));
        if rows@.len() > 0 {
            lemma_cuts_bounds(rows_view(rows@), header_idx as int, 1, 0);
        }
        assert forall|k: int|
            0 <= k < header_ranges@.len() implies #[trigger] header_ranges@[k].0
            <= header_ranges@[k].1 <= rows@.len() by {
            assert(ranges_view(header_ranges@)[k] == (
                header_ranges@[k].0 as int,
                header_ranges@[k].1 as int,
            ));
            if rows@.len() > 0 {
                assert(ranges_view(header_ranges@)[k] == cuts_from(
                    rows_view(rows@),
                    header_idx as int,
                    1,
                    0,
                )[k]);
                assert(range_ok(
                    cuts_from(rows_view(rows@), header_idx as int, 1, 0)[k],
                    0,
                    rows_view(rows@).len() as int,
                ));
            }
        }
    }
    Ok(SampleCSV { index, header_ranges, rows })
}

} // verus!
