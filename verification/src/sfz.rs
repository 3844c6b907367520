//! Rendering the expanded table as SFZ opcode text.

use vstd::prelude::*;
use crate::annotation::cols_view;
use crate::table::{SampleCSV, rows_view};
use crate::text::push_char_from;

verus! {

/// The text one output column contributes for one row: nothing when the
/// column's key is empty (the boundary column), the source column is out of
/// range, or the cell is empty; the bare cell and a space for a raw column;
/// `key=value` and a space otherwise.
pub open spec fn piece_spec(col: (Seq<char>, int, bool), row: Seq<Seq<char>>) -> Seq<char> {
    if col.0.len() == 0 || !(0 <= col.1 < row.len()) || row[col.1].len() == 0 {
        Seq::empty()
    } else if col.2 {
        row[col.1] + seq![' ']
    } else {
        col.0 + seq!['='] + row[col.1] + seq![' ']
    }
}

/// The text of one row, over the output columns from position `j` on.
pub open spec fn row_text(
    cols: Seq<(Seq<char>, int, bool)>,
    row: Seq<Seq<char>>,
    j: int,
) -> Seq<char>
    decreases cols.len() - j,
{
    if j < 0 || j >= cols.len() {
        Seq::empty()
    } else {
        piece_spec(cols[j], row) + row_text(cols, row, j + 1)
    }
}

/// The rendered table from row `i` on: each row's pieces, a newline after
/// every row.
pub open spec fn render_spec(
    cols: Seq<(Seq<char>, int, bool)>,
    rows: Seq<Seq<Seq<char>>>,
    i: int,
) -> Seq<char>
    decreases rows.len() - i,
{
    if i < 0 || i >= rows.len() {
        Seq::empty()
    } else {
        row_text(cols, rows[i], 0) + seq!['\n'] + render_spec(cols, rows, i + 1)
    }
}

/// Renders one row.
fn render_row(csv: &SampleCSV, r: usize) -> (out: String)
    requires
        r < csv.rows@.len(),
    ensures
        out@ == row_text(cols_view(csv.index.columns@), rows_view(csv.rows@)[r as int], 0),
{
    let ghost cols = cols_view(csv.index.columns@);
    let ghost rowv = rows_view(csv.rows@)[r as int];
    let mut out = String::new();
    let mut j: usize = 0;
    while j < csv.index.columns.len()
        invariant
            j <= csv.index.columns@.len(),
            r < csv.rows@.len(),
            cols == cols_view(csv.index.columns@),
            rowv == rows_view(csv.rows@)[r as int],
            row_text(cols, rowv, 0) =~= out@ + row_text(cols, rowv, j as int),
        decreases csv.index.columns@.len() - j,
    {
        proof {
            reveal_strlit("=");
            reveal_strlit(" ");
            assert("="@ =~= seq!['=']);
            assert(" "@ =~= seq![' ']);
            assert(cols[j as int] == (
                csv.index.columns@[j as int].key@,
                csv.index.columns@[j as int].idx as int,
                csv.index.columns@[j as int].raw,
            ));
        }
        let col = &csv.index.columns[j];
        if !col.key.as_str().is_empty() && col.idx < csv.rows[r].len() {
            proof {
                assert(rowv[col.idx as int] == csv.rows@[r as int]@[col.idx as int]@);
            }
            let cell = &csv.rows[r][col.idx];
            if !cell.as_str().is_empty() {
                if col.raw {
                    out.append(cell.as_str());
                    out.append(" ");
                } else {
                    out.append(col.key.as_str());
                    out.append("=");
                    out.append(cell.as_str());
                    out.append(" ");
                }
            }
        }
        proof {
            assert(rowv.len() == csv.rows@[r as int]@.len());
        }
        j += 1;
    }
    assert(row_text(cols, rowv, j as int) =~= Seq::<char>::empty());
    out
}

/// Renders the whole expanded table: every row's non-empty cells in output
/// column order, raw columns bare, the rest as `key=value`, one line per
/// row.
pub fn render_sfz(csv: &SampleCSV) -> (out: String)
    ensures
        out@ == render_spec(cols_view(csv.index.columns@), rows_view(csv.rows@), 0),
{
    let ghost cols = cols_view(csv.index.columns@);
    let ghost rows = rows_view(csv.rows@);
    let mut out = String::new();
    let mut i: usize = 0;
    while i < csv.rows.len()
        invariant
            i <= csv.rows@.len(),
            cols == cols_view(csv.index.columns@),
            rows == rows_view(csv.rows@),
            render_spec(cols, rows, 0) =~= out@ + render_spec(cols, rows, i as int),
        decreases csv.rows@.len() - i,
    {
        proof {
            reveal_strlit("\n");
            assert("\n"@ =~= seq!['\n']);
        }
        let line = render_row(csv, i);
        out.append(line.as_str());
        out.append("\n");
        i += 1;
    }
    assert(render_spec(cols, rows, i as int) =~= Seq::<char>::empty());
    out
}

} // verus!
