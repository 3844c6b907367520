//! The library's general guarantees, stated and proved over the
//! specification model: sheet segmentation partitions the rows, a sample
//! matched by a single row keeps that row's expansion untouched, merging
//! overrides cell-by-cell only where the later row is non-empty, directive
//! roles land on the last column that carries them, and synthetic raw keys
//! never collide.

use vstd::prelude::*;
use crate::annotation::{dec_str, digit_char, has_role, key_spec, role_spec};
use crate::expr::dec_val;
use crate::table::{cuts_from, ranges_spec};
use crate::expand::{
    acc_find, expand_row, glob_match, glob_ok, merge_cells, pattern_of, row_step, sheet_fold,
    upsert, vars_of, PathPolicy,
};

verus! {

// ---------------------------------------------------------------------------
// Sheet segmentation partitions the data rows.
// ---------------------------------------------------------------------------

proof fn lemma_cuts_partition(rows: Seq<Seq<Seq<char>>>, h: int, i: int, start: int)
    requires
        0 <= start < i <= rows.len(),
    ensures
        ({
            let c = cuts_from(rows, h, i, start);
            &&& c.len() > 0
            &&& c[0].0 == start
            &&& c.last().1 == rows.len()
            &&& forall|k: int| 0 <= k < c.len() - 1 ==> (#[trigger] c[k]).1 == c[k + 1].0
            &&& forall|k: int| 0 <= k < c.len() ==> (#[trigger] c[k]).0 < c[k].1
            &&& forall|k: int| 0 <= k < c.len() ==> (#[trigger] c[k]).1 <= rows.len()
            &&& forall|k: int| 1 <= k < c.len() ==> i <= (#[trigger] c[k]).0
            &&& forall|r: int|
                i <= r < rows.len() ==> ((exists|k: int|
                    1 <= k < c.len() && (#[trigger] c[k]).0 == r) <==> rows[r][h].len() != 0)
        }),
    decreases rows.len() - i,
{
    let c = cuts_from(rows, h, i, start);
    if i >= rows.len() {
        assert(c =~= seq![(start, rows.len() as int)]);
    } else if rows[i][h].len() != 0 {
        lemma_cuts_partition(rows, h, i + 1, i);
        let rec = cuts_from(rows, h, i + 1, i);
        assert(c =~= seq![(start, i)] + rec);
        assert forall|k: int| 0 <= k < c.len() implies (#[trigger] c[k]).1 <= rows.len() by {
            if k > 0 {
                assert(c[k] == rec[k - 1]);
            }
        }
        assert forall|r: int|
            i <= r < rows.len() implies ((exists|k: int|
            1 <= k < c.len() && (#[trigger] c[k]).0 == r) <==> rows[r][h].len() != 0) by {
            if r == i {
                assert(c[1].0 == rec[0].0 == i);
            } else {
                if rows[r][h].len() != 0 {
                    let k0 = choose|k: int| 1 <= k < rec.len() && (#[trigger] rec[k]).0 == r;
                    assert(c[k0 + 1].0 == r);
                }
                if exists|k: int| 1 <= k < c.len() && (#[trigger] c[k]).0 == r {
                    let k0 = choose|k: int| 1 <= k < c.len() && (#[trigger] c[k]).0 == r;
                    if k0 == 1 {
                        assert(rec[0].0 == i);
                    } else {
                        assert(rec[k0 - 1].0 == r);
                    }
                }
            }
        }
    } else {
        lemma_cuts_partition(rows, h, i + 1, start);
        assert(c == cuts_from(rows, h, i + 1, start));
    }
}

/// The rows of the given ranges, concatenated in order.
pub open spec fn concat_ranges(rows: Seq<Seq<Seq<char>>>, c: Seq<(int, int)>) -> Seq<
    Seq<Seq<char>>,
>
    decreases c.len(),
{
    if c.len() == 0 {
        Seq::empty()
    } else {
        concat_ranges(rows, c.drop_last()) + rows.subrange(c.last().0, c.last().1)
    }
}

#[verifier::rlimit(60)]
proof fn lemma_concat_adjacent(rows: Seq<Seq<Seq<char>>>, c: Seq<(int, int)>)
    requires
        c.len() > 0,
        0 <= c[0].0,
        forall|k: int| 0 <= k < c.len() - 1 ==> (#[trigger] c[k]).1 == c[k + 1].0,
        forall|k: int| 0 <= k < c.len() ==> (#[trigger] c[k]).0 <= c[k].1,
        forall|k: int| 0 <= k < c.len() ==> (#[trigger] c[k]).1 <= rows.len(),
    ensures
        concat_ranges(rows, c) == rows.subrange(c[0].0, c.last().1),
        c[0].0 <= c.last().1,
    decreases c.len(),
{
    if c.len() == 1 {
        assert(c.drop_last().len() == 0);
        assert(concat_ranges(rows, c.drop_last()) == Seq::<Seq<Seq<char>>>::empty());
        assert(concat_ranges(rows, c) =~= rows.subrange(c[0].0, c[0].1));
    } else {
        let d = c.drop_last();
        assert(forall|k: int| 0 <= k < d.len() - 1 ==> (#[trigger] d[k]).1 == d[k + 1].0);
        assert(forall|k: int| 0 <= k < d.len() ==> (#[trigger] d[k]).0 <= d[k].1);
        assert(forall|k: int| 0 <= k < d.len() ==> (#[trigger] d[k]).1 <= rows.len());
        lemma_concat_adjacent(rows, d);
        assert(d.last().1 == c.last().0);
        assert(d[0].0 == c[0].0);
        assert(rows.subrange(c[0].0, c.last().0) + rows.subrange(c.last().0, c.last().1)
            =~= rows.subrange(c[0].0, c.last().1));
    }
}

/// Segmenting then concatenating the sheets' row ranges reconstructs the
/// original row sequence exactly.
pub proof fn lemma_sheets_reconstruct(rows: Seq<Seq<Seq<char>>>, h: int)
    ensures
        concat_ranges(rows, ranges_spec(rows, h)) == rows,
{
    if rows.len() == 0 {
        assert(concat_ranges(rows, ranges_spec(rows, h)) =~= rows);
    } else {
        lemma_cuts_partition(rows, h, 1, 0);
        let c = ranges_spec(rows, h);
        lemma_concat_adjacent(rows, c);
        assert(rows.subrange(0, rows.len() as int) =~= rows);
    }
}

/// Sheet segmentation: the sheet ranges of a non-empty table begin at row
/// zero, are contiguous and non-empty, end at the row count — so
/// concatenating them reconstructs the row sequence exactly — and a sheet
/// begins at a row past the first exactly where that row's boundary cell is
/// non-empty.
pub proof fn lemma_sheet_partition(rows: Seq<Seq<Seq<char>>>, h: int)
    requires
        rows.len() > 0,
    ensures
        ({
            let c = ranges_spec(rows, h);
            &&& c.len() > 0
            &&& c[0].0 == 0
            &&& c.last().1 == rows.len()
            &&& forall|k: int| 0 <= k < c.len() - 1 ==> (#[trigger] c[k]).1 == c[k + 1].0
            &&& forall|k: int| 0 <= k < c.len() ==> (#[trigger] c[k]).0 < c[k].1
            &&& forall|r: int|
                1 <= r < rows.len() ==> ((exists|k: int|
                    1 <= k < c.len() && (#[trigger] c[k]).0 == r) <==> rows[r][h].len() != 0)
        }),
{
    lemma_cuts_partition(rows, h, 1, 0);
}

// ---------------------------------------------------------------------------
// The merge override law.
// ---------------------------------------------------------------------------

/// Merge override: wherever the later row's evaluated cell is empty the
/// merged row keeps the earlier cell, and wherever it is non-empty the later
/// cell wins.
pub proof fn lemma_merge_override(base: Seq<Seq<char>>, over: Seq<Seq<char>>)
    ensures
        merge_cells(base, over).len() == base.len(),
        forall|k: int|
            0 <= k < base.len() ==> #[trigger] merge_cells(base, over)[k] == (if k < over.len()
                && over[k].len() != 0 {
                over[k]
            } else {
                base[k]
            }),
{
}

/// Folding a row into an accumulator that already holds its sample path
/// applies exactly the merge override to that entry and touches no other.
pub proof fn lemma_upsert_merges(
    acc: Seq<(Seq<char>, Seq<Seq<char>>)>,
    key: Seq<char>,
    row: Seq<Seq<char>>,
)
    requires
        acc_find(acc, key) >= 0,
    ensures
        upsert(acc, key, row).len() == acc.len(),
        upsert(acc, key, row)[acc_find(acc, key)] == (
            key,
            merge_cells(acc[acc_find(acc, key)].1, row),
        ),
        forall|m: int|
            0 <= m < acc.len() && m != acc_find(acc, key) ==> #[trigger] upsert(acc, key, row)[m]
                == acc[m],
{
    lemma_acc_find_key(acc, key);
}

/// The entry an accumulator search lands on carries the searched key.
proof fn lemma_acc_find_key(acc: Seq<(Seq<char>, Seq<Seq<char>>)>, key: Seq<char>)
    ensures
        acc_find(acc, key) >= 0 ==> 0 <= acc_find(acc, key) < acc.len() && acc[acc_find(
            acc,
            key,
        )].0 == key,
        acc_find(acc, key) < 0 ==> forall|m: int|
            0 <= m < acc.len() ==> (#[trigger] acc[m]).0 != key,
    decreases acc.len(),
{
    if acc.len() > 0 && acc[0].0 != key {
        lemma_acc_find_key(acc.drop_first(), key);
        assert forall|m: int|
            acc_find(acc, key) < 0 && 0 <= m < acc.len() implies (#[trigger] acc[m]).0
            != key by {
            if m > 0 {
                assert(acc.drop_first()[m - 1] == acc[m]);
            }
        }
        if acc_find(acc.drop_first(), key) >= 0 {
            assert(acc.drop_first()[acc_find(acc.drop_first(), key)] == acc[acc_find(
                acc,
                key,
            )]);
        }
    }
}

// ---------------------------------------------------------------------------
// Merge idempotence: a sample matched by a single row is never rewritten.
// ---------------------------------------------------------------------------

/// An entry's row under a key, where one is present.
pub open spec fn acc_entry(acc: Seq<(Seq<char>, Seq<Seq<char>>)>, key: Seq<char>) -> Seq<
    Seq<char>,
> {
    acc[acc_find(acc, key)].1
}

/// Merging a row onto itself, or onto an earlier merge of it, changes
/// nothing.
proof fn lemma_merge_absorb(base: Seq<Seq<char>>, row: Seq<Seq<char>>)
    ensures
        merge_cells(merge_cells(base, row), row) =~= merge_cells(base, row),
        merge_cells(row, row) =~= row,
{
}

/// An upsert under a different key preserves presence and entry of `p`.
proof fn lemma_upsert_other(
    acc: Seq<(Seq<char>, Seq<Seq<char>>)>,
    key: Seq<char>,
    row: Seq<Seq<char>>,
    p: Seq<char>,
)
    requires
        key != p,
    ensures
        acc_find(upsert(acc, key, row), p) >= 0 <==> acc_find(acc, p) >= 0,
        acc_find(acc, p) >= 0 ==> acc_entry(upsert(acc, key, row), p) == acc_entry(acc, p),
{
    let f = acc_find(acc, key);
    if f < 0 {
        lemma_acc_find_append(acc, key, row, p);
        if acc_find(acc, p) >= 0 {
            lemma_acc_find_key(acc, p);
            assert((acc + seq![(key, row)])[acc_find(acc, p)] == acc[acc_find(acc, p)]);
        }
    } else {
        lemma_acc_find_key(acc, key);
        lemma_acc_find_key(acc, p);
        lemma_acc_find_update(acc, f, (key, merge_cells(acc[f].1, row)), p);
        if acc_find(acc, p) >= 0 {
            assert(acc[f].0 == key);
            assert(acc[acc_find(acc, p)].0 == p);
            assert(acc_find(acc, p) != f);
            assert(upsert(acc, key, row)[acc_find(acc, p)] == acc[acc_find(acc, p)]);
        }
    }
}

/// Appending an entry under another key leaves a search for `p` unchanged,
/// and a search for the appended key finds it at the end when it was absent.
proof fn lemma_acc_find_append(
    acc: Seq<(Seq<char>, Seq<Seq<char>>)>,
    key: Seq<char>,
    row: Seq<Seq<char>>,
    p: Seq<char>,
)
    ensures
        key != p ==> acc_find(acc + seq![(key, row)], p) == acc_find(acc, p),
        key == p && acc_find(acc, p) < 0 ==> acc_find(acc + seq![(key, row)], p)
            == acc.len() as int,
        acc_find(acc, p) >= 0 ==> acc_find(acc + seq![(key, row)], p) == acc_find(acc, p),
    decreases acc.len(),
{
    let ext = acc + seq![(key, row)];
    if acc.len() == 0 {
        assert(ext =~= seq![(key, row)]);
        assert(ext.drop_first() =~= Seq::<(Seq<char>, Seq<Seq<char>>)>::empty());
        assert(acc_find(ext.drop_first(), p) == -1);
    } else {
        lemma_acc_find_append(acc.drop_first(), key, row, p);
        assert(ext[0] == acc[0]);
        assert(ext.drop_first() =~= acc.drop_first() + seq![(key, row)]);
        if acc[0].0 != p {
            assert(acc_find(ext, p) == (if acc_find(ext.drop_first(), p) < 0 {
                -1int
            } else {
                acc_find(ext.drop_first(), p) + 1
            }));
            assert(acc_find(acc, p) == (if acc_find(acc.drop_first(), p) < 0 {
                -1int
            } else {
                acc_find(acc.drop_first(), p) + 1
            }));
        }
    }
}

/// Updating an entry in place, keeping its key, leaves every search's
/// position unchanged.
proof fn lemma_acc_find_update(
    acc: Seq<(Seq<char>, Seq<Seq<char>>)>,
    f: int,
    entry: (Seq<char>, Seq<Seq<char>>),
    p: Seq<char>,
)
    requires
        0 <= f < acc.len(),
        entry.0 == acc[f].0,
    ensures
        acc_find(acc.update(f, entry), p) == acc_find(acc, p),
    decreases acc.len(),
{
    let upd = acc.update(f, entry);
    if f == 0 {
        if acc[0].0 != p {
            assert(upd.drop_first() =~= acc.drop_first());
        }
    } else {
        assert(upd[0] == acc[0]);
        if acc[0].0 != p {
            assert(upd.drop_first() =~= acc.drop_first().update(f - 1, entry));
            lemma_acc_find_update(acc.drop_first(), f - 1, entry, p);
        }
    }
}

/// Folding one row over the paths never disturbs the entry of a path the
/// row's pattern does not match, nor creates one for it.
proof fn lemma_row_step_no_match(
    acc: Seq<(Seq<char>, Seq<Seq<char>>)>,
    row: Seq<Seq<char>>,
    si: int,
    pol: PathPolicy,
    paths: Seq<Seq<char>>,
    j: int,
    table: Seq<(Seq<char>, Seq<(Seq<char>, Seq<char>)>)>,
    p: Seq<char>,
)
    requires
        !glob_match(pattern_of(row[si]), p),
    ensures
        acc_find(row_step(acc, row, si, pol, paths, j, table), p) >= 0 <==> acc_find(acc, p)
            >= 0,
        acc_find(acc, p) >= 0 ==> acc_entry(row_step(acc, row, si, pol, paths, j, table), p)
            == acc_entry(acc, p),
    decreases paths.len() - j,
{
    if 0 <= j < paths.len() {
        let acc2 = if glob_match(pattern_of(row[si]), paths[j]) {
            upsert(acc, paths[j], expand_row(row, si, paths[j], pol, vars_of(table, paths[j])))
        } else {
            acc
        };
        if glob_match(pattern_of(row[si]), paths[j]) {
            assert(paths[j] != p);
            lemma_upsert_other(
                acc,
                paths[j],
                expand_row(row, si, paths[j], pol, vars_of(table, paths[j])),
                p,
            );
        }
        lemma_row_step_no_match(acc2, row, si, pol, paths, j + 1, table, p);
    }
}

/// Once the entry of a matched path holds exactly that row's expansion,
/// folding the rest of the paths leaves it so.
proof fn lemma_row_step_stable(
    acc: Seq<(Seq<char>, Seq<Seq<char>>)>,
    row: Seq<Seq<char>>,
    si: int,
    pol: PathPolicy,
    paths: Seq<Seq<char>>,
    j: int,
    table: Seq<(Seq<char>, Seq<(Seq<char>, Seq<char>)>)>,
    p: Seq<char>,
)
    requires
        acc_find(acc, p) >= 0,
        acc_entry(acc, p) == expand_row(row, si, p, pol, vars_of(table, p)),
    ensures
        acc_find(row_step(acc, row, si, pol, paths, j, table), p) >= 0,
        acc_entry(row_step(acc, row, si, pol, paths, j, table), p) == acc_entry(acc, p),
    decreases paths.len() - j,
{
    if 0 <= j < paths.len() {
        let e = expand_row(row, si, paths[j], pol, vars_of(table, paths[j]));
        let acc2 = if glob_match(pattern_of(row[si]), paths[j]) {
            upsert(acc, paths[j], e)
        } else {
            acc
        };
        if glob_match(pattern_of(row[si]), paths[j]) {
            if paths[j] == p {
                lemma_acc_find_key(acc, p);
                lemma_upsert_merges(acc, p, e);
                lemma_acc_find_update(acc, acc_find(acc, p), (p, merge_cells(acc_entry(acc, p), e)), p);
                lemma_merge_absorb(acc_entry(acc, p), e);
                assert(merge_cells(acc_entry(acc, p), e) =~= acc_entry(acc, p));
                assert(acc2 =~= acc.update(acc_find(acc, p), (p, acc_entry(acc, p))));
                assert(acc2 =~= acc);
            } else {
                lemma_upsert_other(acc, paths[j], e, p);
            }
        }
        lemma_row_step_stable(acc2, row, si, pol, paths, j + 1, table, p);
    }
}

/// Folding a row whose pattern matches `p` into an accumulator without an
/// entry for `p` leaves `p` bound to exactly that row's expansion, provided
/// `p` is among the paths.
proof fn lemma_row_step_insert(
    acc: Seq<(Seq<char>, Seq<Seq<char>>)>,
    row: Seq<Seq<char>>,
    si: int,
    pol: PathPolicy,
    paths: Seq<Seq<char>>,
    j: int,
    table: Seq<(Seq<char>, Seq<(Seq<char>, Seq<char>)>)>,
    p: Seq<char>,
)
    requires
        0 <= j,
        acc_find(acc, p) < 0,
        glob_match(pattern_of(row[si]), p),
        exists|m: int| j <= m < paths.len() && paths[m] == p,
    ensures
        acc_find(row_step(acc, row, si, pol, paths, j, table), p) >= 0,
        acc_entry(row_step(acc, row, si, pol, paths, j, table), p) == expand_row(
            row,
            si,
            p,
            pol,
            vars_of(table, p),
        ),
    decreases paths.len() - j,
{
    let e = expand_row(row, si, paths[j], pol, vars_of(table, paths[j]));
    let acc2 = if glob_match(pattern_of(row[si]), paths[j]) {
        upsert(acc, paths[j], e)
    } else {
        acc
    };
    if paths[j] == p {
        lemma_acc_find_append(acc, p, e, p);
        assert(acc_find(acc2, p) == acc.len());
        assert(acc2 == acc + seq![(p, e)]);
        assert(acc_entry(acc2, p) == e);
        lemma_row_step_stable(acc2, row, si, pol, paths, j + 1, table, p);
    } else {
        if glob_match(pattern_of(row[si]), paths[j]) {
            lemma_upsert_other(acc, paths[j], e, p);
        }
        assert(exists|m: int| j + 1 <= m < paths.len() && paths[m] == p) by {
            let m0 = choose|m: int| j <= m < paths.len() && paths[m] == p;
            assert(j + 1 <= m0 < paths.len() && paths[m0] == p);
        }
        lemma_row_step_insert(acc2, row, si, pol, paths, j + 1, table, p);
    }
}

/// Merge idempotence: when exactly one row of a sheet matches a sample
/// path, the merged result for that path is exactly that row's expansion —
/// expanding with merging enabled equals not merging at all.
pub proof fn lemma_single_match_untouched(
    rows: Seq<Seq<Seq<char>>>,
    si: int,
    pol: PathPolicy,
    paths: Seq<Seq<char>>,
    table: Seq<(Seq<char>, Seq<(Seq<char>, Seq<char>)>)>,
    p: Seq<char>,
    star: int,
)
    requires
        0 <= star < rows.len(),
        glob_match(pattern_of(rows[star][si]), p),
        forall|r: int|
            0 <= r < rows.len() && r != star ==> !glob_match(pattern_of(#[trigger] rows[r][si]), p),
        exists|m: int| 0 <= m < paths.len() && paths[m] == p,
        sheet_fold(rows, 0, Seq::empty(), si, pol, paths, table) is Ok,
    ensures
        ({
            let acc = sheet_fold(rows, 0, Seq::empty(), si, pol, paths, table)->Ok_0;
            &&& acc_find(acc, p) >= 0
            &&& acc_entry(acc, p) == expand_row(rows[star], si, p, pol, vars_of(table, p))
        }),
{
    lemma_fold_single(rows, 0, Seq::empty(), si, pol, paths, table, p, star);
}

/// The same, at the sheet level: the expansion output of such a sheet holds
/// the single matching row's expansion itself, untouched by any merge.
pub proof fn lemma_single_match_in_output(
    rows: Seq<Seq<Seq<char>>>,
    si: int,
    paths: Seq<Seq<char>>,
    table: Seq<(Seq<char>, Seq<(Seq<char>, Seq<char>)>)>,
    p: Seq<char>,
    star: int,
)
    requires
        rows.len() > 0,
        rows[0][si].len() != 0,
        0 <= star < rows.len(),
        glob_match(pattern_of(rows[star][si]), p),
        forall|r: int|
            0 <= r < rows.len() && r != star ==> !glob_match(pattern_of(#[trigger] rows[r][si]), p),
        exists|m: int| 0 <= m < paths.len() && paths[m] == p,
        crate::expand::expand_sheet_spec(rows, Option::Some(si), paths, table) is Ok,
    ensures
        ({
            let out = crate::expand::expand_sheet_spec(rows, Option::Some(si), paths, table)
                ->Ok_0;
            let pol = crate::expand::policy_of(rows[0][si]);
            exists|k: int|
                0 <= k < out.len() && out[k] == expand_row(
                    rows[star],
                    si,
                    p,
                    pol,
                    vars_of(table, p),
                )
        }),
{
    let pol = crate::expand::policy_of(rows[0][si]);
    lemma_single_match_untouched(rows, si, pol, paths, table, p, star);
    let acc = sheet_fold(rows, 0, Seq::empty(), si, pol, paths, table)->Ok_0;
    lemma_acc_find_key(acc, p);
    let f = acc_find(acc, p);
    let out = crate::expand::expand_sheet_spec(rows, Option::Some(si), paths, table)->Ok_0;
    assert(out[f] == acc[f].1);
}

/// The inductive core of merge idempotence, over the fold position.
proof fn lemma_fold_single(
    rows: Seq<Seq<Seq<char>>>,
    i: int,
    acc: Seq<(Seq<char>, Seq<Seq<char>>)>,
    si: int,
    pol: PathPolicy,
    paths: Seq<Seq<char>>,
    table: Seq<(Seq<char>, Seq<(Seq<char>, Seq<char>)>)>,
    p: Seq<char>,
    star: int,
)
    requires
        0 <= i <= rows.len(),
        i <= star < rows.len(),
        acc_find(acc, p) < 0,
        glob_match(pattern_of(rows[star][si]), p),
        forall|r: int|
            0 <= r < rows.len() && r != star ==> !glob_match(pattern_of(#[trigger] rows[r][si]), p),
        exists|m: int| 0 <= m < paths.len() && paths[m] == p,
        sheet_fold(rows, i, acc, si, pol, paths, table) is Ok,
    ensures
        ({
            let res = sheet_fold(rows, i, acc, si, pol, paths, table)->Ok_0;
            &&& acc_find(res, p) >= 0
            &&& acc_entry(res, p) == expand_row(rows[star], si, p, pol, vars_of(table, p))
        }),
    decreases rows.len() - i,
{
    let acc2 = row_step(acc, rows[i], si, pol, paths, 0, table);
    if i == star {
        lemma_row_step_insert(acc, rows[i], si, pol, paths, 0, table, p);
        lemma_fold_stable(rows, i + 1, acc2, si, pol, paths, table, p, star);
    } else {
        lemma_row_step_no_match(acc, rows[i], si, pol, paths, 0, table, p);
        lemma_fold_single(rows, i + 1, acc2, si, pol, paths, table, p, star);
    }
}

/// Once the matched row's expansion is recorded, the remaining rows — none
/// of which match — leave it untouched.
proof fn lemma_fold_stable(
    rows: Seq<Seq<Seq<char>>>,
    i: int,
    acc: Seq<(Seq<char>, Seq<Seq<char>>)>,
    si: int,
    pol: PathPolicy,
    paths: Seq<Seq<char>>,
    table: Seq<(Seq<char>, Seq<(Seq<char>, Seq<char>)>)>,
    p: Seq<char>,
    star: int,
)
    requires
        0 <= i <= rows.len(),
        0 <= star < rows.len(),
        star < i,
        acc_find(acc, p) >= 0,
        acc_entry(acc, p) == expand_row(rows[star], si, p, pol, vars_of(table, p)),
        forall|r: int|
            0 <= r < rows.len() && r != star ==> !glob_match(pattern_of(#[trigger] rows[r][si]), p),
        sheet_fold(rows, i, acc, si, pol, paths, table) is Ok,
    ensures
        ({
            let res = sheet_fold(rows, i, acc, si, pol, paths, table)->Ok_0;
            &&& acc_find(res, p) >= 0
            &&& acc_entry(res, p) == acc_entry(acc, p)
        }),
    decreases rows.len() - i,
{
    if i < rows.len() {
        let acc2 = row_step(acc, rows[i], si, pol, paths, 0, table);
        lemma_row_step_no_match(acc, rows[i], si, pol, paths, 0, table, p);
        lemma_fold_stable(rows, i + 1, acc2, si, pol, paths, table, p, star);
    }
}

// ---------------------------------------------------------------------------
// Glob expansion produces one row per matching path.
// ---------------------------------------------------------------------------

/// How many of the paths from `j` on the pattern matches.
pub open spec fn match_count(pat: Seq<char>, paths: Seq<Seq<char>>, j: int) -> int
    decreases paths.len() - j,
{
    if j < 0 || j >= paths.len() {
        0
    } else {
        (if glob_match(pat, paths[j]) {
            1int
        } else {
            0
        }) + match_count(pat, paths, j + 1)
    }
}

/// Expanding a single row over pairwise-distinct sample paths yields one
/// independent output row per matching path, before any merging across
/// rows.
pub proof fn lemma_one_row_per_match(
    row: Seq<Seq<char>>,
    si: int,
    pol: PathPolicy,
    paths: Seq<Seq<char>>,
    table: Seq<(Seq<char>, Seq<(Seq<char>, Seq<char>)>)>,
)
    requires
        forall|a: int, b: int|
            0 <= a < b < paths.len() ==> #[trigger] paths[a] != #[trigger] paths[b],
    ensures
        row_step(Seq::empty(), row, si, pol, paths, 0, table).len() == match_count(
            pattern_of(row[si]),
            paths,
            0,
        ),
{
    lemma_row_step_count(Seq::empty(), row, si, pol, paths, 0, table);
}

/// The inductive count: every matching path either appends (its key is
/// absent, as paths are distinct and the accumulator holds only earlier
/// paths) or merges; starting empty over distinct paths, each match
/// appends.
proof fn lemma_row_step_count(
    acc: Seq<(Seq<char>, Seq<Seq<char>>)>,
    row: Seq<Seq<char>>,
    si: int,
    pol: PathPolicy,
    paths: Seq<Seq<char>>,
    j: int,
    table: Seq<(Seq<char>, Seq<(Seq<char>, Seq<char>)>)>,
)
    requires
        0 <= j <= paths.len(),
        forall|a: int, b: int|
            0 <= a < b < paths.len() ==> #[trigger] paths[a] != #[trigger] paths[b],
        forall|m: int| j <= m < paths.len() ==> acc_find(acc, #[trigger] paths[m]) < 0,
    ensures
        row_step(acc, row, si, pol, paths, j, table).len() == acc.len() + match_count(
            pattern_of(row[si]),
            paths,
            j,
        ),
    decreases paths.len() - j,
{
    if j < paths.len() {
        let e = expand_row(row, si, paths[j], pol, vars_of(table, paths[j]));
        if glob_match(pattern_of(row[si]), paths[j]) {
            let acc2 = upsert(acc, paths[j], e);
            assert(acc2 == acc + seq![(paths[j], e)]);
            assert forall|m: int| j + 1 <= m < paths.len() implies acc_find(
                acc2,
                #[trigger] paths[m],
            ) < 0 by {
                lemma_acc_find_append(acc, paths[j], e, paths[m]);
            }
            lemma_row_step_count(acc2, row, si, pol, paths, j + 1, table);
        } else {
            lemma_row_step_count(acc, row, si, pol, paths, j + 1, table);
        }
    }
}

// ---------------------------------------------------------------------------
// Directive roles and synthetic keys.
// ---------------------------------------------------------------------------

/// A directive role is registered at exactly the column that carries it,
/// when no later column carries it too; with several carriers, the last one
/// wins, as each registration overwrites the one before.
pub proof fn lemma_role_registered(cells: Seq<Seq<char>>, n: int, role: Seq<char>, i: int)
    requires
        0 <= i < n,
        has_role(cells[i], role),
        forall|j: int| i < j < n ==> !has_role(#[trigger] cells[j], role),
    ensures
        role_spec(cells, n, role) == Option::Some(i),
    decreases n,
{
    if i < n - 1 {
        lemma_role_registered(cells, n - 1, role, i);
    }
}

proof fn lemma_dec_str_value(n: nat)
    ensures
        dec_val(dec_str(n)) == n,
        dec_str(n).len() >= 1,
    decreases n,
{
    if n < 10 {
        assert(dec_str(n) =~= seq![digit_char(n)]);
        assert(dec_str(n).drop_last() =~= Seq::<char>::empty());
        assert(dec_val(Seq::<char>::empty()) == 0);
        assert(dec_val(dec_str(n)) == dec_val(dec_str(n).drop_last()) * 10 + (dec_str(
            n,
        ).last() as u32 - 48));
        assert(digit_char(n) as u32 - 48 == n);
    } else {
        lemma_dec_str_value(n / 10);
        assert(dec_str(n).drop_last() =~= dec_str(n / 10));
        assert(dec_str(n).last() == digit_char(n % 10));
        assert(dec_val(dec_str(n)) == dec_val(dec_str(n).drop_last()) * 10 + (dec_str(
            n,
        ).last() as u32 - 48));
        assert(digit_char(n % 10) as u32 - 48 == n % 10);
    }
}

/// Distinct raw columns get distinct synthetic keys: the key embeds the
/// column ordinal, whose decimal text determines it.
pub proof fn lemma_raw_keys_unique(cells: Seq<Seq<char>>, i: int, j: int)
    requires
        0 <= i,
        0 <= j,
        i != j,
        has_role(cells[i], "raw"@),
        has_role(cells[j], "raw"@),
    ensures
        key_spec(cells[i], i).0 != key_spec(cells[j], j).0,
{
    assert(key_spec(cells[i], i).0 == "_raw_"@ + dec_str(i as nat));
    assert(key_spec(cells[j], j).0 == "_raw_"@ + dec_str(j as nat));
    lemma_dec_str_value(i as nat);
    lemma_dec_str_value(j as nat);
    if "_raw_"@ + dec_str(i as nat) == "_raw_"@ + dec_str(j as nat) {
        let a = "_raw_"@;
        assert(dec_str(i as nat) =~= (a + dec_str(i as nat)).subrange(
            a.len() as int,
            (a + dec_str(i as nat)).len() as int,
        ));
        assert(dec_str(j as nat) =~= (a + dec_str(j as nat)).subrange(
            a.len() as int,
            (a + dec_str(j as nat)).len() as int,
        ));
        assert(dec_str(i as nat) == dec_str(j as nat));
        assert(i == j);
    }
}

} // verus!
