//! Row expansion and merging: one templated row per sheet row is matched as
//! a glob against the sample-path set, every match becomes one concrete row,
//! and rows resolving to the same sample are folded together in source-row
//! order under a non-empty-overwrite policy.

use vstd::prelude::*;
use crate::annotation::{nonspace_from, strings_view};
use crate::errors::TableError;
use crate::expr::{apply_expr, apply_expr_spec, pairs_view};
use crate::table::{SampleCSV, rows_view};
use crate::text::{is_space, push_char_from, str_eq};

verus! {

// ---------------------------------------------------------------------------
// The three content forms of a sample-path cell.
// ---------------------------------------------------------------------------

/// What `//`-prefixed text strips to: every leading pair of slashes, then
/// leading whitespace, removed.
pub open spec fn strip_slashes(s: Seq<char>) -> Seq<char>
    decreases s.len(),
{
    if s.len() >= 2 && s[0] == '/' && s[1] == '/' {
        strip_slashes(s.subrange(2, s.len() as int))
    } else {
        s
    }
}

/// The comment form: text prefixed by `//`; its value is the rest, with
/// leading whitespace dropped.
pub open spec fn comment_spec(s: Seq<char>) -> Option<Seq<char>> {
    if s.len() >= 2 && s[0] == '/' && s[1] == '/' {
        let t = strip_slashes(s);
        Option::Some(t.subrange(nonspace_from(t, 0, t.len() as int), t.len() as int))
    } else {
        Option::None
    }
}

/// The quoted form: text wrapped in one pair of double quotes; its value is
/// the inside.
pub open spec fn pair_spec(s: Seq<char>) -> Option<Seq<char>> {
    if s.len() >= 2 && s[0] == '"' && s[s.len() - 1] == '"' {
        Option::Some(s.subrange(1, s.len() - 1))
    } else {
        Option::None
    }
}

/// The glob pattern a sample-path cell carries: the comment wrapper is
/// stripped first; if what remains is quoted, the inside is the pattern;
/// otherwise what remains is the pattern as it stands.
pub open spec fn pattern_of(s: Seq<char>) -> Seq<char> {
    let t = match comment_spec(s) {
        Option::Some(c) => c,
        Option::None => s,
    };
    match pair_spec(t) {
        Option::Some(u) => u,
        Option::None => t,
    }
}

/// How a resolved sample path is rendered into the output row, fixed once
/// per sheet by the form of its first row's sample cell.
#[derive(Debug, Clone, Copy, PartialEq, Eq, Structural)]
pub enum PathPolicy {
    /// Write the resolved path verbatim.
    Pass,
    /// Leave the path cell empty: the location is asserted, not re-emitted.
    Clear,
    /// Re-wrap the resolved path in double quotes.
    Quote,
}

/// The policy the first row's sample cell selects: comment form clears,
/// quoted form re-quotes, plain form passes through.
pub open spec fn policy_of(s: Seq<char>) -> PathPolicy {
    if comment_spec(s) is Some {
        PathPolicy::Clear
    } else if pair_spec(s) is Some {
        PathPolicy::Quote
    } else {
        PathPolicy::Pass
    }
}

/// The path cell text a policy produces.
pub open spec fn apply_policy(p: PathPolicy, path: Seq<char>) -> Seq<char> {
    match p {
        PathPolicy::Pass => path,
        PathPolicy::Clear => Seq::empty(),
        PathPolicy::Quote => seq!['"'] + path + seq!['"'],
    }
}

/// Strips the leading comment marker, returning the commented text.
pub fn trim_comment_prefix(input: &str) -> (r: Option<String>)
    ensures
        r is Some <==> comment_spec(input@) is Some,
        r matches Some(v) ==> Option::Some(v@) == comment_spec(input@),
{
    let n = input.unicode_len();
    if n < 2 || input.get_char(0) != '/' || input.get_char(1) != '/' {
        return None;
    }
    proof {
        assert(input@.subrange(0, n as int) =~= input@);
    }
    let mut j: usize = 0;
    while j < n - 1 && input.get_char(j) == '/' && input.get_char(j + 1) == '/'
        invariant
            j <= n,
            2 <= n == input@.len(),
            strip_slashes(input@) == strip_slashes(input@.subrange(j as int, n as int)),
        decreases n - j,
    {
        proof {
            assert(input@.subrange(j as int, n as int).subrange(
                2,
                input@.subrange(j as int, n as int).len() as int,
            ) =~= input@.subrange(j as int + 2, n as int));
        }
        j += 2;
    }
    let ghost t = input@.subrange(j as int, n as int);
    assert(strip_slashes(t) == t);
    let mut k = j;
    while k < n && crate::text::space(input.get_char(k))
        invariant
            j <= k <= n,
            n == input@.len(),
            nonspace_from(input@, j as int, n as int) == nonspace_from(
                input@,
                k as int,
                n as int,
            ),
        decreases n - k,
    {
        k += 1;
    }
    proof {
        lemma_nonspace_offset(input@, j as int, n as int);
        assert(nonspace_from(input@, k as int, n as int) == if k < n {
            k as int
        } else {
            n as int
        });
        assert(nonspace_from(t, 0, t.len() as int) == k - j);
    }
    let r = input.substring_char(k, n).to_owned();
    proof {
        assert(t.subrange(k - j, t.len() as int) =~= input@.subrange(k as int, n as int));
        assert(r@ =~= comment_spec(input@)->Some_0);
    }
    Some(r)
}

/// The first non-space position within a suffix, rebased to the suffix.
proof fn lemma_nonspace_offset(s: Seq<char>, j: int, n: int)
    requires
        0 <= j <= n == s.len(),
    ensures
        nonspace_from(s.subrange(j, n), 0, n - j) == nonspace_from(s, j, n) - j,
    decreases n - j,
{
    let t = s.subrange(j, n);
    if j < n {
        if is_space(s[j]) {
            lemma_nonspace_offset(s, j + 1, n);
            assert(t.subrange(1, t.len() as int) =~= s.subrange(j + 1, n));
            lemma_nonspace_shift(t);
        }
    }
}

/// Scanning for a non-space from one position further is scanning the
/// dropped-head suffix.
proof fn lemma_nonspace_shift(t: Seq<char>)
    requires
        t.len() >= 1,
        is_space(t[0]),
    ensures
        nonspace_from(t, 0, t.len() as int) == nonspace_from(
            t.subrange(1, t.len() as int),
            0,
            t.len() - 1,
        ) + 1,
    decreases t.len(),
{
    let u = t.subrange(1, t.len() as int);
    lemma_nonspace_align(t, u, 1, 0);
}

/// Non-space scans agree across a one-position shift of aligned sequences.
proof fn lemma_nonspace_align(t: Seq<char>, u: Seq<char>, i: int, k: int)
    requires
        u == t.subrange(1, t.len() as int),
        t.len() >= 1,
        1 <= i <= t.len(),
        k == i - 1,
    ensures
        nonspace_from(t, i, t.len() as int) == nonspace_from(u, k, u.len() as int) + 1,
    decreases t.len() - i,
{
    if i < t.len() {
        if is_space(t[i]) {
            lemma_nonspace_align(t, u, i + 1, k + 1);
        }
    }
}

/// Strips one pair of wrapping double quotes, returning the inside.
pub fn trim_pair(input: &str) -> (r: Option<&str>)
    ensures
        r is Some <==> pair_spec(input@) is Some,
        r matches Some(v) ==> Option::Some(v@) == pair_spec(input@),
{
    let n = input.unicode_len();
    if n >= 2 && input.get_char(0) == '"' && input.get_char(n - 1) == '"' {
        Some(input.substring_char(1, n - 1))
    } else {
        None
    }
}

/// The glob pattern of a sample-path cell.
pub fn pattern_of_x(cell: &str) -> (r: String)
    ensures
        r@ == pattern_of(cell@),
{
    let base = match trim_comment_prefix(cell) {
        Option::Some(c) => c,
        Option::None => cell.to_owned(),
    };
    let unquoted = match trim_pair(base.as_str()) {
        Option::Some(u) => Some(u.to_owned()),
        Option::None => None,
    };
    match unquoted {
        Option::Some(u) => u,
        Option::None => base,
    }
}

/// The policy of a sheet, from its first row's sample cell.
pub fn policy_of_x(cell: &str) -> (r: PathPolicy)
    ensures
        r == policy_of(cell@),
{
    if trim_comment_prefix(cell).is_some() {
        PathPolicy::Clear
    } else if trim_pair(cell).is_some() {
        PathPolicy::Quote
    } else {
        PathPolicy::Pass
    }
}

// ---------------------------------------------------------------------------
// Glob matching, through the pattern engine.
// ---------------------------------------------------------------------------

/// Longest glob pattern handed to the pattern engine.  The engine caps its
/// compiled automaton at a fixed size and aborts past it; the automaton
/// grows linearly in the pattern with a small constant, so patterns at this
/// length stay far below the cap, and longer ones are rejected as malformed
/// before the engine sees them.
pub const GLOB_PATTERN_MAX: usize = 4096;

/// Whether the pattern text compiles as a glob.
pub uninterp spec fn glob_ok(pat: Seq<char>) -> bool;

/// Whether the compiled glob matches a path; wildcards do not cross path
/// separators.
pub uninterp spec fn glob_match(pat: Seq<char>, path: Seq<char>) -> bool;

/// Relies on globset::GlobBuilder::build with literal_separator(true) and
/// GlobMatcher::is_match: compiling fails exactly on malformed patterns, and
/// matching each path is a function of the pattern and path text alone.
/// Compiling the matcher aborts when the compiled automaton outgrows the
/// engine's fixed cap, so the pattern length is bounded here.
#[verifier::external_body]
fn glob_matches(pat: &str, paths: &Vec<String>) -> (r: Option<Vec<bool>>)
    requires
        pat@.len() <= GLOB_PATTERN_MAX,
    ensures
        r is Some <==> glob_ok(pat@),
        r matches Some(v) ==> v@.len() == paths@.len() && forall|i: int|
            0 <= i < v@.len() ==> v@[i] == glob_match(pat@, paths@[i]@),
{
    let glob = globset::GlobBuilder::new(pat).literal_separator(true).build().ok()?;
    let matcher = glob.compile_matcher();
    Some(paths.iter().map(|p| matcher.is_match(p.as_str())).collect())
}

// ---------------------------------------------------------------------------
// The expansion fold.
// ---------------------------------------------------------------------------

/// View of the per-sample variable table.
pub open spec fn vars_table_view(t: Seq<(String, Vec<(String, String)>)>) -> Seq<
    (Seq<char>, Seq<(Seq<char>, Seq<char>)>),
> {
    t.map_values(|e: (String, Vec<(String, String)>)| (e.0@, pairs_view(e.1@)))
}

/// The variable bindings recorded for a sample path: the first entry under
/// that key, or nothing when the path has none.
pub open spec fn vars_of(
    table: Seq<(Seq<char>, Seq<(Seq<char>, Seq<char>)>)>,
    key: Seq<char>,
) -> Option<Seq<(Seq<char>, Seq<char>)>>
    decreases table.len(),
{
    if table.len() == 0 {
        Option::None
    } else if table[0].0 == key {
        Option::Some(table[0].1)
    } else {
        vars_of(table.drop_first(), key)
    }
}

/// One expanded row: the sample cell becomes the rendered path, and every
/// cell is then evaluated under the sample's variable context.
pub open spec fn expand_row(
    row: Seq<Seq<char>>,
    si: int,
    path: Seq<char>,
    pol: PathPolicy,
    vars: Option<Seq<(Seq<char>, Seq<char>)>>,
) -> Seq<Seq<char>> {
    Seq::new(
        row.len(),
        |k: int|
            apply_expr_spec(
                if k == si {
                    apply_policy(pol, path)
                } else {
                    row[k]
                },
                vars,
            ),
    )
}

/// A later row's cells override an earlier row's, but only where non-empty:
/// an empty cell never erases existing content.
pub open spec fn merge_cells(older: Seq<Seq<char>>, newer: Seq<Seq<char>>) -> Seq<Seq<char>> {
    Seq::new(
        older.len(),
        |k: int|
            if 0 <= k < newer.len() && newer[k].len() != 0 {
                newer[k]
            } else {
                older[k]
            },
    )
}

/// First position of a sample-path key in the accumulator, or -1.
pub open spec fn acc_find(acc: Seq<(Seq<char>, Seq<Seq<char>>)>, key: Seq<char>) -> int
    decreases acc.len(),
{
    if acc.len() == 0 {
        -1
    } else if acc[0].0 == key {
        0
    } else {
        let r = acc_find(acc.drop_first(), key);
        if r < 0 {
            -1
        } else {
            r + 1
        }
    }
}

/// Folding one expanded row into the accumulator: a new sample path is
/// appended; a known one has its row overridden cell-by-cell.
pub open spec fn upsert(
    acc: Seq<(Seq<char>, Seq<Seq<char>>)>,
    key: Seq<char>,
    row: Seq<Seq<char>>,
) -> Seq<(Seq<char>, Seq<Seq<char>>)> {
    let f = acc_find(acc, key);
    if f < 0 {
        acc + seq![(key, row)]
    } else {
        acc.update(f, (key, merge_cells(acc[f].1, row)))
    }
}

/// Folds one source row over the sample paths from position `j` on: every
/// path the row's pattern matches contributes one expanded row.
pub open spec fn row_step(
    acc: Seq<(Seq<char>, Seq<Seq<char>>)>,
    row: Seq<Seq<char>>,
    si: int,
    pol: PathPolicy,
    paths: Seq<Seq<char>>,
    j: int,
    table: Seq<(Seq<char>, Seq<(Seq<char>, Seq<char>)>)>,
) -> Seq<(Seq<char>, Seq<Seq<char>>)>
    decreases paths.len() - j,
{
    if j < 0 || j >= paths.len() {
        acc
    } else {
        let acc2 = if glob_match(pattern_of(row[si]), paths[j]) {
            upsert(acc, paths[j], expand_row(row, si, paths[j], pol, vars_of(table, paths[j])))
        } else {
            acc
        };
        row_step(acc2, row, si, pol, paths, j + 1, table)
    }
}

/// Folds the sheet's rows in source order from row `i` on; a row whose
/// pattern is oversized or does not compile fails the whole sheet.
pub open spec fn sheet_fold(
    rows: Seq<Seq<Seq<char>>>,
    i: int,
    acc: Seq<(Seq<char>, Seq<Seq<char>>)>,
    si: int,
    pol: PathPolicy,
    paths: Seq<Seq<char>>,
    table: Seq<(Seq<char>, Seq<(Seq<char>, Seq<char>)>)>,
) -> Result<Seq<(Seq<char>, Seq<Seq<char>>)>, ()>
    decreases rows.len() - i,
{
    if i < 0 || i >= rows.len() {
        Result::Ok(acc)
    } else if pattern_of(rows[i][si]).len() > GLOB_PATTERN_MAX || !glob_ok(
        pattern_of(rows[i][si]),
    ) {
        Result::Err(())
    } else {
        sheet_fold(rows, i + 1, row_step(acc, rows[i], si, pol, paths, 0, table), si, pol, paths, table)
    }
}

/// What expanding one sheet yields.  Without a sample column, or with an
/// empty sample cell in the first row, the sheet passes through unchanged;
/// otherwise the rows are folded over the matching sample paths, and the
/// merged rows come out in first-match order.
pub open spec fn expand_sheet_spec(
    rows: Seq<Seq<Seq<char>>>,
    si_opt: Option<int>,
    paths: Seq<Seq<char>>,
    table: Seq<(Seq<char>, Seq<(Seq<char>, Seq<char>)>)>,
) -> Result<Seq<Seq<Seq<char>>>, ()> {
    match si_opt {
        Option::None => Result::Ok(rows),
        Option::Some(si) => {
            if rows.len() == 0 || rows[0][si].len() == 0 {
                Result::Ok(rows)
            } else {
                match sheet_fold(rows, 0, Seq::empty(), si, policy_of(rows[0][si]), paths, table) {
                    Result::Err(_) => Result::Err(()),
                    Result::Ok(acc) => Result::Ok(
                        acc.map_values(|e: (Seq<char>, Seq<Seq<char>>)| e.1),
                    ),
                }
            }
        },
    }
}

/// View of the executable accumulator.
pub open spec fn acc_view(a: Seq<(String, Vec<String>)>) -> Seq<(Seq<char>, Seq<Seq<char>>)> {
    a.map_values(|e: (String, Vec<String>)| (e.0@, strings_view(e.1@)))
}

/// Deep copy of one row.
fn clone_row(r: &Vec<String>) -> (c: Vec<String>)
    ensures
        strings_view(c@) == strings_view(r@),
{
    let mut c: Vec<String> = Vec::new();
    let mut k: usize = 0;
    while k < r.len()
        invariant
            k <= r@.len(),
            strings_view(c@) =~= strings_view(r@).take(k as int),
        decreases r@.len() - k,
    {
        c.push(r[k].clone());
        proof {
            assert(strings_view(c@) =~= strings_view(c@.drop_last()).push(c@.last()@));
            assert(strings_view(r@).take(k as int + 1) =~= strings_view(r@).take(k as int).push(
                r@[k as int]@,
            ));
        }
        k += 1;
    }
    proof {
        assert(strings_view(r@).take(r@.len() as int) =~= strings_view(r@));
    }
    c
}

/// Deep copy of a row list.
fn clone_rows(rs: &Vec<Vec<String>>) -> (c: Vec<Vec<String>>)
    ensures
        rows_view(c@) == rows_view(rs@),
{
    let mut c: Vec<Vec<String>> = Vec::new();
    let mut k: usize = 0;
    while k < rs.len()
        invariant
            k <= rs@.len(),
            rows_view(c@) =~= rows_view(rs@).take(k as int),
        decreases rs@.len() - k,
    {
        c.push(clone_row(&rs[k]));
        proof {
            assert(rows_view(c@) =~= rows_view(c@.drop_last()).push(strings_view(c@.last()@)));
            assert(rows_view(rs@).take(k as int + 1) =~= rows_view(rs@).take(k as int).push(
                strings_view(rs@[k as int]@),
            ));
        }
        k += 1;
    }
    proof {
        assert(rows_view(rs@).take(rs@.len() as int) =~= rows_view(rs@));
    }
    c
}

/// The variable bindings of one sample path.
fn vars_lookup<'a>(
    rows_vars: &'a Vec<(String, Vec<(String, String)>)>,
    key: &str,
) -> (r: Option<&'a Vec<(String, String)>>)
    ensures
        r is Some <==> vars_of(vars_table_view(rows_vars@), key@) is Some,
        r matches Some(v) ==> Option::Some(pairs_view(v@)) == vars_of(
            vars_table_view(rows_vars@),
            key@,
        ),
{
    let ghost tv = vars_table_view(rows_vars@);
    proof {
        assert(tv.skip(0) =~= tv);
    }
    let mut k: usize = 0;
    while k < rows_vars.len()
        invariant
            k <= rows_vars@.len(),
            tv == vars_table_view(rows_vars@),
            vars_of(tv, key@) == vars_of(tv.skip(k as int), key@),
        decreases rows_vars@.len() - k,
    {
        proof {
            assert(tv.skip(k as int).drop_first() =~= tv.skip(k as int + 1));
        }
        if str_eq(rows_vars[k].0.as_str(), key) {
            return Some(&rows_vars[k].1);
        }
        k += 1;
    }
    assert(tv.skip(k as int) =~= Seq::<(Seq<char>, Seq<(Seq<char>, Seq<char>)>)>::empty());
    None
}

/// Renders one matched path per the sheet's policy.
fn apply_policy_x(pol: PathPolicy, path: &String) -> (r: String)
    ensures
        r@ == apply_policy(pol, path@),
{
    proof {
        reveal_strlit("\"");
        assert("\""@ =~= seq!['"']);
    }
    match pol {
        PathPolicy::Pass => path.clone(),
        PathPolicy::Clear => String::new(),
        PathPolicy::Quote => {
            let mut q = "\"".to_owned();
            q.append(path.as_str());
            q.append("\"");
            assert(q@ =~= apply_policy(pol, path@));
            q
        },
    }
}

/// Builds one expanded row for a matched sample path.
fn expand_row_x(
    row: &Vec<String>,
    si: usize,
    path: &String,
    pol: PathPolicy,
    vars: Option<&Vec<(String, String)>>,
) -> (r: Vec<String>)
    requires
        (si as int) < row@.len(),
    ensures
        strings_view(r@) == expand_row(
            strings_view(row@),
            si as int,
            path@,
            pol,
            match vars {
                Option::None => Option::None,
                Option::Some(v) => Option::Some(pairs_view(v@)),
            },
        ),
{
    let ghost vopt = match vars {
        Option::None => Option::<Seq<(Seq<char>, Seq<char>)>>::None,
        Option::Some(v) => Option::Some(pairs_view(v@)),
    };
    let ghost goal = expand_row(strings_view(row@), si as int, path@, pol, vopt);
    let mut out: Vec<String> = Vec::new();
    let mut k: usize = 0;
    while k < row.len()
        invariant
            k <= row@.len(),
            (si as int) < row@.len(),
            goal == expand_row(
                strings_view(row@),
                si as int,
                path@,
                pol,
                match vars {
                    Option::None => Option::<Seq<(Seq<char>, Seq<char>)>>::None,
                    Option::Some(v) => Option::Some(pairs_view(v@)),
                },
            ),
            strings_view(out@) =~= goal.take(k as int),
        decreases row@.len() - k,
    {
        let mut cell = if k == si {
            apply_policy_x(pol, path)
        } else {
            row[k].clone()
        };
        apply_expr(&mut cell, vars);
        out.push(cell);
        proof {
            assert(strings_view(out@) =~= strings_view(out@.drop_last()).push(out@.last()@));
            assert(goal.take(k as int + 1) =~= goal.take(k as int).push(goal[k as int]));
        }
        k += 1;
    }
    proof {
        assert(goal.take(goal.len() as int) =~= goal);
    }
    out
}

/// Merges a newer expanded row into an accumulated one, cell by cell,
/// keeping the accumulated cell wherever the newer one is empty.
fn merge_cells_x(older: &Vec<String>, newer: &Vec<String>) -> (r: Vec<String>)
    ensures
        strings_view(r@) == merge_cells(strings_view(older@), strings_view(newer@)),
{
    let ghost goal = merge_cells(strings_view(older@), strings_view(newer@));
    let mut out: Vec<String> = Vec::new();
    let mut k: usize = 0;
    while k < older.len()
        invariant
            k <= older@.len(),
            goal == merge_cells(strings_view(older@), strings_view(newer@)),
            strings_view(out@) =~= goal.take(k as int),
        decreases older@.len() - k,
    {
        if k < newer.len() && !newer[k].as_str().is_empty() {
            out.push(newer[k].clone());
        } else {
            out.push(older[k].clone());
        }
        proof {
            assert(strings_view(out@) =~= strings_view(out@.drop_last()).push(out@.last()@));
            assert(goal.take(k as int + 1) =~= goal.take(k as int).push(goal[k as int]));
        }
        k += 1;
    }
    proof {
        assert(goal.take(goal.len() as int) =~= goal);
    }
    out
}

/// Folds one expanded row into the accumulator under its sample-path key.
fn upsert_x(acc: &mut Vec<(String, Vec<String>)>, key: &String, row: Vec<String>)
    ensures
        acc_view(final(acc)@) == upsert(acc_view(old(acc)@), key@, strings_view(row@)),
{
    let ghost pre = acc_view(acc@);
    proof {
        assert(pre.skip(0) =~= pre);
    }
    let mut k: usize = 0;
    while k < acc.len()
        invariant
            k <= acc@.len(),
            pre == acc_view(acc@),
            pre == acc_view(old(acc)@),
            acc_find(pre, key@) == if acc_find(pre.skip(k as int), key@) < 0 {
                -1
            } else {
                k + acc_find(pre.skip(k as int), key@)
            },
            forall|m: int| 0 <= m < k ==> (#[trigger] pre[m]).0 != key@,
        decreases acc@.len() - k,
    {
        proof {
            assert(pre.skip(k as int).drop_first() =~= pre.skip(k as int + 1));
        }
        if str_eq(acc[k].0.as_str(), key.as_str()) {
            let merged = merge_cells_x(&acc[k].1, &row);
            let newkey = acc[k].0.clone();
            let ghost accb = acc@;
            acc[k] = (newkey, merged);
            proof {
                let post = acc_view(acc@);
                let target = upsert(pre, key@, strings_view(row@));
                assert(acc@ == accb.update(k as int, acc@[k as int]));
                assert(acc_find(pre, key@) == k as int);
                assert(post.len() == target.len());
                assert forall|m: int| 0 <= m < post.len() implies post[m] == target[m] by {
                    if m == k as int {
                        assert(post[m].0 == key@);
                        assert(post[m].1 == merge_cells(pre[k as int].1, strings_view(row@)));
                    } else {
                        assert(acc@[m] == accb[m]);
                        assert(post[m] == acc_view(accb)[m]);
                        assert(acc_view(accb)[m] == pre[m]);
                    }
                }
                assert(post =~= target);
            }
            return ;
        }
        k += 1;
    }
    proof {
        assert(pre.skip(k as int) =~= Seq::<(Seq<char>, Seq<Seq<char>>)>::empty());
    }
    acc.push((key.clone(), row));
    proof {
        assert(acc_view(acc@) =~= upsert(pre, key@, strings_view(acc@.last().1@)));
    }
}

/// Expands one sheet of rows against the sample-path set.  A sheet without
/// a sample column, or whose first row leaves the sample cell empty, passes
/// through unchanged; otherwise every row's pattern is matched against
/// every path, each match becomes one evaluated row, and rows resolving to
/// the same path are merged in source order.  A pattern that is oversized
/// or does not compile fails the sheet.
pub fn expand_sheet(
    rows: &Vec<Vec<String>>,
    sample_paths: &Vec<String>,
    rows_vars: &Vec<(String, Vec<(String, String)>)>,
    sample_idx: Option<&usize>,
) -> (r: Result<Vec<Vec<String>>, TableError>)
    requires
        sample_idx matches Some(si) ==> forall|k: int|
            0 <= k < rows@.len() ==> (*si as int) < #[trigger] rows@[k]@.len(),
    ensures
        ({
            let spec = expand_sheet_spec(
                rows_view(rows@),
                match sample_idx {
                    Option::None => Option::None,
                    Option::Some(si) => Option::Some(*si as int),
                },
                strings_view(sample_paths@),
                vars_table_view(rows_vars@),
            );
            match r {
                Result::Ok(v) => spec == Result::<Seq<Seq<Seq<char>>>, ()>::Ok(rows_view(v@)),
                Result::Err(e) => spec is Err && e == TableError::MalformedGlob,
            }
        }),
{
    let ghost rv = rows_view(rows@);
    let ghost pv = strings_view(sample_paths@);
    let ghost tv = vars_table_view(rows_vars@);
    let si: usize = match sample_idx {
        Option::None => {
            return Ok(clone_rows(rows));
        },
        Option::Some(si) => *si,
    };
    if rows.len() == 0 {
        return Ok(clone_rows(rows));
    }
    proof {
        assert(rv[0] == strings_view(rows@[0]@));
        assert(rv[0][si as int] == rows@[0]@[si as int]@);
    }
    if rows[0][si].as_str().is_empty() {
        return Ok(clone_rows(rows));
    }
    let policy = policy_of_x(rows[0][si].as_str());
    let mut acc: Vec<(String, Vec<String>)> = Vec::new();
    proof {
        assert(acc_view(acc@) =~= Seq::<(Seq<char>, Seq<Seq<char>>)>::empty());
    }
    let mut i: usize = 0;
    while i < rows.len()
        invariant
            i <= rows@.len(),
            rv == rows_view(rows@),
            pv == strings_view(sample_paths@),
            tv == vars_table_view(rows_vars@),
            rows@.len() > 0,
            sample_idx matches Some(p) && *p == si,
            (si as int) < rv[0].len(),
            forall|k: int| 0 <= k < rows@.len() ==> (si as int) < #[trigger] rows@[k]@.len(),
            rv[0][si as int].len() != 0,
            policy == policy_of(rv[0][si as int]),
            sheet_fold(rv, 0, Seq::empty(), si as int, policy, pv, tv) == sheet_fold(
                rv,
                i as int,
                acc_view(acc@),
                si as int,
                policy,
                pv,
                tv,
            ),
        decreases rows@.len() - i,
    {
        proof {
            assert(rv[i as int] == strings_view(rows@[i as int]@));
            assert(rv[i as int][si as int] == rows@[i as int]@[si as int]@);
        }
        let pattern = pattern_of_x(rows[i][si].as_str());
        if pattern.as_str().unicode_len() > GLOB_PATTERN_MAX {
            proof {
                assert(sheet_fold(rv, i as int, acc_view(acc@), si as int, policy, pv, tv)
                    is Err);
                assert(expand_sheet_spec(rv, Option::Some(si as int), pv, tv) is Err);
            }
            return Err(TableError::MalformedGlob);
        }
        let bits = match glob_matches(pattern.as_str(), sample_paths) {
            Option::None => {
                proof {
                    assert(sheet_fold(rv, i as int, acc_view(acc@), si as int, policy, pv, tv)
                        is Err);
                    assert(expand_sheet_spec(rv, Option::Some(si as int), pv, tv) is Err);
                }
                return Err(TableError::MalformedGlob);
            },
            Option::Some(b) => b,
        };
        proof {
            assert forall|m: int| 0 <= m < bits@.len() implies bits@[m] == glob_match(
                pattern@,
                pv[m],
            ) by {
                assert(pv[m] == sample_paths@[m]@);
            }
        }
        // Fold this row over every matching sample path.
        let ghost entry = acc_view(acc@);
        let mut j: usize = 0;
        while j < sample_paths.len()
            invariant
                j <= sample_paths@.len(),
                rv == rows_view(rows@),
                pv == strings_view(sample_paths@),
                tv == vars_table_view(rows_vars@),
                i < rows@.len(),
                (si as int) < rows@[i as int]@.len(),
                rv[i as int] == strings_view(rows@[i as int]@),
                pattern@ == pattern_of(rv[i as int][si as int]),
                bits@.len() == sample_paths@.len(),
                forall|m: int| 0 <= m < bits@.len() ==> bits@[m] == glob_match(
                    pattern@,
                    pv[m],
                ),
                row_step(entry, rv[i as int], si as int, policy, pv, 0, tv) == row_step(
                    acc_view(acc@),
                    rv[i as int],
                    si as int,
                    policy,
                    pv,
                    j as int,
                    tv,
                ),
            decreases sample_paths@.len() - j,
        {
            proof {
                assert(pv[j as int] == sample_paths@[j as int]@);
            }
            if bits[j] {
                let path = &sample_paths[j];
                let vars = vars_lookup(rows_vars, path.as_str());
                let newrow = expand_row_x(&rows[i], si, path, policy, vars);
                let ghost nr = strings_view(newrow@);
                let ghost before = acc_view(acc@);
                upsert_x(&mut acc, path, newrow);
                proof {
                    assert(nr == expand_row(
                        rv[i as int],
                        si as int,
                        pv[j as int],
                        policy,
                        vars_of(tv, pv[j as int]),
                    ));
                    assert(acc_view(acc@) == upsert(before, pv[j as int], nr));
                }
            }
            j += 1;
        }
        proof {
            assert(row_step(entry, rv[i as int], si as int, policy, pv, 0, tv) == acc_view(
                acc@,
            ));
            assert(glob_ok(pattern_of(rv[i as int][si as int])));
            assert(sheet_fold(rv, i as int, entry, si as int, policy, pv, tv) == sheet_fold(
                rv,
                i as int + 1,
                acc_view(acc@),
                si as int,
                policy,
                pv,
                tv,
            ));
        }
        i += 1;
    }
    proof {
        assert(sheet_fold(rv, i as int, acc_view(acc@), si as int, policy, pv, tv)
            == Result::<Seq<(Seq<char>, Seq<Seq<char>>)>, ()>::Ok(acc_view(acc@)));
    }
    // The merged rows, in first-match order.
    let mut out: Vec<Vec<String>> = Vec::new();
    let mut k: usize = 0;
    while k < acc.len()
        invariant
            k <= acc@.len(),
            rows_view(out@) =~= acc_view(acc@).map_values(
                |e: (Seq<char>, Seq<Seq<char>>)| e.1,
            ).take(k as int),
        decreases acc@.len() - k,
    {
        out.push(clone_row(&acc[k].1));
        proof {
            assert(rows_view(out@) =~= rows_view(out@.drop_last()).push(
                strings_view(out@.last()@),
            ));
            let mapped = acc_view(acc@).map_values(|e: (Seq<char>, Seq<Seq<char>>)| e.1);
            assert(mapped.take(k as int + 1) =~= mapped.take(k as int).push(mapped[k as int]));
        }
        k += 1;
    }
    proof {
        let mapped = acc_view(acc@).map_values(|e: (Seq<char>, Seq<Seq<char>>)| e.1);
        assert(mapped.take(mapped.len() as int) =~= mapped);
    }
    Ok(out)
}

/// Expands every sheet of a loaded table in place: sheets are expanded
/// independently and concatenated in original sheet order.  On failure the
/// rows are left untouched.
pub fn expand_sample_csv(
    sample_csv: &mut SampleCSV,
    sample_paths: &Vec<String>,
    rows_vars: &Vec<(String, Vec<(String, String)>)>,
) -> (r: Result<(), TableError>)
    requires
        old(sample_csv).index.sample matches Some(si) ==> forall|k: int|
            0 <= k < old(sample_csv).rows@.len() ==> (si as int) < #[trigger] old(
                sample_csv,
            ).rows@[k]@.len(),
        forall|k: int|
            0 <= k < old(sample_csv).header_ranges@.len() ==> #[trigger] old(
                sample_csv,
            ).header_ranges@[k].0 <= old(sample_csv).header_ranges@[k].1 <= old(
                sample_csv,
            ).rows@.len(),
    ensures
        final(sample_csv).index == old(sample_csv).index,
        final(sample_csv).header_ranges == old(sample_csv).header_ranges,
        ({
            let rv = rows_view(old(sample_csv).rows@);
            let ranges = old(sample_csv).header_ranges@;
            let si_opt = match old(sample_csv).index.sample {
                Option::None => Option::<int>::None,
                Option::Some(si) => Option::Some(si as int),
            };
            let pv = strings_view(sample_paths@);
            let tv = vars_table_view(rows_vars@);
            match r {
                Result::Ok(_) => rows_view(final(sample_csv).rows@) == expanded_sheets(
                    rv,
                    ranges,
                    ranges.len() as int,
                    si_opt,
                    pv,
                    tv,
                ) && (forall|k: int|
                    0 <= k < ranges.len() ==> expand_sheet_spec(
                        rv.subrange(#[trigger] ranges[k].0 as int, ranges[k].1 as int),
                        si_opt,
                        pv,
                        tv,
                    ) is Ok),
                Result::Err(e) => e == TableError::MalformedGlob && final(sample_csv).rows
                    == old(sample_csv).rows && (exists|k: int|
                    0 <= k < ranges.len() && expand_sheet_spec(
                        rv.subrange(#[trigger] ranges[k].0 as int, ranges[k].1 as int),
                        si_opt,
                        pv,
                        tv,
                    ) is Err),
            }
        }),
{
    let ghost rv = rows_view(sample_csv.rows@);
    let ghost ranges = sample_csv.header_ranges@;
    let ghost si_opt = match sample_csv.index.sample {
        Option::None => Option::<int>::None,
        Option::Some(si) => Option::Some(si as int),
    };
    let ghost pv = strings_view(sample_paths@);
    let ghost tv = vars_table_view(rows_vars@);
    let mut new_rows: Vec<Vec<String>> = Vec::new();
    let mut k: usize = 0;
    while k < sample_csv.header_ranges.len()
        invariant
            k <= ranges.len(),
            *sample_csv == *old(sample_csv),
            rv == rows_view(sample_csv.rows@),
            ranges == sample_csv.header_ranges@,
            si_opt == (match sample_csv.index.sample {
                Option::None => Option::<int>::None,
                Option::Some(si) => Option::Some(si as int),
            }),
            pv == strings_view(sample_paths@),
            tv == vars_table_view(rows_vars@),
            sample_csv.index.sample matches Some(si) ==> forall|m: int|
                0 <= m < sample_csv.rows@.len() ==> (si as int) < #[trigger] sample_csv
                    .rows@[m]@.len(),
            forall|m: int|
                0 <= m < sample_csv.header_ranges@.len() ==> #[trigger] sample_csv
                    .header_ranges@[m].0 <= sample_csv.header_ranges@[m].1
                    <= sample_csv.rows@.len(),
            rows_view(new_rows@) =~= expanded_sheets(rv, ranges, k as int, si_opt, pv, tv),
            forall|m: int|
                0 <= m < k ==> expand_sheet_spec(
                    rv.subrange(#[trigger] ranges[m].0 as int, ranges[m].1 as int),
                    si_opt,
                    pv,
                    tv,
                ) is Ok,
        decreases ranges.len() - k,
    {
        let (a, b) = sample_csv.header_ranges[k];
        proof {
            assert(a <= b <= sample_csv.rows@.len());
        }
        // Copy this sheet's rows out of the table.
        let mut sheet: Vec<Vec<String>> = Vec::new();
        let mut t = a;
        while t < b
            invariant
                a <= t <= b,
                b <= sample_csv.rows@.len(),
                rv == rows_view(sample_csv.rows@),
                rows_view(sheet@) =~= rv.subrange(a as int, t as int),
            decreases b - t,
        {
            sheet.push(clone_row(&sample_csv.rows[t]));
            proof {
                assert(rows_view(sheet@) =~= rows_view(sheet@.drop_last()).push(
                    strings_view(sheet@.last()@),
                ));
                assert(rv.subrange(a as int, t as int + 1) =~= rv.subrange(
                    a as int,
                    t as int,
                ).push(rv[t as int]));
            }
            t += 1;
        }
        proof {
            if sample_csv.index.sample is Some {
                let siv = sample_csv.index.sample->Some_0 as int;
                assert forall|m: int| 0 <= m < sheet@.len() implies siv < #[trigger] sheet@[m]@
                    .len() by {
                    assert(rows_view(sheet@)[m] == rv.subrange(a as int, b as int)[m]);
                    assert(rv[a + m] == strings_view(sample_csv.rows@[a + m]@));
                    assert(strings_view(sheet@[m]@).len() == sheet@[m]@.len());
                }
            }
        }
        let expanded = match expand_sheet(
            &sheet,
            sample_paths,
            rows_vars,
            sample_csv.index.sample.as_ref(),
        ) {
            Result::Ok(v) => v,
            Result::Err(e) => {
                proof {
                    assert(rows_view(sheet@) =~= rv.subrange(a as int, b as int));
                }
                return Err(e);
            },
        };
        proof {
            assert(rows_view(sheet@) =~= rv.subrange(a as int, b as int));
            assert(expand_sheet_spec(
                rv.subrange(a as int, b as int),
                si_opt,
                pv,
                tv,
            ) == Result::<Seq<Seq<Seq<char>>>, ()>::Ok(rows_view(expanded@)));
        }
        let mut w: usize = 0;
        while w < expanded.len()
            invariant
                w <= expanded@.len(),
                rows_view(new_rows@) =~= expanded_sheets(rv, ranges, k as int, si_opt, pv, tv)
                    + rows_view(expanded@).take(w as int),
            decreases expanded@.len() - w,
        {
            new_rows.push(clone_row(&expanded[w]));
            proof {
                let prev = expanded_sheets(rv, ranges, k as int, si_opt, pv, tv);
                assert(rows_view(expanded@)[w as int] == strings_view(expanded@[w as int]@));
                assert(rows_view(new_rows@) =~= rows_view(new_rows@.drop_last()).push(
                    strings_view(new_rows@.last()@),
                ));
                assert(rows_view(expanded@).take(w as int + 1) =~= rows_view(
                    expanded@,
                ).take(w as int).push(rows_view(expanded@)[w as int]));
                assert(rows_view(new_rows@) =~= (prev + rows_view(expanded@).take(
                    w as int,
                )).push(rows_view(expanded@)[w as int]));
                assert((prev + rows_view(expanded@).take(w as int)).push(
                    rows_view(expanded@)[w as int],
                ) =~= prev + rows_view(expanded@).take(w as int + 1));
            }
            w += 1;
        }
        proof {
            assert(rows_view(expanded@).take(rows_view(expanded@).len() as int) =~= rows_view(
                expanded@,
            ));
            assert(expanded_sheets(rv, ranges, k as int + 1, si_opt, pv, tv)
                =~= expanded_sheets(rv, ranges, k as int, si_opt, pv, tv) + rows_view(
                expanded@,
            ));
        }
        k += 1;
    }
    sample_csv.rows = new_rows;
    Ok(())
}

/// The concatenation of the first `n` sheets' expansions, where each sheet
/// expands successfully.
pub open spec fn expanded_sheets(
    rows: Seq<Seq<Seq<char>>>,
    ranges: Seq<(usize, usize)>,
    n: int,
    si_opt: Option<int>,
    paths: Seq<Seq<char>>,
    table: Seq<(Seq<char>, Seq<(Seq<char>, Seq<char>)>)>,
) -> Seq<Seq<Seq<char>>>
    decreases n,
{
    if n <= 0 {
        Seq::empty()
    } else {
        expanded_sheets(rows, ranges, n - 1, si_opt, paths, table) + (match expand_sheet_spec(
            rows.subrange(ranges[n - 1].0 as int, ranges[n - 1].1 as int),
            si_opt,
            paths,
            table,
        ) {
            Result::Ok(v) => v,
            Result::Err(_) => Seq::empty(),
        })
    }
}

} // verus!
