//! Directive-cell parsing: `@name` optionally followed by a parenthesized,
//! comma-separated argument list, and the per-table column index built from
//! the directive row.

use vstd::prelude::*;
use crate::text::{is_ident_char, is_ident_start, is_space, ident_char, ident_start, space,
    str_eq};

verus! {

// ---------------------------------------------------------------------------
// Scanning primitives, in index form.
// ---------------------------------------------------------------------------

/// End of the identifier-character run that starts at `i`.
pub open spec fn ident_run_end(s: Seq<char>, i: int) -> int
    decreases s.len() - i,
{
    if i < 0 || i >= s.len() {
        i
    } else if is_ident_char(s[i]) {
        ident_run_end(s, i + 1)
    } else {
        i
    }
}

/// First index in `[p, e)` that holds a comma, or `e` if none does.
pub open spec fn comma_from(s: Seq<char>, p: int, e: int) -> int
    decreases e - p,
{
    if p < 0 || p >= e || p >= s.len() {
        e
    } else if s[p] == ',' {
        p
    } else {
        comma_from(s, p + 1, e)
    }
}

/// First index in `[a, b)` whose character is not whitespace, or `b` if all are.
pub open spec fn nonspace_from(s: Seq<char>, a: int, b: int) -> int
    decreases b - a,
{
    if a < 0 || a >= b || a >= s.len() {
        b
    } else if !is_space(s[a]) {
        a
    } else {
        nonspace_from(s, a + 1, b)
    }
}

/// One past the last index in `[a, b)` whose character is not whitespace, or
/// `a` if all are.
pub open spec fn nonspace_upto(s: Seq<char>, a: int, b: int) -> int
    decreases b - a,
{
    if b <= a || b > s.len() || b < 1 {
        a
    } else if !is_space(s[b - 1]) {
        b
    } else {
        nonspace_upto(s, a, b - 1)
    }
}

/// The slice `[a, b)` of `s` with surrounding whitespace removed.
pub open spec fn trimmed(s: Seq<char>, a: int, b: int) -> Seq<char> {
    let lo = nonspace_from(s, a, b);
    let hi = nonspace_upto(s, lo, b);
    if lo >= hi {
        Seq::empty()
    } else {
        s.subrange(lo, hi)
    }
}

/// An argument is kept when it is non-empty after trimming.
pub open spec fn keep_arg(x: Seq<char>) -> Seq<Seq<char>> {
    if x.len() == 0 {
        Seq::empty()
    } else {
        seq![x]
    }
}

/// The kept arguments of the comma-separated list in `[p, e)` of `s`:
/// each piece trimmed of surrounding whitespace, empty pieces dropped.
pub open spec fn kept_args(s: Seq<char>, p: int, e: int) -> Seq<Seq<char>>
    decreases e - p,
{
    let k = comma_from(s, p, e);
    if k >= e || k < p {
        keep_arg(trimmed(s, p, e))
    } else {
        keep_arg(trimmed(s, p, k)) + kept_args(s, k + 1, e)
    }
}

// ---------------------------------------------------------------------------
// The annotation grammar.
// ---------------------------------------------------------------------------

/// What a directive cell parses to: `@ident` alone gives `[ident]`;
/// `@ident(args)` gives `[ident]` followed by the kept arguments; any other
/// text gives nothing (the cell is then a literal opcode name).
pub open spec fn annotation_spec(s: Seq<char>) -> Option<Seq<Seq<char>>> {
    if s.len() < 2 || s[0] != '@' || !is_ident_start(s[1]) {
        None
    } else {
        let j = ident_run_end(s, 1);
        if j == s.len() {
            Some(seq![s.subrange(1, j)])
        } else if s[j] == '(' && j < s.len() - 1 && s[s.len() - 1] == ')' {
            Some(seq![s.subrange(1, j)] + kept_args(s, j + 1, s.len() - 1))
        } else {
            None
        }
    }
}

/// View of a vector of owned strings as a sequence of character sequences.
pub open spec fn strings_view(v: Seq<String>) -> Seq<Seq<char>> {
    v.map_values(|x: String| x@)
}

/// Trims the characters `[a, b)` of `s` into an owned string.
fn trim_slice(s: &str, n: usize, a: usize, b: usize) -> (r: String)
    requires
        n == s@.len(),
        a <= b <= n,
    ensures
        r@ == trimmed(s@, a as int, b as int),
{
    let mut lo = a;
    while lo < b && space(s.get_char(lo))
        invariant
            a <= lo <= b <= n,
            n == s@.len(),
            nonspace_from(s@, a as int, b as int) == nonspace_from(s@, lo as int, b as int),
        decreases b - lo,
    {
        lo += 1;
    }
    assert(nonspace_from(s@, lo as int, b as int) == if lo < b {
        lo as int
    } else {
        b as int
    });
    let mut hi = b;
    while hi > lo && space(s.get_char(hi - 1))
        invariant
            lo <= hi <= b <= n,
            n == s@.len(),
            nonspace_upto(s@, lo as int, b as int) == nonspace_upto(s@, lo as int, hi as int),
        decreases hi,
    {
        hi -= 1;
    }
    assert(nonspace_upto(s@, lo as int, hi as int) == if hi > lo {
        hi as int
    } else {
        lo as int
    });
    if lo >= hi {
        String::new()
    } else {
        let r = s.substring_char(lo, hi).to_owned();
        assert(r@ =~= trimmed(s@, a as int, b as int));
        r
    }
}

/// Parses one directive cell.  Returns the directive name followed by its
/// kept arguments, or nothing when the cell is not a directive.
pub fn parse_annotation(input: &str) -> (r: Option<Vec<String>>)
    ensures
        r is Some <==> annotation_spec(input@) is Some,
        r matches Some(v) ==> Some(strings_view(v@)) == annotation_spec(input@),
{
    let n = input.unicode_len();
    if n < 2 || input.get_char(0) != '@' || !ident_start(input.get_char(1)) {
        return None;
    }
    let mut j: usize = 1;
    while j < n && ident_char(input.get_char(j))
        invariant
            1 <= j <= n,
            n == input@.len(),
            ident_run_end(input@, 1) == ident_run_end(input@, j as int),
        decreases n - j,
    {
        j += 1;
    }
    assert(ident_run_end(input@, j as int) == j as int);
    let name = input.substring_char(1, j).to_owned();
    let mut out: Vec<String> = Vec::new();
    out.push(name);
    if j == n {
        assert(strings_view(out@) =~= annotation_spec(input@)->Some_0);
        return Some(out);
    }
    if input.get_char(j) != '(' || j >= n - 1 || input.get_char(n - 1) != ')' {
        return None;
    }
    // Scan the argument list between the parentheses.  The invariant says
    // that the arguments gathered so far plus those still to be scanned give
    // exactly the kept arguments of the whole list.
    let ghost full: Seq<Seq<char>> = seq![input@.subrange(1, j as int)] + kept_args(
        input@,
        j as int + 1,
        n as int - 1,
    );
    let e = n - 1;
    let mut p = j + 1;
    while p < e
        invariant
            j + 1 <= p <= e,
            e == n - 1,
            n == input@.len(),
            full =~= strings_view(out@) + kept_args(input@, p as int, e as int),
        decreases e - p,
    {
        // Find the next comma at or after `p`.
        let mut k = p;
        while k < e && input.get_char(k) != ','
            invariant
                p <= k <= e,
                n == input@.len(),
                e < n,
                comma_from(input@, p as int, e as int) == comma_from(input@, k as int, e as int),
            decreases e - k,
        {
            k += 1;
        }
        assert(comma_from(input@, p as int, e as int) == if k < e {
            k as int
        } else {
            e as int
        });
        let piece = trim_slice(input, n, p, k);
        if piece.unicode_len() > 0 {
            out.push(piece);
            assert(keep_arg(trimmed(input@, p as int, k as int)) =~= seq![piece@]);
        } else {
            assert(keep_arg(trimmed(input@, p as int, k as int)) =~= Seq::<Seq<char>>::empty());
        }
        if k == e {
            p = e;
            assert(kept_args(input@, e as int, e as int) =~= Seq::<Seq<char>>::empty());
        } else {
            p = k + 1;
        }
        assert(full =~= strings_view(out@) + kept_args(input@, p as int, e as int));
    }
    assert(kept_args(input@, e as int, e as int) =~= Seq::<Seq<char>>::empty());
    assert(strings_view(out@) =~= annotation_spec(input@)->Some_0);
    Some(out)
}

// ---------------------------------------------------------------------------
// Decimal rendering of a column ordinal, for synthetic raw keys.
// ---------------------------------------------------------------------------

/// The character of one decimal digit.
pub open spec fn digit_char(d: nat) -> char {
    if d == 0 {
        '0'
    } else if d == 1 {
        '1'
    } else if d == 2 {
        '2'
    } else if d == 3 {
        '3'
    } else if d == 4 {
        '4'
    } else if d == 5 {
        '5'
    } else if d == 6 {
        '6'
    } else if d == 7 {
        '7'
    } else if d == 8 {
        '8'
    } else {
        '9'
    }
}

/// Decimal text of a natural number.
pub open spec fn dec_str(n: nat) -> Seq<char>
    decreases n,
{
    if n < 10 {
        seq![digit_char(n)]
    } else {
        dec_str(n / 10) + seq![digit_char(n % 10)]
    }
}

fn digit_str(d: usize) -> (r: &'static str)
    requires
        d < 10,
    ensures
        r@ == seq![digit_char(d as nat)],
{
    proof {
        reveal_strlit("0");
        reveal_strlit("1");
        reveal_strlit("2");
        reveal_strlit("3");
        reveal_strlit("4");
        reveal_strlit("5");
        reveal_strlit("6");
        reveal_strlit("7");
        reveal_strlit("8");
        reveal_strlit("9");
    }
    let r = match d {
        0 => "0",
        1 => "1",
        2 => "2",
        3 => "3",
        4 => "4",
        5 => "5",
        6 => "6",
        7 => "7",
        8 => "8",
        _ => "9",
    };
    assert(r@ =~= seq![digit_char(d as nat)]);
    r
}

/// Renders a column ordinal in decimal.
pub fn usize_to_string(n: usize) -> (r: String)
    ensures
        r@ == dec_str(n as nat),
    decreases n,
{
    if n < 10 {
        digit_str(n).to_owned()
    } else {
        let mut s = usize_to_string(n / 10);
        s.append(digit_str(n % 10));
        s
    }
}

// ---------------------------------------------------------------------------
// The column index of one table.
// ---------------------------------------------------------------------------

/// One output column: its output key, the source column it reads, and
/// whether it is emitted bare (an `@raw` column) rather than as `key=value`.
pub struct OutputColumn {
    pub key: String,
    pub idx: usize,
    pub raw: bool,
}

/// The column-role index derived once from a table's directive row:
/// the ordered output columns, and the source columns that carry the
/// `raw`, `sample` and `header` roles.
pub struct TableIndex {
    pub columns: Vec<OutputColumn>,
    pub raw: Option<usize>,
    pub sample: Option<usize>,
    pub header: Option<usize>,
}

/// Model of one output column.
pub open spec fn col_view(c: OutputColumn) -> (Seq<char>, int, bool) {
    (c.key@, c.idx as int, c.raw)
}

/// Model of the ordered column list.
pub open spec fn cols_view(v: Seq<OutputColumn>) -> Seq<(Seq<char>, int, bool)> {
    v.map_values(|c: OutputColumn| col_view(c))
}

/// The output key and raw flag that directive cell `cell` at column `i`
/// contributes: `@raw` gets a synthetic key `_raw_<i>`, `@sample(<key>)`
/// gets its first argument (`sample` when absent), `@header` gets the empty
/// key, and anything else passes the cell text through as a literal opcode
/// name.
pub open spec fn key_spec(cell: Seq<char>, i: int) -> (Seq<char>, bool) {
    match annotation_spec(cell) {
        Option::None => (cell, false),
        Option::Some(parts) => {
            if parts[0] == "raw"@ {
                ("_raw_"@ + dec_str(i as nat), true)
            } else if parts[0] == "sample"@ {
                (if parts.len() >= 2 { parts[1] } else { "sample"@ }, false)
            } else if parts[0] == "header"@ {
                (Seq::empty(), false)
            } else {
                (cell, false)
            }
        },
    }
}

/// First position of `key` in the column list, or -1.
pub open spec fn find_key(cols: Seq<(Seq<char>, int, bool)>, key: Seq<char>) -> int
    decreases cols.len(),
{
    if cols.len() == 0 {
        -1
    } else if cols[0].0 == key {
        0
    } else {
        let r = find_key(cols.drop_first(), key);
        if r < 0 {
            -1
        } else {
            r + 1
        }
    }
}

/// Inserting a key keeps the first occurrence's position and updates its
/// column; a new key is appended.
pub open spec fn insert_col(
    cols: Seq<(Seq<char>, int, bool)>,
    key: Seq<char>,
    i: int,
    raw: bool,
) -> Seq<(Seq<char>, int, bool)> {
    let f = find_key(cols, key);
    if f < 0 {
        cols + seq![(key, i, raw)]
    } else {
        cols.update(f, (key, i, raw))
    }
}

/// The column list after the first `n` directive cells.
pub open spec fn cols_spec(cells: Seq<Seq<char>>, n: int) -> Seq<(Seq<char>, int, bool)>
    decreases n,
{
    if n <= 0 {
        Seq::empty()
    } else {
        let prev = cols_spec(cells, n - 1);
        let kr = key_spec(cells[n - 1], n - 1);
        insert_col(prev, kr.0, n - 1, kr.1)
    }
}

/// Whether a directive cell carries the given role name.
pub open spec fn has_role(cell: Seq<char>, role: Seq<char>) -> bool {
    match annotation_spec(cell) {
        Option::None => false,
        Option::Some(parts) => parts[0] == role,
    }
}

/// The last column among the first `n` whose directive carries `role`.
pub open spec fn role_spec(cells: Seq<Seq<char>>, n: int, role: Seq<char>) -> Option<int>
    decreases n,
{
    if n <= 0 {
        Option::None
    } else if has_role(cells[n - 1], role) {
        Option::Some(n - 1)
    } else {
        role_spec(cells, n - 1, role)
    }
}

/// Model of an optional column number.
pub open spec fn opt_view(o: Option<usize>) -> Option<int> {
    match o {
        Option::None => Option::None,
        Option::Some(i) => Option::Some(i as int),
    }
}

impl TableIndex {
    /// The index is exactly what the directive cells prescribe.
    pub open spec fn derived_from(&self, cells: Seq<Seq<char>>) -> bool {
        &&& cols_view(self.columns@) == cols_spec(cells, cells.len() as int)
        &&& opt_view(self.raw) == role_spec(cells, cells.len() as int, "raw"@)
        &&& opt_view(self.sample) == role_spec(cells, cells.len() as int, "sample"@)
        &&& opt_view(self.header) == role_spec(cells, cells.len() as int, "header"@)
    }

    /// Number of output columns.
    pub fn opcode_len(&self) -> (r: usize)
        ensures
            r == self.columns@.len(),
    {
        self.columns.len()
    }

    /// The source column of the output key `name`.
    pub fn opcode_get(&self, name: &str) -> (r: Option<usize>)
        ensures
            ({
                let f = find_key(cols_view(self.columns@), name@);
                if f < 0 {
                    r is None
                } else {
                    r matches Some(i) && i as int == cols_view(self.columns@)[f].1
                }
            }),
    {
        proof {
            assert(cols_view(self.columns@).skip(0) =~= cols_view(self.columns@));
        }
        let mut k: usize = 0;
        while k < self.columns.len()
            invariant
                k <= self.columns@.len(),
                forall|m: int| 0 <= m < k ==> cols_view(self.columns@)[m].0 != name@,
                find_key(cols_view(self.columns@), name@) == if find_key(
                    cols_view(self.columns@).skip(k as int),
                    name@,
                ) < 0 {
                    -1
                } else {
                    k + find_key(cols_view(self.columns@).skip(k as int), name@)
                },
            decreases self.columns@.len() - k,
        {
            proof {
                assert(cols_view(self.columns@).skip(k as int).drop_first() =~= cols_view(
                    self.columns@,
                ).skip(k as int + 1));
            }
            if str_eq(self.columns[k].key.as_str(), name) {
                return Some(self.columns[k].idx);
            }
            k += 1;
        }
        assert(cols_view(self.columns@).skip(k as int) =~= Seq::<(Seq<char>, int, bool)>::empty());
        None
    }

    /// The source column that carries the role `name` (`raw`, `sample` or
    /// `header`).
    pub fn anno_get(&self, name: &str) -> (r: Option<usize>)
        ensures
            name@ == "raw"@ ==> r == self.raw,
            name@ == "sample"@ ==> r == self.sample,
            name@ == "header"@ ==> r == self.header,
            name@ != "raw"@ && name@ != "sample"@ && name@ != "header"@ ==> r is None,
    {
        proof {
            reveal_strlit("raw");
            reveal_strlit("sample");
            reveal_strlit("header");
            assert("raw"@.len() == 3);
            assert("sample"@.len() == 6);
            assert("header"@.len() == 6);
            assert("sample"@[0] == 's');
            assert("header"@[0] == 'h');
            assert("raw"@ != "sample"@ && "raw"@ != "header"@ && "sample"@ != "header"@);
        }
        if str_eq(name, "raw") {
            self.raw
        } else if str_eq(name, "sample") {
            self.sample
        } else if str_eq(name, "header") {
            self.header
        } else {
            None
        }
    }

    /// How many of the three roles are present.
    pub fn anno_len(&self) -> (r: usize)
        ensures
            r == (if self.raw is Some { 1int } else { 0 }) + (if self.sample is Some {
                1int
            } else {
                0
            }) + (if self.header is Some { 1int } else { 0 }),
    {
        let mut r: usize = 0;
        if self.raw.is_some() {
            r += 1;
        }
        if self.sample.is_some() {
            r += 1;
        }
        if self.header.is_some() {
            r += 1;
        }
        r
    }
}

/// Builds the column index from the directive row: output keys in source
/// column order with first-occurrence positions kept on key collisions, and
/// the last column of each role.
pub fn create_indices(opcodes: &Vec<String>) -> (r: TableIndex)
    ensures
        r.derived_from(strings_view(opcodes@)),
{
    let ghost cells = strings_view(opcodes@);
    let mut r = TableIndex { columns: Vec::new(), raw: None, sample: None, header: None };
    let mut i: usize = 0;
    while i < opcodes.len()
        invariant
            i <= opcodes@.len(),
            cells == strings_view(opcodes@),
            cols_view(r.columns@) == cols_spec(cells, i as int),
            opt_view(r.raw) == role_spec(cells, i as int, "raw"@),
            opt_view(r.sample) == role_spec(cells, i as int, "sample"@),
            opt_view(r.header) == role_spec(cells, i as int, "header"@),
        decreases opcodes@.len() - i,
    {
        proof {
            reveal_strlit("raw");
            reveal_strlit("sample");
            reveal_strlit("header");
            assert("raw"@.len() == 3);
            assert("sample"@.len() == 6);
            assert("header"@.len() == 6);
            assert("sample"@[0] == 's');
            assert("header"@[0] == 'h');
            assert("raw"@ != "sample"@ && "raw"@ != "header"@ && "sample"@ != "header"@);
        }
        let cell = &opcodes[i];
        let ann = parse_annotation(cell.as_str());
        let mut key: String = String::new();
        let mut raw_flag = false;
        match ann {
            Option::None => {
                key = cell.clone();
            },
            Option::Some(parts) => {
                proof {
                    assert(annotation_spec(cell@)->Some_0.len() >= 1);
                    assert(parts@.len() >= 1);
                    assert(strings_view(parts@)[0] == parts@[0]@);
                }
                if str_eq(parts[0].as_str(), "raw") {
                    key = "_raw_".to_owned();
                    key.append(usize_to_string(i).as_str());
                    raw_flag = true;
                    r.raw = Some(i);
                } else if str_eq(parts[0].as_str(), "sample") {
                    if parts.len() >= 2 {
                        key = parts[1].clone();
                    } else {
                        key = "sample".to_owned();
                    }
                    r.sample = Some(i);
                } else if str_eq(parts[0].as_str(), "header") {
                    key = String::new();
                    r.header = Some(i);
                } else {
                    key = cell.clone();
                }
            },
        }
        assert((key@, raw_flag) == key_spec(cells[i as int], i as int));
        // Insert with first-occurrence-position semantics.
        let ghost pre = cols_view(r.columns@);
        proof {
            assert(pre.skip(0) =~= pre);
        }
        let mut k: usize = 0;
        let mut found = false;
        while k < r.columns.len() && !found
            invariant
                k <= r.columns@.len(),
                cols_view(r.columns@) == pre,
                !found ==> forall|m: int| 0 <= m < k ==> pre[m].0 != key@,
                !found ==> find_key(pre, key@) == if find_key(pre.skip(k as int), key@) < 0 {
                    -1
                } else {
                    k + find_key(pre.skip(k as int), key@)
                },
                found ==> k < pre.len() && find_key(pre, key@) == k as int,
            decreases r.columns@.len() - k + (if found { 0int } else { 1 }),
        {
            proof {
                assert(pre.skip(k as int).drop_first() =~= pre.skip(k as int + 1));
            }
            if str_eq(r.columns[k].key.as_str(), key.as_str()) {
                found = true;
            } else {
                k += 1;
            }
        }
        if found {
            r.columns[k] = OutputColumn { key, idx: i, raw: raw_flag };
            assert(cols_view(r.columns@) =~= insert_col(
                pre,
                key_spec(cells[i as int], i as int).0,
                i as int,
                key_spec(cells[i as int], i as int).1,
            ));
        } else {
            assert(pre.skip(k as int) =~= Seq::<(Seq<char>, int, bool)>::empty());
            r.columns.push(OutputColumn { key, idx: i, raw: raw_flag });
            assert(cols_view(r.columns@) =~= insert_col(
                pre,
                key_spec(cells[i as int], i as int).0,
                i as int,
                key_spec(cells[i as int], i as int).1,
            ));
        }
        i += 1;
    }
    r
}

} // verus!
