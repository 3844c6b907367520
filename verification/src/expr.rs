//! Embedded `${...}` arithmetic templates: locating them in a cell, lowering
//! the library's own function set (`ceil`, `round(x, d)`, `sat`, `vsat`,
//! `nl`) to builtin arithmetic, evaluating through the expression engine, and
//! rendering the numeric result as plain decimal text.

use vstd::prelude::*;
use crate::annotation::{ident_run_end, nonspace_from};
use crate::text::{is_ident_start, is_ident_char, ident_start, ident_char, space, is_digit,
    digit, push_char_from, str_eq};

verus! {

// ---------------------------------------------------------------------------
// Lowering the custom function set, by rewriting the expression text.
// ---------------------------------------------------------------------------

/// The matching close parenthesis: first index at or past `i` where the
/// running parenthesis depth, starting at `depth`, returns to zero.
pub open spec fn find_close(s: Seq<char>, i: int, depth: int) -> Option<int>
    decreases s.len() - i,
{
    if i < 0 || i >= s.len() {
        Option::None
    } else if s[i] == ')' && depth <= 1 {
        Option::Some(i)
    } else if s[i] == ')' {
        find_close(s, i + 1, depth - 1)
    } else if s[i] == '(' {
        find_close(s, i + 1, depth + 1)
    } else {
        find_close(s, i + 1, depth)
    }
}

/// First comma at parenthesis depth zero in `[i, e)`, or `e` if none.
/// A close parenthesis below depth zero is kept at zero; the regions this
/// runs on lie inside one matched pair, where that cannot happen.
pub open spec fn arg_cut(s: Seq<char>, i: int, e: int, depth: int) -> int
    decreases e - i,
{
    if i < 0 || i >= e || i >= s.len() {
        e
    } else if depth <= 0 && s[i] == ',' {
        i
    } else if s[i] == '(' {
        arg_cut(s, i + 1, e, depth + 1)
    } else if s[i] == ')' {
        arg_cut(s, i + 1, e, if depth <= 0 { 0 } else { depth - 1 })
    } else {
        arg_cut(s, i + 1, e, depth)
    }
}

proof fn lemma_arg_cut_bounds(s: Seq<char>, i: int, e: int, depth: int)
    requires
        0 <= i,
    ensures
        arg_cut(s, i, e, depth) <= e,
        i <= e ==> i <= arg_cut(s, i, e, depth),
    decreases e - i,
{
    if 0 <= i < e && i < s.len() {
        lemma_arg_cut_bounds(s, i + 1, e, depth + 1);
        lemma_arg_cut_bounds(s, i + 1, e, if depth <= 0 { 0 } else { depth - 1 });
        lemma_arg_cut_bounds(s, i + 1, e, depth);
    }
}

proof fn lemma_ident_run_bounds(s: Seq<char>, x: int)
    requires
        0 <= x,
    ensures
        x <= ident_run_end(s, x),
        x <= s.len() ==> ident_run_end(s, x) <= s.len(),
    decreases s.len() - x,
{
    if x < s.len() && is_ident_char(s[x]) {
        lemma_ident_run_bounds(s, x + 1);
    }
}

/// Joins the arguments from position `t` on with commas; a comma precedes
/// every argument but the first.
pub open spec fn join_from(args: Seq<Seq<char>>, t: int) -> Seq<char>
    decreases args.len() - t,
{
    if t < 0 || t >= args.len() {
        Seq::empty()
    } else if t == 0 {
        args[0] + join_from(args, 1)
    } else {
        seq![','] + args[t] + join_from(args, t + 1)
    }
}

/// Joins rewritten arguments with commas.
pub open spec fn join_args(args: Seq<Seq<char>>) -> Seq<char> {
    join_from(args, 0)
}

/// The text a recognized call is lowered to.  `ceil` becomes negated
/// `floor`; `sat` and `vsat` clamp the absolute value, to one and to 127;
/// `nl(x, d)` becomes its defining formula `(2^(d*x)-1)/(2^d-1)` with `d`
/// defaulting to -2; and `round(x, d)` scales by `10^d` around the builtin
/// one-argument `round`.  Anything else is reassembled unchanged.
pub open spec fn emit_call(name: Seq<char>, args: Seq<Seq<char>>) -> Seq<char> {
    if name == "ceil"@ && args.len() == 1 {
        "(0-floor(0-("@ + args[0] + ")))"@
    } else if name == "sat"@ && args.len() == 1 {
        "(min(abs(("@ + args[0] + ")),1))"@
    } else if name == "vsat"@ && args.len() == 1 {
        "(min(abs(("@ + args[0] + ")),127))"@
    } else if name == "nl"@ && args.len() == 1 {
        "((2^((-2)*("@ + args[0] + "))-1)/(2^(-2)-1))"@
    } else if name == "nl"@ && args.len() == 2 {
        "((2^(("@ + args[1] + ")*("@ + args[0] + "))-1)/(2^("@ + args[1] + ")-1))"@
    } else if name == "round"@ && args.len() == 2 {
        "(round(("@ + args[0] + ")*(10^("@ + args[1] + ")))/(10^("@ + args[1] + ")))"@
    } else {
        name + seq!['('] + join_args(args) + seq![')']
    }
}

/// The rewritten text of `s` from position `i` on.  An identifier followed
/// by a parenthesized argument list (whitespace allowed before the open
/// parenthesis, as the expression tokenizer skips it) is lowered through
/// `emit_call` with each argument rewritten recursively; an unmatched open
/// parenthesis leaves the rest verbatim; all other text passes through.
pub open spec fn rw_from(s: Seq<char>, i: int) -> Seq<char>
    decreases s.len() - i, 0int,
{
    if i < 0 || i >= s.len() {
        Seq::empty()
    } else if is_ident_start(s[i]) && i < ident_run_end(s, i) && ident_run_end(s, i) <= s.len() {
        let j = ident_run_end(s, i);
        let k = nonspace_from(s, j, s.len() as int);
        if j <= k && k < s.len() && s[k] == '(' {
            match find_close(s, k + 1, 1) {
                Option::None => s.subrange(i, s.len() as int),
                Option::Some(c) => if k < c && c < s.len() {
                    emit_call(s.subrange(i, j), rw_args(s, k + 1, c)) + rw_from(s, c + 1)
                } else {
                    s.subrange(i, s.len() as int)
                },
            }
        } else {
            s.subrange(i, j) + rw_from(s, j)
        }
    } else {
        seq![s[i]] + rw_from(s, i + 1)
    }
}

/// The rewritten arguments of the region `[p, e)`: split at depth-zero
/// commas, each piece rewritten from its start.
pub open spec fn rw_args(s: Seq<char>, p: int, e: int) -> Seq<Seq<char>>
    decreases e - p, 1int,
{
    if p < 0 || e < p || s.len() < e {
        Seq::empty()
    } else {
        let k = arg_cut(s, p, e, 0);
        if k >= e || k < p {
            seq![rw_from(s.subrange(p, e), 0)]
        } else {
            seq![rw_from(s.subrange(p, k), 0)] + rw_args(s, k + 1, e)
        }
    }
}

/// The whole rewritten expression.
pub open spec fn rewrite_spec(s: Seq<char>) -> Seq<char> {
    rw_from(s, 0)
}

fn ident_end_x(s: &str, n: usize, i: usize) -> (r: usize)
    requires
        n == s@.len(),
        i <= n,
    ensures
        r == ident_run_end(s@, i as int),
        i <= r <= n,
{
    let mut j = i;
    while j < n && ident_char(s.get_char(j))
        invariant
            i <= j <= n,
            n == s@.len(),
            ident_run_end(s@, i as int) == ident_run_end(s@, j as int),
        decreases n - j,
    {
        j += 1;
    }
    j
}

fn nonspace_x(s: &str, n: usize, i: usize) -> (r: usize)
    requires
        n == s@.len(),
        i <= n,
    ensures
        r == nonspace_from(s@, i as int, n as int),
        i <= r <= n,
{
    let mut j = i;
    while j < n && space(s.get_char(j))
        invariant
            i <= j <= n,
            n == s@.len(),
            nonspace_from(s@, i as int, n as int) == nonspace_from(s@, j as int, n as int),
        decreases n - j,
    {
        j += 1;
    }
    j
}

fn find_close_x(s: &str, n: usize, start: usize) -> (r: Option<usize>)
    requires
        n == s@.len(),
        1 <= start <= n,
    ensures
        match r {
            Option::None => find_close(s@, start as int, 1) is None,
            Option::Some(c) => find_close(s@, start as int, 1) == Option::Some(c as int) && start
                <= c < n,
        },
{
    let mut i = start;
    let mut depth: usize = 1;
    while i < n
        invariant
            1 <= start <= i <= n,
            n == s@.len(),
            1 <= depth <= 1 + i - start,
            find_close(s@, start as int, 1) == find_close(s@, i as int, depth as int),
        decreases n - i,
    {
        let c = s.get_char(i);
        if c == ')' && depth <= 1 {
            return Some(i);
        } else if c == ')' {
            depth -= 1;
        } else if c == '(' {
            depth += 1;
        }
        i += 1;
    }
    None
}

fn arg_cut_x(s: &str, n: usize, p: usize, e: usize) -> (r: usize)
    requires
        n == s@.len(),
        p <= e <= n,
    ensures
        r == arg_cut(s@, p as int, e as int, 0),
        p <= r <= e,
{
    let mut i = p;
    let mut depth: usize = 0;
    while i < e
        invariant
            p <= i <= e <= n,
            n == s@.len(),
            arg_cut(s@, p as int, e as int, 0) == arg_cut(s@, i as int, e as int, depth as int),
            depth <= i - p,
        decreases e - i,
    {
        let c = s.get_char(i);
        if depth == 0 && c == ',' {
            return i;
        } else if c == '(' {
            depth += 1;
        } else if c == ')' {
            if depth > 0 {
                depth -= 1;
            }
        }
        i += 1;
    }
    proof {
        lemma_arg_cut_bounds(s@, p as int, e as int, 0);
    }
    e
}

/// Emits the lowered text of one recognized call.
fn emit_call_x(name: &str, args: &Vec<String>) -> (r: String)
    ensures
        r@ == emit_call(name@, args@.map_values(|a: String| a@)),
{
    proof {
        reveal_strlit("ceil");
        reveal_strlit("sat");
        reveal_strlit("vsat");
        reveal_strlit("nl");
        reveal_strlit("round");
        assert("ceil"@.len() == 4);
        assert("sat"@.len() == 3);
        assert("vsat"@.len() == 4);
        assert("nl"@.len() == 2);
        assert("round"@.len() == 5);
        assert("ceil"@[0] == 'c' && "sat"@[0] == 's' && "vsat"@[0] == 'v' && "round"@[0] == 'r');
        assert("sat"@ != "vsat"@ && "ceil"@ != "round"@ && "ceil"@ != "vsat"@);
    }
    let ghost av = args@.map_values(|a: String| a@);
    let mut out = String::new();
    if str_eq(name, "ceil") && args.len() == 1 {
        out.append("(0-floor(0-(");
        out.append(args[0].as_str());
        out.append(")))");
        assert(out@ =~= emit_call(name@, av));
        return out;
    }
    if str_eq(name, "sat") && args.len() == 1 {
        out.append("(min(abs((");
        out.append(args[0].as_str());
        out.append(")),1))");
        assert(out@ =~= emit_call(name@, av));
        return out;
    }
    if str_eq(name, "vsat") && args.len() == 1 {
        out.append("(min(abs((");
        out.append(args[0].as_str());
        out.append(")),127))");
        assert(out@ =~= emit_call(name@, av));
        return out;
    }
    if str_eq(name, "nl") && args.len() == 1 {
        out.append("((2^((-2)*(");
        out.append(args[0].as_str());
        out.append("))-1)/(2^(-2)-1))");
        assert(out@ =~= emit_call(name@, av));
        return out;
    }
    if str_eq(name, "nl") && args.len() == 2 {
        out.append("((2^((");
        out.append(args[1].as_str());
        out.append(")*(");
        out.append(args[0].as_str());
        out.append("))-1)/(2^(");
        out.append(args[1].as_str());
        out.append(")-1))");
        assert(out@ =~= emit_call(name@, av));
        return out;
    }
    if str_eq(name, "round") && args.len() == 2 {
        out.append("(round((");
        out.append(args[0].as_str());
        out.append(")*(10^(");
        out.append(args[1].as_str());
        out.append(")))/(10^(");
        out.append(args[1].as_str());
        out.append(")))");
        assert(out@ =~= emit_call(name@, av));
        return out;
    }
    // Unrecognized name or arity: reassemble the call unchanged.
    out.append(name);
    out.append("(");
    proof {
        reveal_strlit("(");
        reveal_strlit(")");
        reveal_strlit(",");
    }
    let mut t: usize = 0;
    while t < args.len()
        invariant
            t <= args@.len(),
            av == args@.map_values(|a: String| a@),
            "("@ =~= seq!['('],
            ")"@ =~= seq![')'],
            ","@ =~= seq![','],
            name@ + seq!['('] + join_args(av) =~= out@ + join_from(av, t as int),
        decreases args@.len() - t,
    {
        if t > 0 {
            out.append(",");
        }
        out.append(args[t].as_str());
        t += 1;
    }
    out.append(")");
    proof {
        assert(out@ =~= emit_call(name@, av));
    }
    out
}

/// Rewrites `s` from position `i` on, mirroring `rw_from`.
fn rw_from_x(s: &str, n: usize, i: usize) -> (r: String)
    requires
        n == s@.len(),
        i <= n,
    ensures
        r@ == rw_from(s@, i as int),
    decreases n - i, 0int,
{
    if i >= n {
        return String::new();
    }
    let c0 = s.get_char(i);
    if ident_start(c0) {
        let j = ident_end_x(s, n, i);
        proof {
            assert(is_ident_char(s@[i as int]));
            assert(ident_run_end(s@, i as int) == ident_run_end(s@, i as int + 1));
            lemma_ident_run_bounds(s@, i as int + 1);
        }
        let k = nonspace_x(s, n, j);
        if k < n && s.get_char(k) == '(' {
            match find_close_x(s, n, k + 1) {
                Option::None => {
                    return s.substring_char(i, n).to_owned();
                },
                Option::Some(c) => {
                    let args = rw_args_x(s, n, k + 1, c);
                    let name = s.substring_char(i, j);
                    let mut out = emit_call_x(name, &args);
                    let rest = rw_from_x(s, n, c + 1);
                    out.append(rest.as_str());
                    return out;
                },
            }
        } else {
            let mut out = s.substring_char(i, j).to_owned();
            let rest = rw_from_x(s, n, j);
            out.append(rest.as_str());
            return out;
        }
    }
    let mut out = String::new();
    push_char_from(&mut out, s, i);
    let rest = rw_from_x(s, n, i + 1);
    out.append(rest.as_str());
    out
}

/// Rewrites the arguments of the region `[p, e)`, mirroring `rw_args`.
fn rw_args_x(s: &str, n: usize, p: usize, e: usize) -> (r: Vec<String>)
    requires
        n == s@.len(),
        1 <= p <= e <= n,
    ensures
        r@.map_values(|a: String| a@) == rw_args(s@, p as int, e as int),
    decreases e - p, 1int,
{
    let k = arg_cut_x(s, n, p, e);
    if k >= e {
        let piece = s.substring_char(p, e);
        let rw = rw_from_x(piece, e - p, 0);
        let mut out: Vec<String> = Vec::new();
        out.push(rw);
        assert(out@.map_values(|a: String| a@) =~= rw_args(s@, p as int, e as int));
        out
    } else {
        let piece = s.substring_char(p, k);
        let rw = rw_from_x(piece, k - p, 0);
        let mut rest = rw_args_x(s, n, k + 1, e);
        rest.insert(0, rw);
        assert(rest@.map_values(|a: String| a@) =~= rw_args(s@, p as int, e as int));
        rest
    }
}

/// Rewrites one embedded expression, lowering the custom function set to
/// builtin arithmetic.
pub fn rewrite_expr(s: &str) -> (r: String)
    ensures
        r@ == rewrite_spec(s@),
{
    let n = s.unicode_len();
    rw_from_x(s, n, 0)
}

// ---------------------------------------------------------------------------
// Rendering a result in scientific notation as plain decimal text.
// ---------------------------------------------------------------------------

/// End of the digit run that starts at `i`.
pub open spec fn digit_run_end(s: Seq<char>, i: int) -> int
    decreases s.len() - i,
{
    if i < 0 || i >= s.len() {
        i
    } else if is_digit(s[i]) {
        digit_run_end(s, i + 1)
    } else {
        i
    }
}

proof fn lemma_digit_run_bounds(s: Seq<char>, x: int)
    requires
        0 <= x,
    ensures
        x <= digit_run_end(s, x),
        x <= s.len() ==> digit_run_end(s, x) <= s.len(),
    decreases s.len() - x,
{
    if x < s.len() && is_digit(s[x]) {
        lemma_digit_run_bounds(s, x + 1);
    }
}

proof fn lemma_digit_run_all(s: Seq<char>, x: int)
    requires
        0 <= x,
    ensures
        forall|m: int| x <= m < digit_run_end(s, x) ==> is_digit(#[trigger] s[m]),
    decreases s.len() - x,
{
    if x < s.len() && is_digit(s[x]) {
        lemma_digit_run_all(s, x + 1);
        lemma_digit_run_bounds(s, x + 1);
    }
}

/// Numeric value of a run of decimal digits.
pub open spec fn dec_val(ds: Seq<char>) -> int
    decreases ds.len(),
{
    if ds.len() == 0 {
        0
    } else {
        dec_val(ds.drop_last()) * 10 + (ds.last() as u32 - 48)
    }
}

/// `k` zero characters.
pub open spec fn zeros(k: int) -> Seq<char>
    decreases k,
{
    if k <= 0 {
        Seq::empty()
    } else {
        zeros(k - 1) + seq!['0']
    }
}

/// Drops trailing zero characters.
pub open spec fn trim_zeros(x: Seq<char>) -> Seq<char>
    decreases x.len(),
{
    if x.len() > 0 && x.last() == '0' {
        trim_zeros(x.drop_last())
    } else {
        x
    }
}

/// Plain decimal text for the digit string `digits` with the decimal point
/// after position `point` (possibly outside the digits), negated when `neg`:
/// trailing fractional zeros and a bare point are dropped, and a zero value
/// loses its sign.
pub open spec fn format_digits(digits: Seq<char>, point: int, neg: bool) -> Seq<char> {
    let t = if point <= 0 {
        let fz = trim_zeros(zeros(0 - point) + digits);
        if fz.len() == 0 {
            seq!['0']
        } else {
            seq!['0', '.'] + fz
        }
    } else if point < digits.len() {
        let fz = trim_zeros(digits.skip(point));
        if fz.len() == 0 {
            digits.take(point)
        } else {
            digits.take(point) + seq!['.'] + fz
        }
    } else {
        digits + zeros(point - digits.len())
    };
    if neg && t != seq!['0'] {
        seq!['-'] + t
    } else {
        t
    }
}

/// Whether `s` has the shape the evaluator's scientific rendering produces:
/// an optional minus, digits, an optional fraction, `e`, and an optionally
/// negated exponent of at most five digits, the whole at most a hundred
/// thousand characters.
pub open spec fn sci_valid(s: Seq<char>) -> bool {
    let neg = s.len() > 0 && s[0] == '-';
    let i0: int = if neg {
        1
    } else {
        0
    };
    let d1 = digit_run_end(s, i0);
    let dot = d1 < s.len() && s[d1] == '.';
    let f1 = if dot {
        digit_run_end(s, d1 + 1)
    } else {
        d1
    };
    &&& s.len() <= 100000
    &&& d1 > i0
    &&& (dot ==> f1 > d1 + 1)
    &&& f1 < s.len() && s[f1] == 'e'
    &&& ({
        let x0 = f1 + 1;
        let x1 = if x0 < s.len() && s[x0] == '-' {
            x0 + 1
        } else {
            x0
        };
        let xe = digit_run_end(s, x1);
        xe == s.len() && xe > x1 && xe - x1 <= 5
    })
}

/// The decimal text of a value rendered in scientific notation; text of any
/// other shape passes through unchanged.
pub open spec fn sci_to_dec(s: Seq<char>) -> Seq<char> {
    if !sci_valid(s) {
        s
    } else {
        let neg = s[0] == '-';
        let i0: int = if neg {
            1
        } else {
            0
        };
        let d1 = digit_run_end(s, i0);
        let dot = d1 < s.len() && s[d1] == '.';
        let f0 = if dot {
            d1 + 1
        } else {
            d1
        };
        let f1 = if dot {
            digit_run_end(s, d1 + 1)
        } else {
            d1
        };
        let x0 = f1 + 1;
        let nege = s[x0] == '-';
        let x1 = if nege {
            x0 + 1
        } else {
            x0
        };
        let digits = s.subrange(i0, d1) + s.subrange(f0, f1);
        let point = d1 - i0 + (if nege {
            -dec_val(s.subrange(x1, s.len() as int))
        } else {
            dec_val(s.subrange(x1, s.len() as int))
        });
        format_digits(digits, point, neg)
    }
}

proof fn lemma_trim_zeros_app(a: Seq<char>, b: Seq<char>)
    ensures
        trim_zeros(b).len() > 0 ==> trim_zeros(a + b) == a + trim_zeros(b),
        trim_zeros(b).len() == 0 ==> trim_zeros(a + b) == trim_zeros(a),
    decreases b.len(),
{
    if b.len() == 0 {
        assert(a + b =~= a);
    } else if b.last() == '0' {
        assert((a + b).drop_last() =~= a + b.drop_last());
        lemma_trim_zeros_app(a, b.drop_last());
    } else {
        assert((a + b).last() == b.last());
        assert(trim_zeros(a + b) == a + b);
        assert(trim_zeros(b) == b);
    }
}

proof fn lemma_trim_zeros_all(k: int)
    ensures
        trim_zeros(zeros(k)).len() == 0,
    decreases k,
{
    if k > 0 {
        assert(zeros(k).last() == '0');
        assert(zeros(k).drop_last() =~= zeros(k - 1));
        lemma_trim_zeros_all(k - 1);
    }
}

/// Appends `k` zero characters.
fn push_zeros(out: &mut String, k: usize)
    ensures
        final(out)@ == old(out)@ + zeros(k as int),
{
    proof {
        reveal_strlit("0");
    }
    let mut t: usize = 0;
    while t < k
        invariant
            t <= k,
            "0"@ =~= seq!['0'],
            out@ =~= old(out)@ + zeros(t as int),
        decreases k - t,
    {
        out.append("0");
        t += 1;
    }
}

fn digit_end_x(s: &str, n: usize, i: usize) -> (r: usize)
    requires
        n == s@.len(),
        i <= n,
    ensures
        r == digit_run_end(s@, i as int),
        i <= r <= n,
{
    let mut j = i;
    while j < n && digit(s.get_char(j))
        invariant
            i <= j <= n,
            n == s@.len(),
            digit_run_end(s@, i as int) == digit_run_end(s@, j as int),
        decreases n - j,
    {
        j += 1;
    }
    j
}

/// Renders scientific-notation text as plain decimal; anything else is
/// returned unchanged.
#[verifier::rlimit(100)]
pub fn sci_to_dec_x(s: &str) -> (r: String)
    ensures
        r@ == sci_to_dec(s@),
{
    let n = s.unicode_len();
    if n > 100000 || n == 0 {
        return s.to_owned();
    }
    let neg = s.get_char(0) == '-';
    let i0: usize = if neg {
        1
    } else {
        0
    };
    let d1 = digit_end_x(s, n, i0);
    if d1 <= i0 {
        return s.to_owned();
    }
    let dot = d1 < n && s.get_char(d1) == '.';
    let f0 = if dot {
        d1 + 1
    } else {
        d1
    };
    let f1 = if dot {
        digit_end_x(s, n, d1 + 1)
    } else {
        d1
    };
    if dot && f1 <= d1 + 1 {
        return s.to_owned();
    }
    if f1 >= n || s.get_char(f1) != 'e' {
        return s.to_owned();
    }
    let x0 = f1 + 1;
    let nege = x0 < n && s.get_char(x0) == '-';
    let x1 = if nege {
        x0 + 1
    } else {
        x0
    };
    let xe = digit_end_x(s, n, x1);
    if !(xe == n && xe > x1 && xe - x1 <= 5) {
        return s.to_owned();
    }
    assert(sci_valid(s@));
    proof {
        lemma_digit_run_all(s@, x1 as int);
    }
    // The exponent value.
    let mut expval: usize = 0;
    let mut t = x1;
    while t < n
        invariant
            x1 <= t <= n,
            n == s@.len(),
            n - x1 <= 5,
            forall|m: int| x1 <= m < n ==> is_digit(s@[m]),
            expval == dec_val(s@.subrange(x1 as int, t as int)),
            expval <= 99999,
        decreases n - t,
    {
        proof {
            assert(s@.subrange(x1 as int, t as int + 1).drop_last() =~= s@.subrange(
                x1 as int,
                t as int,
            ));
            lemma_dec_val_bound(s@.subrange(x1 as int, t as int));
        }
        let c = s.get_char(t);
        expval = expval * 10 + ((c as u32 - 48) as usize);
        t += 1;
    }
    // The digit string.
    let mut digits = s.substring_char(i0, d1).to_owned();
    digits.append(s.substring_char(f0, f1));
    let ghost dg = s@.subrange(i0 as int, d1 as int) + s@.subrange(f0 as int, f1 as int);
    assert(digits@ == dg);
    let int1 = d1 - i0;
    let below = nege && expval >= int1;
    let pad = if below {
        expval - int1
    } else {
        0
    };
    let point_us: usize = if below {
        0
    } else if nege {
        int1 - expval
    } else {
        int1 + expval
    };
    let out = format_digits_x(&digits, neg, below, pad, point_us);
    proof {
        let point = if below {
            -(pad as int)
        } else {
            point_us as int
        };
        assert(point == d1 - i0 + (if nege {
            -dec_val(s@.subrange(x1 as int, s@.len() as int))
        } else {
            dec_val(s@.subrange(x1 as int, s@.len() as int))
        }));
        assert(out@ == sci_to_dec(s@));
    }
    out
}

/// Renders a digit string with its decimal point position as plain decimal
/// text.  When `below` holds, the point sits `pad` places left of the
/// digits; otherwise it sits after `point_us` digits.
fn format_digits_x(digits: &String, neg: bool, below: bool, pad: usize, point_us: usize) -> (r:
    String)
    requires
        digits@.len() >= 1,
        below ==> point_us == 0,
        !below ==> point_us >= 1,
    ensures
        r@ == format_digits(
            digits@,
            if below {
                -(pad as int)
            } else {
                point_us as int
            },
            neg,
        ),
{
    let ghost point: int = if below {
        -(pad as int)
    } else {
        point_us as int
    };
    let dlen = digits.as_str().unicode_len();
    let mut out = String::new();
    proof {
        reveal_strlit("0");
        reveal_strlit(".");
        reveal_strlit("-");
        assert("0"@ =~= seq!['0']);
        assert("."@ =~= seq!['.']);
        assert("-"@ =~= seq!['-']);
    }
    if below {
        // The value is below one: a zero, a point, padding zeros, digits.
        proof {
            assert(digits@.take(dlen as int) =~= digits@);
        }
        let mut m = dlen;
        while m > 0 && digits.as_str().get_char(m - 1) == '0'
            invariant
                m <= dlen,
                dlen == digits@.len(),
                trim_zeros(digits@) == trim_zeros(digits@.take(m as int)),
            decreases m,
        {
            proof {
                assert(digits@.take(m as int).drop_last() =~= digits@.take(m as int - 1));
            }
            m -= 1;
        }
        assert(trim_zeros(digits@.take(m as int)) == digits@.take(m as int));
        proof {
            lemma_trim_zeros_app(zeros(pad as int), digits@);
            lemma_trim_zeros_all(pad as int);
            if m == 0 {
                assert(digits@.take(0) =~= Seq::<char>::empty());
            }
        }
        if m == 0 {
            out.append("0");
            assert(out@ =~= format_digits(digits@, point, neg));
            return out;
        }
        if neg {
            out.append("-");
        }
        out.append("0.");
        push_zeros(&mut out, pad);
        out.append(digits.as_str().substring_char(0, m));
        proof {
            reveal_strlit("0.");
            assert("0."@ =~= seq!['0', '.']);
            assert(trim_zeros(zeros(pad as int) + digits@) =~= zeros(pad as int) + digits@.take(
                m as int,
            ));
            assert(out@ =~= format_digits(digits@, point, neg));
        }
        return out;
    }
    if point_us < dlen {
        // Point inside the digits: integer part, point, trimmed fraction.
        proof {
            assert(digits@.skip(point_us as int) =~= digits@.subrange(
                point_us as int,
                dlen as int,
            ));
        }
        let mut m = dlen;
        while m > point_us && digits.as_str().get_char(m - 1) == '0'
            invariant
                point_us <= m <= dlen,
                dlen == digits@.len(),
                trim_zeros(digits@.skip(point_us as int)) == trim_zeros(
                    digits@.subrange(point_us as int, m as int),
                ),
            decreases m,
        {
            proof {
                assert(digits@.subrange(point_us as int, m as int).drop_last() =~= digits@
                    .subrange(point_us as int, m as int - 1));
            }
            m -= 1;
        }
        if m == point_us {
            proof {
                assert(digits@.subrange(point_us as int, point_us as int) =~= Seq::<
                    char,
                >::empty());
            }
            let ghost t0 = digits@.take(point_us as int);
            // The integer part is the whole result; it is the zero shape
            // exactly when it is the single digit zero.
            let is_zero = point_us == 1 && digits.as_str().get_char(0) == '0';
            proof {
                if is_zero {
                    assert(t0 =~= seq!['0']);
                } else if t0.len() == 1 {
                    assert(t0[0] == digits@[0]);
                    assert(t0 != seq!['0']);
                } else {
                    assert(t0 != seq!['0']);
                }
            }
            if neg && !is_zero {
                out.append("-");
            }
            out.append(digits.as_str().substring_char(0, point_us));
            assert(out@ =~= format_digits(digits@, point, neg));
            return out;
        }
        assert(trim_zeros(digits@.subrange(point_us as int, m as int)) == digits@.subrange(
            point_us as int,
            m as int,
        ));
        if neg {
            out.append("-");
        }
        out.append(digits.as_str().substring_char(0, point_us));
        out.append(".");
        out.append(digits.as_str().substring_char(point_us, m));
        proof {
            assert(trim_zeros(digits@.skip(point_us as int)).len() > 0);
            assert(out@ =~= format_digits(digits@, point, neg));
        }
        return out;
    }
    // Point at or past the end of the digits: an integer with padding zeros.
    let ghost t = digits@ + zeros(point - dlen as int);
    let is_zero = point_us == 1 && digits.as_str().get_char(0) == '0';
    proof {
        lemma_zeros_len(point - dlen as int);
        if is_zero {
            assert(dlen == 1);
            assert(t =~= seq!['0']);
        } else if t.len() == 1 {
            assert(t[0] == digits@[0]);
            assert(t != seq!['0']);
        } else {
            assert(t != seq!['0']);
        }
    }
    if neg && !is_zero {
        out.append("-");
    }
    out.append(digits.as_str());
    push_zeros(&mut out, point_us - dlen);
    assert(out@ =~= format_digits(digits@, point, neg));
    out
}

proof fn lemma_zeros_len(k: int)
    ensures
        zeros(k).len() == if k <= 0 {
            0
        } else {
            k
        },
    decreases k,
{
    if k > 0 {
        lemma_zeros_len(k - 1);
    }
}

proof fn lemma_dec_val_bound(ds: Seq<char>)
    requires
        ds.len() <= 4,
        forall|m: int| 0 <= m < ds.len() ==> is_digit(#[trigger] ds[m]),
    ensures
        0 <= dec_val(ds) < 10000,
{
    lemma_dec_val_bound_n(ds);
    assert(pow10(ds.len() as int) <= 10000) by {
        reveal_with_fuel(pow10, 6);
    }
}

proof fn lemma_dec_val_bound_n(ds: Seq<char>)
    requires
        forall|m: int| 0 <= m < ds.len() ==> is_digit(#[trigger] ds[m]),
    ensures
        0 <= dec_val(ds) < pow10(ds.len() as int),
    decreases ds.len(),
{
    if ds.len() > 0 {
        assert(forall|m: int|
            0 <= m < ds.drop_last().len() ==> is_digit(#[trigger] ds.drop_last()[m]));
        lemma_dec_val_bound_n(ds.drop_last());
        assert(is_digit(ds.last()));
    }
}

/// Powers of ten, for digit-count bounds.
pub open spec fn pow10(k: int) -> int
    decreases k,
{
    if k <= 0 {
        1
    } else {
        10 * pow10(k - 1)
    }
}

// ---------------------------------------------------------------------------
// Evaluation through the expression engine.
// ---------------------------------------------------------------------------

/// View of a variable list as name/value text pairs.
pub open spec fn pairs_view(v: Seq<(String, String)>) -> Seq<(Seq<char>, Seq<char>)> {
    v.map_values(|p: (String, String)| (p.0@, p.1@))
}

/// What evaluating the (already lowered) expression text yields under the
/// given variable bindings: the result rendered in scientific notation with
/// three fractional digits, or nothing when parsing or evaluation fails.
/// The engine is deterministic, so this is a function of the text and the
/// bindings alone.
pub uninterp spec fn eval_of(expr: Seq<char>, vars: Seq<(Seq<char>, Seq<char>)>) -> Option<
    Seq<char>,
>;

/// Relies on mexprp (Context::new, Context::set_var, Expression::parse_ctx,
/// Expression::eval): parses and evaluates the expression over the builtin
/// functions and the numeric variable bindings, picking the first value of a
/// many-valued answer.  Bindings whose value does not parse as a number are
/// not set.  Duration::ZERO.as_secs_f64() supplies the zero constant that
/// pins the context's numeric type; it is bound to a name no expression
/// token can reference.  The result is rendered by the format macro in
/// scientific notation with three fractional digits.
#[verifier::external_body]
fn eval_expression(expr: &str, vars: &Vec<(String, String)>) -> (r: Option<String>)
    ensures
        r is Some <==> eval_of(expr@, pairs_view(vars@)) is Some,
        r matches Some(v) ==> Option::Some(v@) == eval_of(expr@, pairs_view(vars@)),
{
    let mut ctx = mexprp::Context::new();
    ctx.set_var("0", std::time::Duration::ZERO.as_secs_f64());
    for (name, val) in vars.iter() {
        let mut num = std::time::Duration::ZERO.as_secs_f64();
        if let Ok(parsed) = val.parse() {
            num = parsed;
            ctx.set_var(name.as_str(), num);
        }
    }
    let answer = mexprp::Expression::parse_ctx(expr, ctx).ok()?.eval().ok()?;
    let value = match answer { mexprp::Answer::Single(v) => v, mexprp::Answer::Multiple(vs) => *vs.first()? };
    Some(format!("{:.3e}", value))
}

// ---------------------------------------------------------------------------
// Template substitution over a whole cell.
// ---------------------------------------------------------------------------

/// First closing brace at or past `i`, or the length if none.
pub open spec fn brace_end(s: Seq<char>, i: int) -> int
    decreases s.len() - i,
{
    if i < 0 || i >= s.len() {
        s.len() as int
    } else if s[i] == '}' {
        i
    } else {
        brace_end(s, i + 1)
    }
}

/// The text one template's inner expression contributes: the evaluated and
/// decimal-rendered result, or the empty string when evaluation fails.
pub open spec fn template_value(inner: Seq<char>, vars: Seq<(Seq<char>, Seq<char>)>) -> Seq<
    char,
> {
    match eval_of(rewrite_spec(inner), vars) {
        Option::None => Seq::empty(),
        Option::Some(sci) => sci_to_dec(sci),
    }
}

/// The cell text from position `i` on with every `${...}` template (a
/// dollar, an open brace, one or more non-brace characters, a close brace)
/// replaced by its evaluated value.
pub open spec fn subst_from(s: Seq<char>, i: int, vars: Seq<(Seq<char>, Seq<char>)>) -> Seq<
    char,
>
    decreases s.len() - i,
{
    if i < 0 || i >= s.len() {
        Seq::empty()
    } else if s[i] == '$' && i + 1 < s.len() && s[i + 1] == '{' && i + 2 < brace_end(s, i + 2)
        && brace_end(s, i + 2) < s.len() {
        let q = brace_end(s, i + 2);
        template_value(s.subrange(i + 2, q), vars) + subst_from(s, q + 1, vars)
    } else {
        seq![s[i]] + subst_from(s, i + 1, vars)
    }
}

/// What applying the evaluator to a cell yields: with no variable context
/// the cell is untouched; with one, every template is substituted.
pub open spec fn apply_expr_spec(s: Seq<char>, vars: Option<Seq<(Seq<char>, Seq<char>)>>) -> Seq<
    char,
> {
    match vars {
        Option::None => s,
        Option::Some(vs) => subst_from(s, 0, vs),
    }
}

fn brace_x(s: &str, n: usize, i: usize) -> (r: usize)
    requires
        n == s@.len(),
        i <= n,
    ensures
        r == brace_end(s@, i as int),
        i <= r <= n,
{
    let mut j = i;
    while j < n && s.get_char(j) != '}'
        invariant
            i <= j <= n,
            n == s@.len(),
            brace_end(s@, i as int) == brace_end(s@, j as int),
        decreases n - j,
    {
        j += 1;
    }
    j
}

/// Substitutes every `${...}` arithmetic template in the cell, evaluating
/// against the variable context; a failing template becomes the empty
/// string, and with no context the cell stays untouched.
pub fn apply_expr(cell: &mut String, vars: Option<&Vec<(String, String)>>)
    ensures
        final(cell)@ == apply_expr_spec(
            old(cell)@,
            match vars {
                Option::None => Option::None,
                Option::Some(v) => Option::Some(pairs_view(v@)),
            },
        ),
{
    let v = match vars {
        Option::None => {
            return ;
        },
        Option::Some(v) => v,
    };
    let ghost vsv = pairs_view(v@);
    let ghost s = cell@;
    let n = cell.as_str().unicode_len();
    let mut out = String::new();
    let mut i: usize = 0;
    while i < n
        invariant
            i <= n,
            n == s.len(),
            s == cell@,
            vsv == pairs_view(v@),
            subst_from(s, 0, vsv) == out@ + subst_from(s, i as int, vsv),
        decreases n - i,
    {
        let c = cell.as_str().get_char(i);
        let mut plain = true;
        if c == '$' && i + 1 < n && cell.as_str().get_char(i + 1) == '{' {
            let q = brace_x(cell.as_str(), n, i + 2);
            if i + 2 < q && q < n {
                plain = false;
                let inner = cell.as_str().substring_char(i + 2, q);
                let lowered = rewrite_expr(inner);
                match eval_expression(lowered.as_str(), v) {
                    Option::None => {
                        assert(template_value(s.subrange(i as int + 2, q as int), vsv) =~= Seq::<
                            char,
                        >::empty());
                    },
                    Option::Some(sci) => {
                        let dec = sci_to_dec_x(sci.as_str());
                        out.append(dec.as_str());
                    },
                }
                i = q + 1;
            }
        }
        if plain {
            push_char_from(&mut out, cell.as_str(), i);
            i += 1;
        }
        proof {
            assert(subst_from(s, 0, vsv) == out@ + subst_from(s, i as int, vsv));
        }
    }
    assert(subst_from(s, n as int, vsv) =~= Seq::<char>::empty());
    assert(out@ =~= subst_from(s, 0, vsv));
    *cell = out;
}

} // verus!
