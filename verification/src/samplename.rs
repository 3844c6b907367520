//! Sample-name tokenization: a file's base name is split on underscores and
//! each token of the shape letters-then-number becomes one variable binding.

use vstd::prelude::*;
use crate::text::{is_letter, is_digit, letter, digit};

verus! {

/// End of the letter run that starts at `i`.
pub open spec fn letter_run_end(s: Seq<char>, i: int) -> int
    decreases s.len() - i,
{
    if i < 0 || i >= s.len() {
        i
    } else if is_letter(s[i]) {
        letter_run_end(s, i + 1)
    } else {
        i
    }
}

/// End of the digit run that starts at `i`.
pub open spec fn digits_end(s: Seq<char>, i: int) -> int
    decreases s.len() - i,
{
    if i < 0 || i >= s.len() {
        i
    } else if is_digit(s[i]) {
        digits_end(s, i + 1)
    } else {
        i
    }
}

/// What one underscore-separated token parses to: one or more letters
/// followed by an optionally-signed, optionally-decimal number filling the
/// rest of the token; the binding is the letters and the number text.
pub open spec fn opcode_spec(t: Seq<char>) -> Option<(Seq<char>, Seq<char>)> {
    let l = letter_run_end(t, 0);
    if l < 1 {
        Option::None
    } else {
        let i = if l < t.len() && t[l] == '-' {
            l + 1
        } else {
            l
        };
        let d = digits_end(t, i);
        if d <= i {
            Option::None
        } else if d == t.len() {
            Option::Some((t.subrange(0, l), t.subrange(l, t.len() as int)))
        } else if t[d] == '.' && digits_end(t, d + 1) == t.len() {
            Option::Some((t.subrange(0, l), t.subrange(l, t.len() as int)))
        } else {
            Option::None
        }
    }
}

/// First underscore at or past `i`, or the length.
pub open spec fn us_from(s: Seq<char>, i: int) -> int
    decreases s.len() - i,
{
    if i < 0 || i >= s.len() {
        s.len() as int
    } else if s[i] == '_' {
        i
    } else {
        us_from(s, i + 1)
    }
}

/// The bindings of the tokens from position `i` on, in token order;
/// non-conforming tokens contribute nothing.
pub open spec fn bindings_from(s: Seq<char>, i: int) -> Seq<(Seq<char>, Seq<char>)>
    decreases s.len() - i,
{
    if i < 0 || i > s.len() {
        Seq::empty()
    } else {
        let k = us_from(s, i);
        let kept = match opcode_spec(s.subrange(i, k)) {
            Option::None => Seq::<(Seq<char>, Seq<char>)>::empty(),
            Option::Some(b) => seq![b],
        };
        if k >= s.len() || k < i {
            kept
        } else {
            kept + bindings_from(s, k + 1)
        }
    }
}

/// The variable bindings a sample name carries.
pub open spec fn sample_name_spec(s: Seq<char>) -> Seq<(Seq<char>, Seq<char>)> {
    bindings_from(s, 0)
}

fn letter_end_x(s: &str, n: usize, i: usize) -> (r: usize)
    requires
        n == s@.len(),
        i <= n,
    ensures
        r == letter_run_end(s@, i as int),
        i <= r <= n,
{
    let mut j = i;
    while j < n && letter(s.get_char(j))
        invariant
            i <= j <= n,
            n == s@.len(),
            letter_run_end(s@, i as int) == letter_run_end(s@, j as int),
        decreases n - j,
    {
        j += 1;
    }
    j
}

fn digits_end_x(s: &str, n: usize, i: usize) -> (r: usize)
    requires
        n == s@.len(),
        i <= n,
    ensures
        r == digits_end(s@, i as int),
        i <= r <= n,
{
    let mut j = i;
    while j < n && digit(s.get_char(j))
        invariant
            i <= j <= n,
            n == s@.len(),
            digits_end(s@, i as int) == digits_end(s@, j as int),
        decreases n - j,
    {
        j += 1;
    }
    j
}

/// Parses one token into its variable binding, when it has the
/// letters-then-number shape.
pub fn parse_opcode(param: &str) -> (r: Option<(String, String)>)
    ensures
        r is Some <==> opcode_spec(param@) is Some,
        r matches Some(b) ==> Option::Some((b.0@, b.1@)) == opcode_spec(param@),
{
    let n = param.unicode_len();
    let l = letter_end_x(param, n, 0);
    if l < 1 {
        return None;
    }
    let i = if l < n && param.get_char(l) == '-' {
        l + 1
    } else {
        l
    };
    let d = digits_end_x(param, n, i);
    if d <= i {
        return None;
    }
    let ok = if d == n {
        true
    } else if param.get_char(d) == '.' {
        digits_end_x(param, n, d + 1) == n
    } else {
        false
    };
    if !ok {
        return None;
    }
    let key = param.substring_char(0, l).to_owned();
    let value = param.substring_char(l, n).to_owned();
    Some((key, value))
}

/// Splits a sample's base name on underscores and collects the variable
/// bindings of its conforming tokens, in order.
pub fn parse_sample_name(name: &str) -> (r: Vec<(String, String)>)
    ensures
        crate::expr::pairs_view(r@) == sample_name_spec(name@),
{
    let n = name.unicode_len();
    let mut out: Vec<(String, String)> = Vec::new();
    let mut i: usize = 0;
    let mut done = false;
    while !done
        invariant
            i <= n + 1,
            n == name@.len(),
            !done ==> i <= n,
            !done ==> sample_name_spec(name@) =~= crate::expr::pairs_view(out@)
                + bindings_from(name@, i as int),
            done ==> crate::expr::pairs_view(out@) =~= sample_name_spec(name@),
        decreases n + 1 - i, (if done { 0int } else { 1 }),
    {
        // Find the end of this token.
        let mut k = i;
        while k < n && name.get_char(k) != '_'
            invariant
                i <= k <= n,
                n == name@.len(),
                us_from(name@, i as int) == us_from(name@, k as int),
            decreases n - k,
        {
            k += 1;
        }
        assert(us_from(name@, k as int) == if k < n {
            k as int
        } else {
            n as int
        });
        let token = name.substring_char(i, k);
        match parse_opcode(token) {
            Option::None => {
                assert(opcode_spec(name@.subrange(i as int, k as int)) is None);
            },
            Option::Some(b) => {
                out.push(b);
                proof {
                    assert(crate::expr::pairs_view(out@) =~= crate::expr::pairs_view(
                        out@.drop_last(),
                    ).push((out@.last().0@, out@.last().1@)));
                }
            },
        }
        if k >= n {
            done = true;
        } else {
            i = k + 1;
        }
    }
    out
}

/// The value bound to a variable name, the last binding winning, as later
/// bindings overwrite earlier ones.
pub open spec fn binding_of(vars: Seq<(Seq<char>, Seq<char>)>, key: Seq<char>) -> Option<
    Seq<char>,
>
    decreases vars.len(),
{
    if vars.len() == 0 {
        Option::None
    } else if vars.last().0 == key {
        Option::Some(vars.last().1)
    } else {
        binding_of(vars.drop_last(), key)
    }
}

/// Looks a variable up in a binding list, the last binding winning.
pub fn var_value(vars: &Vec<(String, String)>, key: &str) -> (r: Option<String>)
    ensures
        r is Some <==> binding_of(crate::expr::pairs_view(vars@), key@) is Some,
        r matches Some(v) ==> Option::Some(v@) == binding_of(
            crate::expr::pairs_view(vars@),
            key@,
        ),
{
    let ghost pv = crate::expr::pairs_view(vars@);
    proof {
        assert(pv.take(vars@.len() as int) =~= pv);
    }
    let mut k: usize = vars.len();
    while k > 0
        invariant
            k <= vars@.len(),
            pv == crate::expr::pairs_view(vars@),
            binding_of(pv, key@) == binding_of(pv.take(k as int), key@),
        decreases k,
    {
        proof {
            assert(pv.take(k as int).last() == pv[k - 1]);
            assert(pv.take(k as int).drop_last() =~= pv.take(k as int - 1));
        }
        if crate::text::str_eq(vars[k - 1].0.as_str(), key) {
            return Some(vars[k - 1].1.clone());
        }
        k -= 1;
    }
    None
}

} // verus!
