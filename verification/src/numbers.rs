//! Recognition of numeric literals.
//!
//! A value is a number exactly when it matches the grammar that Rust
//! documents for parsing a double-precision value from text: an optional
//! sign, then `inf`, `infinity` or `nan` in any case, or a decimal number
//! with optional fraction and exponent.  The grammar is written out here as
//! [`is_f64_literal`] and decided by verified code; the document tree keeps
//! a number as its literal text.
use vstd::prelude::*;

use crate::text::first_idx;

verus! {

pub open spec fn is_digit(c: char) -> bool {
    48 <= c as u32 <= 57
}

/// The predicate "the character at `i` is not a decimal digit".
pub open spec fn non_digit_at(s: Seq<char>) -> spec_fn(int) -> bool {
    |i: int| !is_digit(s[i])
}

/// End of the run of decimal digits starting at `from`.
pub open spec fn digit_run_end(s: Seq<char>, from: int) -> int {
    first_idx(s.len() as int, non_digit_at(s), from)
}

/// `c` equals the lower-case ASCII letter `l`, ignoring case.
pub open spec fn eq_ignore_case(c: char, l: char) -> bool {
    c as u32 == l as u32 || c as u32 + 32 == l as u32
}

/// An exponent part filling `s[k..]`: `e` or `E`, an optional sign, then
/// one or more digits.
pub open spec fn is_exponent(s: Seq<char>, k: int) -> bool {
    &&& 0 <= k < s.len()
    &&& eq_ignore_case(s[k], 'e')
    &&& {
        let m = if k + 1 < s.len() && (s[k + 1] == '+' || s[k + 1] == '-') {
            k + 2
        } else {
            k + 1
        };
        let d = digit_run_end(s, m);
        m <= s.len() && d > m && d == s.len()
    }
}

/// A decimal number: `digits [. digits] [exponent]` or `. digits [exponent]`.
pub open spec fn is_decimal(s: Seq<char>) -> bool {
    let d1 = digit_run_end(s, 0);
    if d1 > 0 {
        ||| d1 == s.len()
        ||| (d1 < s.len() && s[d1] == '.' && {
            let d2 = digit_run_end(s, d1 + 1);
            d2 == s.len() || is_exponent(s, d2)
        })
        ||| is_exponent(s, d1)
    } else {
        s.len() >= 2 && s[0] == '.' && {
            let d2 = digit_run_end(s, 1);
            d2 > 1 && (d2 == s.len() || is_exponent(s, d2))
        }
    }
}

/// `inf`, ignoring case.
pub open spec fn is_inf(s: Seq<char>) -> bool {
    s.len() == 3 && eq_ignore_case(s[0], 'i') && eq_ignore_case(s[1], 'n') && eq_ignore_case(
        s[2],
        'f',
    )
}

/// `infinity`, ignoring case.
pub open spec fn is_infinity(s: Seq<char>) -> bool {
    s.len() == 8 && eq_ignore_case(s[0], 'i') && eq_ignore_case(s[1], 'n') && eq_ignore_case(
        s[2],
        'f',
    ) && eq_ignore_case(s[3], 'i') && eq_ignore_case(s[4], 'n') && eq_ignore_case(s[5], 'i')
        && eq_ignore_case(s[6], 't') && eq_ignore_case(s[7], 'y')
}

/// `nan`, ignoring case.
pub open spec fn is_nan(s: Seq<char>) -> bool {
    s.len() == 3 && eq_ignore_case(s[0], 'n') && eq_ignore_case(s[1], 'a') && eq_ignore_case(
        s[2],
        'n',
    )
}

/// The strings accepted by `f64`'s `FromStr` implementation, as its
/// documentation gives them: an optional sign, then `inf`, `infinity`,
/// `nan` (any case) or a decimal number.
pub open spec fn is_f64_literal(s: Seq<char>) -> bool {
    let b = if s.len() > 0 && (s[0] == '+' || s[0] == '-') {
        s.subrange(1, s.len() as int)
    } else {
        s
    };
    is_inf(b) || is_infinity(b) || is_nan(b) || is_decimal(b)
}

fn eq_ic(c: char, l: char) -> (r: bool)
    ensures
        r == eq_ignore_case(c, l),
{
    c as u32 == l as u32 || (c as u32) + 32 == l as u32
}

fn is_digit_x(c: char) -> (r: bool)
    ensures
        r == is_digit(c),
{
    let u = c as u32;
    48 <= u && u <= 57
}

fn is_sign(c: char) -> (r: bool)
    ensures
        r == (c == '+' || c == '-'),
{
    c == '+' || c == '-'
}

/// Scans the digit run starting at `from`.
fn digit_run_end_x(s: &str, n: usize, from: usize) -> (r: usize)
    requires
        n == s@.len(),
        from <= n,
    ensures
        r == digit_run_end(s@, from as int),
        from <= r <= n,
{
    let mut i = from;
    while i < n && is_digit_x(s.get_char(i))
        invariant
            from <= i <= n,
            n == s@.len(),
            digit_run_end(s@, from as int) == first_idx(n as int, non_digit_at(s@), i as int),
        decreases n - i,
    {
        assert(!non_digit_at(s@)(i as int));
        i = i + 1;
    }
    i
}

fn is_exponent_x(s: &str, n: usize, k: usize) -> (r: bool)
    requires
        n == s@.len(),
        k <= n,
    ensures
        r == is_exponent(s@, k as int),
{
    if k >= n {
        return false;
    }
    if !eq_ic(s.get_char(k), 'e') {
        return false;
    }
    let m = if k + 1 < n && is_sign(s.get_char(k + 1)) {
        k + 2
    } else {
        k + 1
    };
    let d = digit_run_end_x(s, n, m);
    d > m && d == n
}

fn is_decimal_x(s: &str, n: usize) -> (r: bool)
    requires
        n == s@.len(),
    ensures
        r == is_decimal(s@),
{
    let d1 = digit_run_end_x(s, n, 0);
    if d1 > 0 {
        if d1 == n {
            true
        } else if s.get_char(d1) == '.' {
            let d2 = digit_run_end_x(s, n, d1 + 1);
            d2 == n || is_exponent_x(s, n, d2)
        } else {
            is_exponent_x(s, n, d1)
        }
    } else {
        if n >= 2 && s.get_char(0) == '.' {
            let d2 = digit_run_end_x(s, n, 1);
            d2 > 1 && (d2 == n || is_exponent_x(s, n, d2))
        } else {
            false
        }
    }
}

/// Decides whether `s` is a numeric literal, that is, whether `f64`'s
/// parser would accept it.
pub fn is_number_literal(s: &str) -> (r: bool)
    ensures
        r == is_f64_literal(s@),
{
    let n = s.unicode_len();
    let start: usize = if n > 0 && is_sign(s.get_char(0)) {
        1
    } else {
        0
    };
    let b = s.substring_char(start, n);
    proof {
        if start == 1 {
            assert(b@ =~= s@.subrange(1, s@.len() as int));
        } else {
            assert(b@ =~= s@);
        }
    }
    let nb = n - start;
    if nb == 3 && eq_ic(b.get_char(0), 'i') && eq_ic(b.get_char(1), 'n') && eq_ic(
        b.get_char(2),
        'f',
    ) {
        return true;
    }
    if nb == 8 && eq_ic(b.get_char(0), 'i') && eq_ic(b.get_char(1), 'n') && eq_ic(b.get_char(2), 'f')
        && eq_ic(b.get_char(3), 'i') && eq_ic(b.get_char(4), 'n') && eq_ic(b.get_char(5), 'i')
        && eq_ic(b.get_char(6), 't') && eq_ic(b.get_char(7), 'y') {
        return true;
    }
    if nb == 3 && eq_ic(b.get_char(0), 'n') && eq_ic(b.get_char(1), 'a') && eq_ic(
        b.get_char(2),
        'n',
    ) {
        return true;
    }
    is_decimal_x(b, nb)
}

} // verus!
