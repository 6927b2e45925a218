//! Character classification and string-scanning utilities shared by the
//! lexer, the parser and the serializer.
//!
//! Everything here is stated over `Seq<char>`, the view of `&str`, so the
//! contracts of the lexer and parser can speak about lines and literals as
//! plain character sequences.
use vstd::prelude::*;

verus! {

/// The characters Rust's `char::is_whitespace` accepts: the Unicode
/// `White_Space` set.
pub open spec fn is_ws(c: char) -> bool {
    let u = c as u32;
    u == 0x09 || u == 0x0A || u == 0x0B || u == 0x0C || u == 0x0D || u == 0x20 || u == 0x85
        || u == 0xA0 || u == 0x1680 || (0x2000 <= u && u <= 0x200A) || u == 0x2028 || u == 0x2029
        || u == 0x202F || u == 0x205F || u == 0x3000
}

/// Whitespace as counted for indentation: every whitespace character except
/// a line feed.
pub open spec fn is_ws_not_nl(c: char) -> bool {
    is_ws(c) && c != '\n'
}

pub fn is_ws_char(c: char) -> (r: bool)
    ensures
        r == is_ws(c),
{
    let u = c as u32;
    u == 0x09 || u == 0x0A || u == 0x0B || u == 0x0C || u == 0x0D || u == 0x20 || u == 0x85
        || u == 0xA0 || u == 0x1680 || (0x2000 <= u && u <= 0x200A) || u == 0x2028 || u == 0x2029
        || u == 0x202F || u == 0x205F || u == 0x3000
}

/// Number of bytes in the UTF-8 encoding of `c`.
pub open spec fn char_blen(c: char) -> int {
    let u = c as u32;
    if u < 0x80 {
        1
    } else if u < 0x800 {
        2
    } else if u < 0x10000 {
        3
    } else {
        4
    }
}

pub(crate) fn char_blen_x(c: char) -> (r: usize)
    ensures
        r == char_blen(c),
{
    let u = c as u32;
    if u < 0x80 {
        1
    } else if u < 0x800 {
        2
    } else if u < 0x10000 {
        3
    } else {
        4
    }
}

/// First index `i` in `[from, len)` with `p(i)`; `len` if there is none.
pub open spec fn first_idx(len: int, p: spec_fn(int) -> bool, from: int) -> int
    decreases len - from,
{
    if from >= len {
        len
    } else if p(from) {
        from
    } else {
        first_idx(len, p, from + 1)
    }
}

pub proof fn lemma_first_idx(len: int, p: spec_fn(int) -> bool, from: int)
    requires
        0 <= from <= len,
    ensures
        from <= first_idx(len, p, from) <= len,
        forall|j: int| from <= j < first_idx(len, p, from) ==> !#[trigger] p(j),
        first_idx(len, p, from) < len ==> p(first_idx(len, p, from)),
    decreases len - from,
{
    if from < len && !p(from) {
        lemma_first_idx(len, p, from + 1);
    }
}

/// The predicate "the character at `i` is not whitespace", used for trimming.
pub open spec fn non_ws_at(s: Seq<char>) -> spec_fn(int) -> bool {
    |i: int| !is_ws(s[i])
}

/// The predicate "the character at `i` is not indentation whitespace".
pub open spec fn non_iws_at(s: Seq<char>) -> spec_fn(int) -> bool {
    |i: int| !is_ws_not_nl(s[i])
}

/// The predicate "the character at `i` is `c`".
pub open spec fn char_at_is(s: Seq<char>, c: char) -> spec_fn(int) -> bool {
    |i: int| s[i] == c
}

/// End of the whitespace run that finishes at index `k`: the smallest `e`
/// such that `s[e..k]` is all whitespace.
pub open spec fn ws_end(s: Seq<char>, k: int) -> int
    decreases k,
{
    if 0 < k <= s.len() && is_ws(s[k - 1]) {
        ws_end(s, k - 1)
    } else {
        k
    }
}

/// Length of `s` once trailing whitespace is removed.
pub open spec fn trim_end_len(s: Seq<char>) -> int {
    ws_end(s, s.len() as int)
}

pub proof fn lemma_ws_end(s: Seq<char>, k: int)
    requires
        0 <= k <= s.len(),
    ensures
        0 <= ws_end(s, k) <= k,
    decreases k,
{
    if 0 < k && is_ws(s[k - 1]) {
        lemma_ws_end(s, k - 1);
    }
}

/// `s` with leading and trailing whitespace removed.
pub open spec fn spec_trim(s: Seq<char>) -> Seq<char> {
    let hi = trim_end_len(s);
    let lo = first_idx(hi, non_ws_at(s), 0);
    s.subrange(lo, hi)
}

/// Trims leading and trailing whitespace, like `str::trim`.
pub fn trim_str<'a>(s: &'a str) -> (r: &'a str)
    ensures
        r@ == spec_trim(s@),
{
    let n = s.unicode_len();
    let mut hi = n;
    while hi > 0 && is_ws_char(s.get_char(hi - 1))
        invariant
            0 <= hi <= n,
            n == s@.len(),
            ws_end(s@, n as int) == ws_end(s@, hi as int),
        decreases hi,
    {
        hi = hi - 1;
    }
    assert(trim_end_len(s@) == hi as int);
    let mut lo: usize = 0;
    while lo < hi && is_ws_char(s.get_char(lo))
        invariant
            0 <= lo <= hi <= n,
            n == s@.len(),
            first_idx(hi as int, non_ws_at(s@), 0) == first_idx(hi as int, non_ws_at(s@), lo as int),
        decreases hi - lo,
    {
        assert(!non_ws_at(s@)(lo as int));
        lo = lo + 1;
    }
    assert(first_idx(hi as int, non_ws_at(s@), lo as int) == lo as int);
    s.substring_char(lo, hi)
}

/// Trims trailing whitespace only, like `str::trim_end`.
pub fn trim_end_str<'a>(s: &'a str) -> (r: &'a str)
    ensures
        r@ == s@.subrange(0, trim_end_len(s@)),
{
    let n = s.unicode_len();
    let mut hi = n;
    while hi > 0 && is_ws_char(s.get_char(hi - 1))
        invariant
            0 <= hi <= n,
            n == s@.len(),
            ws_end(s@, n as int) == ws_end(s@, hi as int),
        decreases hi,
    {
        hi = hi - 1;
    }
    s.substring_char(0, hi)
}

/// Addition capped at `usize::MAX`, so that byte counts stay within machine
/// range even for inputs no real string can reach.
pub open spec fn cap_add(a: int, b: int) -> int {
    if a + b > usize::MAX as int {
        usize::MAX as int
    } else {
        a + b
    }
}

/// Total UTF-8 byte length of `s[i..e]`, capped at `usize::MAX`.
pub open spec fn ws_bytes(s: Seq<char>, i: int, e: int) -> int
    decreases e - i,
{
    if i >= e {
        0
    } else {
        cap_add(char_blen(s[i]), ws_bytes(s, i + 1, e))
    }
}

pub proof fn lemma_ws_bytes_bounds(s: Seq<char>, i: int, e: int)
    ensures
        0 <= ws_bytes(s, i, e) <= usize::MAX as int,
    decreases e - i,
{
    if i < e {
        lemma_ws_bytes_bounds(s, i + 1, e);
    }
}

/// Index just past the run of indentation whitespace that starts `s`.
pub open spec fn ws_prefix_end(s: Seq<char>) -> int {
    first_idx(s.len() as int, non_iws_at(s), 0)
}

/// Byte length of the leading whitespace run of `s` (line feeds excluded),
/// capped at `usize::MAX`.
pub open spec fn leading_ws_bytes(s: Seq<char>) -> int {
    ws_bytes(s, 0, ws_prefix_end(s))
}

/// True equality of two strings, character by character.
pub fn str_eq(a: &str, b: &str) -> (r: bool)
    ensures
        r == (a@ == b@),
{
    let na = a.unicode_len();
    let nb = b.unicode_len();
    if na != nb {
        assert(a@ != b@);
        return false;
    }
    let mut i: usize = 0;
    while i < na
        invariant
            0 <= i <= na,
            na == a@.len(),
            na == b@.len(),
            forall|j: int| 0 <= j < i ==> a@[j] == b@[j],
        decreases na - i,
    {
        if a.get_char(i) != b.get_char(i) {
            assert(a@ != b@);
            return false;
        }
        i = i + 1;
    }
    proof {
        assert(a@ =~= b@);
    }
    true
}

/// Lexicographic order on character sequences by code point, which agrees
/// with `str`'s ordering on its UTF-8 bytes.
pub open spec fn chars_lt(a: Seq<char>, b: Seq<char>) -> bool
    decreases a.len(),
{
    if b.len() == 0 {
        false
    } else if a.len() == 0 {
        true
    } else if a[0] == b[0] {
        chars_lt(a.drop_first(), b.drop_first())
    } else {
        (a[0] as u32) < (b[0] as u32)
    }
}

/// Decides `chars_lt(a@, b@)`.
pub fn str_lt(a: &str, b: &str) -> (r: bool)
    ensures
        r == chars_lt(a@, b@),
{
    let na = a.unicode_len();
    let nb = b.unicode_len();
    let mut i: usize = 0;
    proof {
        assert(a@.skip(0) =~= a@);
        assert(b@.skip(0) =~= b@);
    }
    while i < na && i < nb
        invariant
            0 <= i <= na,
            i <= nb,
            na == a@.len(),
            nb == b@.len(),
            chars_lt(a@, b@) == chars_lt(a@.skip(i as int), b@.skip(i as int)),
        decreases na - i,
    {
        let ca = a.get_char(i);
        let cb = b.get_char(i);
        if ca != cb {
            return (ca as u32) < (cb as u32);
        }
        proof {
            assert(a@.skip(i as int).drop_first() =~= a@.skip(i + 1));
            assert(b@.skip(i as int).drop_first() =~= b@.skip(i + 1));
        }
        i = i + 1;
    }
    i == na && i < nb
}


/// `chars_lt` orders any two distinct sequences one way or the other.
pub proof fn lemma_chars_lt_trichotomy(a: Seq<char>, b: Seq<char>)
    ensures
        chars_lt(a, b) || chars_lt(b, a) || a == b,
    decreases a.len(),
{
    if b.len() == 0 && a.len() == 0 {
        assert(a =~= b);
    } else if a.len() > 0 && b.len() > 0 && a[0] == b[0] {
        lemma_chars_lt_trichotomy(a.drop_first(), b.drop_first());
        if a.drop_first() == b.drop_first() {
            assert(a.len() == b.len());
            assert forall|i: int| 0 <= i < a.len() implies a[i] == b[i] by {
                if i > 0 {
                    assert(a[i] == a.drop_first()[i - 1]);
                    assert(b[i] == b.drop_first()[i - 1]);
                }
            }
            assert(a =~= b);
        }
    } else if a.len() > 0 && b.len() > 0 {
        if a[0] as u32 == b[0] as u32 {
            vstd::utf8::char_u32_cast(a[0], a[0] as u32);
            vstd::utf8::char_u32_cast(b[0], b[0] as u32);
            assert(a[0] == b[0]);
        }
    }
}

/// `chars_lt` is transitive.
pub proof fn lemma_chars_lt_trans(a: Seq<char>, b: Seq<char>, c: Seq<char>)
    requires
        chars_lt(a, b),
        chars_lt(b, c),
    ensures
        chars_lt(a, c),
    decreases a.len(),
{
    if a.len() > 0 && b.len() > 0 && c.len() > 0 && a[0] == b[0] && b[0] == c[0] {
        lemma_chars_lt_trans(a.drop_first(), b.drop_first(), c.drop_first());
    }
}


} // verus!
