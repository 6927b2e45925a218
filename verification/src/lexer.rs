//! Lexical analysis: raw text lines to a flat token sequence.
//!
//! The first line must be the fixed header literal.  Every later line is
//! truncated at the comment marker, rejected if it holds a tab, skipped if
//! blank, checked for an indentation width that is a whole number of
//! four-byte units, and then classified as a section header line or a
//! key/value line.  The whole behaviour is pinned down by [`spec_lex`].
use vstd::prelude::*;

use crate::error::BsonError;
use crate::numbers::is_f64_literal;
use crate::numbers::is_number_literal;
use crate::text::char_at_is;
use crate::text::first_idx;
use crate::text::is_ws_char;
use crate::text::is_ws_not_nl;
use crate::text::leading_ws_bytes;
use crate::text::lemma_first_idx;
use crate::text::lemma_ws_bytes_bounds;
use crate::text::lemma_ws_end;
use crate::text::non_iws_at;
use crate::text::non_ws_at;
use crate::text::spec_trim;
use crate::text::str_eq;
use crate::text::trim_end_len;
use crate::text::trim_end_str;
use crate::text::trim_str;
use crate::text::ws_bytes;
use crate::text::ws_prefix_end;

verus! {

#[derive(Debug, Clone, Copy, PartialEq, Eq, Structural)]
pub enum TokenType {
    Header,
    Indent,
    SectionOpen,
    SectionClose,
    Identifier,
    VineWhip,
    TString,
    Number,
    Bool,
    Null,
    ArrayStart,
    ArrayEnd,
    Comma,
    Eof,
}

/// One lexical token: its kind, its text payload, the 1-based source line it
/// came from, and a nesting level (indentation depth for indent markers,
/// declared depth for section markers, 0 otherwise).
#[derive(Debug, Clone, PartialEq)]
pub struct Token {
    pub ttype: TokenType,
    pub literal: String,
    pub line: usize,
    pub level: usize,
}

/// The mathematical image of a [`Token`].
pub ghost struct TokenModel {
    pub ttype: TokenType,
    pub literal: Seq<char>,
    pub line: nat,
    pub level: nat,
}

impl View for Token {
    type V = TokenModel;

    open spec fn view(&self) -> TokenModel {
        TokenModel {
            ttype: self.ttype,
            literal: self.literal@,
            line: self.line as nat,
            level: self.level as nat,
        }
    }
}

pub open spec fn tok(ttype: TokenType, literal: Seq<char>, line: nat, level: nat) -> TokenModel {
    TokenModel { ttype, literal, line, level }
}

/// The views of a token sequence.
pub open spec fn toks_view(ts: Seq<Token>) -> Seq<TokenModel> {
    ts.map_values(|t: Token| t@)
}

proof fn lemma_toks_view_push(ts: Seq<Token>, t: Token)
    ensures
        toks_view(ts.push(t)) == toks_view(ts).push(t@),
{
    assert(toks_view(ts.push(t)) =~= toks_view(ts).push(t@));
}

/// The mandatory first line of every document.
pub open spec fn header_lit() -> Seq<char> {
    "BULBA!"@
}

/// The comment marker starts at index `i` of `s`.
pub open spec fn comment_at(s: Seq<char>) -> spec_fn(int) -> bool {
    |i: int| i + 3 <= s.len() && s[i] == 'z' && s[i + 1] == 'Z' && s[i + 2] == 'z'
}

/// `s` cut off at the first comment marker; the marker itself is dropped.
pub open spec fn truncate_comment(s: Seq<char>) -> Seq<char> {
    s.subrange(0, first_idx(s.len() as int, comment_at(s), 0))
}

/// A section header line in the bracket style `c`, for example
/// `(o) name (o)`: the fixed four-character prefix and suffix around a
/// verbatim name.
pub open spec fn is_section(s: Seq<char>, c: char) -> bool {
    s.len() >= 8 && s[0] == '(' && s[1] == c && s[2] == ')' && s[3] == ' ' && s[s.len() - 4] == ' '
        && s[s.len() - 3] == '(' && s[s.len() - 2] == c && s[s.len() - 1] == ')'
}

/// The three tokens a section header line produces.
pub open spec fn section_tokens(s: Seq<char>, d: nat, n: nat) -> Seq<TokenModel> {
    seq![
        tok(TokenType::SectionOpen, Seq::empty(), n, d),
        tok(TokenType::Identifier, s.subrange(4, s.len() - 4), n, d),
        tok(TokenType::SectionClose, Seq::empty(), n, d),
    ]
}

pub open spec fn is_ident_start(c: char) -> bool {
    let u = c as u32;
    (65 <= u && u <= 90) || (97 <= u && u <= 122) || u == 95
}

pub open spec fn is_ident_char(c: char) -> bool {
    is_ident_start(c) || (48 <= c as u32 && c as u32 <= 57)
}

/// The predicate "the character at `i` does not continue an identifier".
pub open spec fn non_ident_at(s: Seq<char>) -> spec_fn(int) -> bool {
    |i: int| !is_ident_char(s[i])
}

/// The predicate "the character at `i` is not a tilde".
pub open spec fn non_tilde_at(s: Seq<char>) -> spec_fn(int) -> bool {
    |i: int| s[i] != '~'
}

/// A value text framed as an array: `<|` ... `|>` with no overlap.
pub open spec fn is_array_framed(v: Seq<char>) -> bool {
    v.len() >= 4 && v[0] == '<' && v[1] == '|' && v[v.len() - 2] == '|' && v[v.len() - 1] == '>'
}

/// Tokens of a single value text (recursive over array elements); an empty
/// text produces no tokens.
pub open spec fn spec_tokenize_value(v: Seq<char>, n: nat) -> Result<Seq<TokenModel>, BsonError>
    decreases v.len(), 0int,
    via spec_tokenize_value_dec
{
    if v.len() == 0 {
        Ok(seq![])
    } else if v.len() >= 2 && v[0] == '"' && v[v.len() - 1] == '"' {
        Ok(seq![tok(TokenType::TString, v.subrange(1, v.len() - 1), n, 0)])
    } else if v == "SuperEffective"@ {
        Ok(seq![tok(TokenType::Bool, "true"@, n, 0)])
    } else if v == "NotVeryEffective"@ {
        Ok(seq![tok(TokenType::Bool, "false"@, n, 0)])
    } else if v == "MissingNo"@ {
        Ok(seq![tok(TokenType::Null, Seq::empty(), n, 0)])
    } else if is_array_framed(v) {
        let content = spec_trim(v.subrange(2, v.len() - 2));
        if content.len() == 0 {
            Ok(
                seq![
                    tok(TokenType::ArrayStart, Seq::empty(), n, 0),
                    tok(TokenType::ArrayEnd, Seq::empty(), n, 0),
                ],
            )
        } else {
            match spec_tokenize_elems(content, n) {
                Ok(ts) => Ok(
                    seq![tok(TokenType::ArrayStart, Seq::empty(), n, 0)] + ts + seq![
                        tok(TokenType::ArrayEnd, Seq::empty(), n, 0),
                    ],
                ),
                Err(e) => Err(e),
            }
        }
    } else if is_f64_literal(v) {
        Ok(seq![tok(TokenType::Number, v, n, 0)])
    } else {
        Err(BsonError::BadValue)
    }
}

/// Tokens of a non-empty array body: elements split on every comma, each
/// trimmed, a comma token between consecutive elements.
pub open spec fn spec_tokenize_elems(c: Seq<char>, n: nat) -> Result<Seq<TokenModel>, BsonError>
    decreases c.len(), 1int,
    via spec_tokenize_elems_dec
{
    let k = first_idx(c.len() as int, char_at_is(c, ','), 0);
    let head = spec_trim(c.subrange(0, k));
    if k == c.len() {
        spec_tokenize_value(head, n)
    } else {
        match spec_tokenize_value(head, n) {
            Err(e) => Err(e),
            Ok(ht) => match spec_tokenize_elems(c.subrange(k + 1, c.len() as int), n) {
                Err(e) => Err(e),
                Ok(tt) => Ok(ht + seq![tok(TokenType::Comma, Seq::empty(), n, 0)] + tt),
            },
        }
    }
}

#[via_fn]
proof fn spec_tokenize_value_dec(v: Seq<char>, n: nat) {
    if is_array_framed(v) {
        let inner = v.subrange(2, v.len() - 2);
        lemma_trim_len(inner);
    }
}

#[via_fn]
proof fn spec_tokenize_elems_dec(c: Seq<char>, n: nat) {
    lemma_first_idx(c.len() as int, char_at_is(c, ','), 0);
    let k = first_idx(c.len() as int, char_at_is(c, ','), 0);
    lemma_trim_len(c.subrange(0, k));
}

/// Trimming never lengthens a sequence.
pub proof fn lemma_trim_len(s: Seq<char>)
    ensures
        spec_trim(s).len() <= s.len(),
{
    lemma_ws_end(s, s.len() as int);
    lemma_first_idx(trim_end_len(s), non_ws_at(s), 0);
}

/// Tokens of a trimmed, non-empty line body: a section header line or a
/// key/value line.
pub open spec fn spec_tokenize_line(s: Seq<char>, n: nat) -> Result<Seq<TokenModel>, BsonError> {
    if is_section(s, 'o') {
        Ok(section_tokens(s, 1, n))
    } else if is_section(s, 'O') {
        Ok(section_tokens(s, 2, n))
    } else if is_section(s, '@') {
        Ok(section_tokens(s, 3, n))
    } else {
        spec_key_value(s, n)
    }
}

/// Tokens of a key/value line: an identifier, a run of whitespace, one or
/// more tildes closed by `>`, a run of whitespace, then the value text.
pub open spec fn spec_key_value(s: Seq<char>, n: nat) -> Result<Seq<TokenModel>, BsonError> {
    if s.len() == 0 || !is_ident_start(s[0]) {
        Err(BsonError::BadSyntax)
    } else {
        let ie = first_idx(s.len() as int, non_ident_at(s), 1);
        let we = first_idx(s.len() as int, non_ws_at(s), ie);
        let te = first_idx(s.len() as int, non_tilde_at(s), we);
        if te == we || te >= s.len() || s[te] != '>' {
            Err(BsonError::BadSyntax)
        } else {
            let vs = first_idx(s.len() as int, non_ws_at(s), te + 1);
            match spec_tokenize_value(s.subrange(vs, s.len() as int), n) {
                Ok(vt) => Ok(
                    seq![
                        tok(TokenType::Identifier, s.subrange(0, ie), n, 0),
                        tok(TokenType::VineWhip, Seq::empty(), n, 0),
                    ] + vt,
                ),
                Err(e) => Err(e),
            }
        }
    }
}

/// Tokens of one physical line numbered `n` (1-based): comment stripping,
/// the tab check, blank-line skipping, the indentation rule, then the line
/// body.  A blank or comment-only line produces no tokens.
pub open spec fn spec_lex_line(s: Seq<char>, n: nat) -> Result<Seq<TokenModel>, BsonError> {
    let t = truncate_comment(s);
    if t.contains('\t') {
        Err(BsonError::TabChar)
    } else {
        let u = t.subrange(0, trim_end_len(t));
        if u.len() == 0 {
            Ok(seq![])
        } else {
            let ind = leading_ws_bytes(u);
            if ind % 4 != 0 {
                Err(BsonError::BadIndent)
            } else {
                match spec_tokenize_line(spec_trim(u), n) {
                    Ok(ts) => Ok(
                        seq![tok(TokenType::Indent, Seq::empty(), n, (ind / 4) as nat)] + ts,
                    ),
                    Err(e) => Err(e),
                }
            }
        }
    }
}

/// Tokens of the first `i` lines: the header line, then each later line in
/// order.  The token for the end of the input is not included.
pub open spec fn spec_lex_upto(lines: Seq<Seq<char>>, i: int) -> Result<
    Seq<TokenModel>,
    BsonError,
>
    decreases i,
{
    if i <= 0 {
        Ok(seq![])
    } else if i == 1 {
        if lines[0] == header_lit() {
            Ok(seq![tok(TokenType::Header, header_lit(), 1, 0)])
        } else {
            Err(BsonError::BadHeader)
        }
    } else {
        match spec_lex_upto(lines, i - 1) {
            Err(e) => Err(e),
            Ok(ts) => match spec_lex_line(lines[i - 1], i as nat) {
                Err(e) => Err(e),
                Ok(ls) => Ok(ts + ls),
            },
        }
    }
}

/// The complete token sequence of an input: all lines, then one end-of-input
/// token carrying the last line number.  An input with no lines at all lexes
/// to the end-of-input token alone.
pub open spec fn spec_lex(lines: Seq<Seq<char>>) -> Result<Seq<TokenModel>, BsonError> {
    if lines.len() == 0 {
        Ok(seq![tok(TokenType::Eof, Seq::empty(), 0, 0)])
    } else {
        match spec_lex_upto(lines, lines.len() as int) {
            Ok(ts) => Ok(ts.push(tok(TokenType::Eof, Seq::empty(), lines.len(), 0))),
            Err(e) => Err(e),
        }
    }
}

/// A failed line fails every longer prefix as well.
pub proof fn lemma_lex_upto_err(lines: Seq<Seq<char>>, j: int, m: int, e: BsonError)
    requires
        spec_lex_upto(lines, j) == Err::<Seq<TokenModel>, BsonError>(e),
        j <= m,
    ensures
        spec_lex_upto(lines, m) == Err::<Seq<TokenModel>, BsonError>(e),
    decreases m - j,
{
    if j < m {
        lemma_lex_upto_err(lines, j, m - 1, e);
    }
}

fn is_iws_char(c: char) -> (r: bool)
    ensures
        r == is_ws_not_nl(c),
{
    is_ws_char(c) && c != '\n'
}

/// Byte length of the leading whitespace run of a line (line feeds
/// excluded); this is what the indentation rule divides by four.
pub fn count_whitespaces_at_start(input: &str) -> (n: usize)
    ensures
        n as int == leading_ws_bytes(input@),
{
    let len = input.unicode_len();
    let mut e: usize = 0;
    while e < len && is_iws_char(input.get_char(e))
        invariant
            0 <= e <= len,
            len == input@.len(),
            first_idx(len as int, non_iws_at(input@), 0) == first_idx(
                len as int,
                non_iws_at(input@),
                e as int,
            ),
        decreases len - e,
    {
        assert(!non_iws_at(input@)(e as int));
        e = e + 1;
    }
    assert(ws_prefix_end(input@) == e as int);
    let mut acc: usize = 0;
    let mut j = e;
    while j > 0
        invariant
            0 <= j <= e <= input@.len(),
            acc as int == ws_bytes(input@, j as int, e as int),
        decreases j,
    {
        j = j - 1;
        proof {
            lemma_ws_bytes_bounds(input@, j + 1, e as int);
        }
        let b = crate::text::char_blen_x(input.get_char(j));
        acc = if acc > usize::MAX - b {
            usize::MAX
        } else {
            acc + b
        };
    }
    acc
}

fn find_comment(s: &str, n: usize) -> (r: usize)
    requires
        n == s@.len(),
    ensures
        r as int == first_idx(n as int, comment_at(s@), 0),
        r <= n,
{
    proof {
        lemma_first_idx(n as int, comment_at(s@), 0);
    }
    let mut i: usize = 0;
    while i < n
        invariant
            0 <= i <= n,
            n == s@.len(),
            first_idx(n as int, comment_at(s@), 0) == first_idx(n as int, comment_at(s@), i as int),
        decreases n - i,
    {
        if n >= 3 && i < n - 2 && s.get_char(i) == 'z' && s.get_char(i + 1) == 'Z' && s.get_char(
            i + 2,
        ) == 'z' {
            assert(comment_at(s@)(i as int));
            return i;
        }
        assert(!comment_at(s@)(i as int));
        i = i + 1;
    }
    n
}

fn contains_char(s: &str, n: usize, c: char) -> (r: bool)
    requires
        n == s@.len(),
    ensures
        r == s@.contains(c),
{
    let mut i: usize = 0;
    while i < n
        invariant
            0 <= i <= n,
            n == s@.len(),
            forall|j: int| 0 <= j < i ==> s@[j] != c,
        decreases n - i,
    {
        if s.get_char(i) == c {
            assert(s@.contains(c));
            return true;
        }
        i = i + 1;
    }
    assert(!s@.contains(c));
    false
}

fn try_section(line: &str, n: usize, c: char) -> (r: bool)
    requires
        n == line@.len(),
    ensures
        r == is_section(line@, c),
{
    n >= 8 && line.get_char(0) == '(' && line.get_char(1) == c && line.get_char(2) == ')'
        && line.get_char(3) == ' ' && line.get_char(n - 4) == ' ' && line.get_char(n - 3) == '('
        && line.get_char(n - 2) == c && line.get_char(n - 1) == ')'
}

fn push_tok(tokens: &mut Vec<Token>, ttype: TokenType, literal: String, line: usize, level: usize)
    ensures
        toks_view(final(tokens)@) == toks_view(old(tokens)@).push(
            tok(ttype, literal@, line as nat, level as nat),
        ),
        final(tokens)@.len() == old(tokens)@.len() + 1,
        forall|j: int|
            0 <= j < old(tokens)@.len() ==> #[trigger] final(tokens)@[j] == old(tokens)@[j],
{
    let t = Token { ttype, literal, line, level };
    proof {
        lemma_toks_view_push(tokens@, t);
    }
    tokens.push(t);
}

fn push_section(
    tokens: &mut Vec<Token>,
    line: &str,
    n: usize,
    line_num: usize,
    level: usize,
) -> (r: Result<(), BsonError>)
    requires
        n == line@.len(),
        n >= 8,
        1 <= level <= 3,
    ensures
        r is Ok,
        toks_view(final(tokens)@) == toks_view(old(tokens)@) + section_tokens(
            line@,
            level as nat,
            line_num as nat,
        ),
        final(tokens)@.len() >= old(tokens)@.len(),
        forall|j: int|
            0 <= j < old(tokens)@.len() ==> #[trigger] final(tokens)@[j] == old(tokens)@[j],
{
    let name = line.substring_char(4, n - 4).to_owned();
    push_tok(tokens, TokenType::SectionOpen, String::new(), line_num, level);
    push_tok(tokens, TokenType::Identifier, name, line_num, level);
    push_tok(tokens, TokenType::SectionClose, String::new(), line_num, level);
    proof {
        assert(toks_view(tokens@) =~= toks_view(old(tokens)@) + section_tokens(
            line@,
            level as nat,
            line_num as nat,
        ));
    }
    Ok(())
}

/// Tokenizes one value text, appending to `tokens`; recursive over array
/// elements.
pub fn tokenize_value(
    value: &str,
    line_num: usize,
    tokens: &mut Vec<Token>,
) -> (r: Result<(), BsonError>)
    ensures
        r is Ok ==> spec_tokenize_value(value@, line_num as nat) is Ok && toks_view(
            final(tokens)@,
        ) == toks_view(old(tokens)@) + spec_tokenize_value(value@, line_num as nat)->Ok_0,
        r is Err ==> spec_tokenize_value(value@, line_num as nat) == Err::<
            Seq<TokenModel>,
            BsonError,
        >(r->Err_0),
        final(tokens)@.len() >= old(tokens)@.len(),
        forall|j: int|
            0 <= j < old(tokens)@.len() ==> #[trigger] final(tokens)@[j] == old(tokens)@[j],
        r is Err && !is_array_framed(value@) ==> final(tokens)@ == old(tokens)@,
    decreases value@.len(), 0int,
{
    let ghost n0 = line_num as nat;
    let n = value.unicode_len();
    if n == 0 {
        proof {
            assert(toks_view(tokens@) =~= toks_view(tokens@) + Seq::<TokenModel>::empty());
        }
        return Ok(());
    }
    if n >= 2 && value.get_char(0) == '"' && value.get_char(n - 1) == '"' {
        let inner = value.substring_char(1, n - 1).to_owned();
        push_tok(tokens, TokenType::TString, inner, line_num, 0);
        proof {
            assert(toks_view(tokens@) =~= toks_view(old(tokens)@) + spec_tokenize_value(
                value@,
                n0,
            )->Ok_0);
        }
        return Ok(());
    }
    if str_eq(value, "SuperEffective") {
        push_tok(tokens, TokenType::Bool, String::from_str("true"), line_num, 0);
        proof {
            assert(toks_view(tokens@) =~= toks_view(old(tokens)@) + spec_tokenize_value(
                value@,
                n0,
            )->Ok_0);
        }
        return Ok(());
    }
    if str_eq(value, "NotVeryEffective") {
        push_tok(tokens, TokenType::Bool, String::from_str("false"), line_num, 0);
        proof {
            assert(toks_view(tokens@) =~= toks_view(old(tokens)@) + spec_tokenize_value(
                value@,
                n0,
            )->Ok_0);
        }
        return Ok(());
    }
    if str_eq(value, "MissingNo") {
        push_tok(tokens, TokenType::Null, String::new(), line_num, 0);
        proof {
            assert(toks_view(tokens@) =~= toks_view(old(tokens)@) + spec_tokenize_value(
                value@,
                n0,
            )->Ok_0);
        }
        return Ok(());
    }
    if n >= 4 && value.get_char(0) == '<' && value.get_char(1) == '|' && value.get_char(n - 2)
        == '|' && value.get_char(n - 1) == '>' {
        push_tok(tokens, TokenType::ArrayStart, String::new(), line_num, 0);
        let content = trim_str(value.substring_char(2, n - 2));
        proof {
            lemma_trim_len(value@.subrange(2, n - 2));
        }
        let cn = content.unicode_len();
        if cn > 0 {
            match tokenize_elems(content, line_num, tokens) {
                Err(e) => {
                    return Err(e);
                },
                Ok(()) => {},
            }
        }
        push_tok(tokens, TokenType::ArrayEnd, String::new(), line_num, 0);
        proof {
            assert(toks_view(tokens@) =~= toks_view(old(tokens)@) + spec_tokenize_value(
                value@,
                n0,
            )->Ok_0);
        }
        return Ok(());
    }
    if is_number_literal(value) {
        push_tok(tokens, TokenType::Number, value.to_owned(), line_num, 0);
        proof {
            assert(toks_view(tokens@) =~= toks_view(old(tokens)@) + spec_tokenize_value(
                value@,
                n0,
            )->Ok_0);
        }
        return Ok(());
    }
    Err(BsonError::BadValue)
}

fn find_char(s: &str, n: usize, c: char) -> (r: usize)
    requires
        n == s@.len(),
    ensures
        r as int == first_idx(n as int, char_at_is(s@, c), 0),
        r <= n,
{
    proof {
        lemma_first_idx(n as int, char_at_is(s@, c), 0);
    }
    let mut i: usize = 0;
    while i < n
        invariant
            0 <= i <= n,
            n == s@.len(),
            first_idx(n as int, char_at_is(s@, c), 0) == first_idx(
                n as int,
                char_at_is(s@, c),
                i as int,
            ),
        decreases n - i,
    {
        if s.get_char(i) == c {
            assert(char_at_is(s@, c)(i as int));
            return i;
        }
        assert(!char_at_is(s@, c)(i as int));
        i = i + 1;
    }
    n
}

fn tokenize_elems(
    content: &str,
    line_num: usize,
    tokens: &mut Vec<Token>,
) -> (r: Result<(), BsonError>)
    ensures
        r is Ok ==> spec_tokenize_elems(content@, line_num as nat) is Ok && toks_view(
            final(tokens)@,
        ) == toks_view(old(tokens)@) + spec_tokenize_elems(content@, line_num as nat)->Ok_0,
        r is Err ==> spec_tokenize_elems(content@, line_num as nat) == Err::<
            Seq<TokenModel>,
            BsonError,
        >(r->Err_0),
        final(tokens)@.len() >= old(tokens)@.len(),
        forall|j: int|
            0 <= j < old(tokens)@.len() ==> #[trigger] final(tokens)@[j] == old(tokens)@[j],
    decreases content@.len(), 1int,
{
    let ghost n0 = line_num as nat;
    let n = content.unicode_len();
    let k = find_char(content, n, ',');
    let head = trim_str(content.substring_char(0, k));
    proof {
        lemma_trim_len(content@.subrange(0, k as int));
    }
    if k == n {
        let r = tokenize_value(head, line_num, tokens);
        return r;
    }
    match tokenize_value(head, line_num, tokens) {
        Err(e) => Err(e),
        Ok(()) => {
            push_tok(tokens, TokenType::Comma, String::new(), line_num, 0);
            let tail = content.substring_char(k + 1, n);
            match tokenize_elems(tail, line_num, tokens) {
                Err(e) => Err(e),
                Ok(()) => {
                    proof {
                        assert(toks_view(tokens@) =~= toks_view(old(tokens)@)
                            + spec_tokenize_elems(content@, n0)->Ok_0);
                    }
                    Ok(())
                },
            }
        },
    }
}

fn is_ident_start_x(c: char) -> (r: bool)
    ensures
        r == is_ident_start(c),
{
    let u = c as u32;
    (65 <= u && u <= 90) || (97 <= u && u <= 122) || u == 95
}

fn is_ident_char_x(c: char) -> (r: bool)
    ensures
        r == is_ident_char(c),
{
    let u = c as u32;
    (65 <= u && u <= 90) || (97 <= u && u <= 122) || u == 95 || (48 <= u && u <= 57)
}

/// Tokenizes one trimmed, non-empty line body.
fn tokenize_line(
    line: &str,
    line_num: usize,
    tokens: &mut Vec<Token>,
) -> (r: Result<(), BsonError>)
    ensures
        r is Ok ==> spec_tokenize_line(line@, line_num as nat) is Ok && toks_view(
            final(tokens)@,
        ) == toks_view(old(tokens)@) + spec_tokenize_line(line@, line_num as nat)->Ok_0,
        r is Err ==> spec_tokenize_line(line@, line_num as nat) == Err::<
            Seq<TokenModel>,
            BsonError,
        >(r->Err_0),
        final(tokens)@.len() >= old(tokens)@.len(),
        forall|j: int|
            0 <= j < old(tokens)@.len() ==> #[trigger] final(tokens)@[j] == old(tokens)@[j],
{
    let ghost n0 = line_num as nat;
    let n = line.unicode_len();
    if try_section(line, n, 'o') {
        return push_section(tokens, line, n, line_num, 1);
    }
    if try_section(line, n, 'O') {
        return push_section(tokens, line, n, line_num, 2);
    }
    if try_section(line, n, '@') {
        return push_section(tokens, line, n, line_num, 3);
    }
    if n == 0 || !is_ident_start_x(line.get_char(0)) {
        return Err(BsonError::BadSyntax);
    }
    // identifier run
    let mut ie: usize = 1;
    while ie < n && is_ident_char_x(line.get_char(ie))
        invariant
            1 <= ie <= n,
            n == line@.len(),
            first_idx(n as int, non_ident_at(line@), 1) == first_idx(
                n as int,
                non_ident_at(line@),
                ie as int,
            ),
        decreases n - ie,
    {
        assert(!non_ident_at(line@)(ie as int));
        ie = ie + 1;
    }
    // whitespace run
    let mut we: usize = ie;
    while we < n && is_ws_char(line.get_char(we))
        invariant
            ie <= we <= n,
            n == line@.len(),
            first_idx(n as int, non_ws_at(line@), ie as int) == first_idx(
                n as int,
                non_ws_at(line@),
                we as int,
            ),
        decreases n - we,
    {
        assert(!non_ws_at(line@)(we as int));
        we = we + 1;
    }
    // tilde run
    let mut te: usize = we;
    while te < n && line.get_char(te) == '~'
        invariant
            we <= te <= n,
            n == line@.len(),
            first_idx(n as int, non_tilde_at(line@), we as int) == first_idx(
                n as int,
                non_tilde_at(line@),
                te as int,
            ),
        decreases n - te,
    {
        assert(!non_tilde_at(line@)(te as int));
        te = te + 1;
    }
    if te == we || te >= n || !(line.get_char(te) == '>') {
        return Err(BsonError::BadSyntax);
    }
    // whitespace before the value
    let mut vs: usize = te + 1;
    while vs < n && is_ws_char(line.get_char(vs))
        invariant
            te + 1 <= vs <= n,
            n == line@.len(),
            first_idx(n as int, non_ws_at(line@), te + 1) == first_idx(
                n as int,
                non_ws_at(line@),
                vs as int,
            ),
        decreases n - vs,
    {
        assert(!non_ws_at(line@)(vs as int));
        vs = vs + 1;
    }
    let key = line.substring_char(0, ie).to_owned();
    push_tok(tokens, TokenType::Identifier, key, line_num, 0);
    push_tok(tokens, TokenType::VineWhip, String::new(), line_num, 0);
    let value = line.substring_char(vs, n);
    match tokenize_value(value, line_num, tokens) {
        Err(e) => Err(e),
        Ok(()) => {
            proof {
                assert(toks_view(tokens@) =~= toks_view(old(tokens)@) + spec_tokenize_line(
                    line@,
                    n0,
                )->Ok_0);
            }
            Ok(())
        },
    }
}

/// Lexes one physical line, appending its tokens.
fn lex_line(line: &str, line_num: usize, tokens: &mut Vec<Token>) -> (r: Result<(), BsonError>)
    ensures
        r is Ok ==> spec_lex_line(line@, line_num as nat) is Ok && toks_view(
            final(tokens)@,
        ) == toks_view(old(tokens)@) + spec_lex_line(line@, line_num as nat)->Ok_0,
        r is Err ==> spec_lex_line(line@, line_num as nat) == Err::<Seq<TokenModel>, BsonError>(
            r->Err_0,
        ),
        final(tokens)@.len() >= old(tokens)@.len(),
        forall|j: int|
            0 <= j < old(tokens)@.len() ==> #[trigger] final(tokens)@[j] == old(tokens)@[j],
{
    let ghost n0 = line_num as nat;
    let full_len = line.unicode_len();
    let ci = find_comment(line, full_len);
    let t = line.substring_char(0, ci);
    if contains_char(t, ci, '\t') {
        return Err(BsonError::TabChar);
    }
    let u = trim_end_str(t);
    proof {
        lemma_ws_end(t@, t@.len() as int);
    }
    let nu = u.unicode_len();
    if nu == 0 {
        proof {
            assert(toks_view(tokens@) =~= toks_view(tokens@) + Seq::<TokenModel>::empty());
        }
        return Ok(());
    }
    let ind = count_whitespaces_at_start(u);
    if ind % 4 != 0 {
        return Err(BsonError::BadIndent);
    }
    let level = ind / 4;
    push_tok(tokens, TokenType::Indent, String::new(), line_num, level);
    let body = trim_str(u);
    match tokenize_line(body, line_num, tokens) {
        Err(e) => Err(e),
        Ok(()) => {
            proof {
                assert(toks_view(tokens@) =~= toks_view(old(tokens)@) + spec_lex_line(
                    line@,
                    n0,
                )->Ok_0);
            }
            Ok(())
        },
    }
}

/// Lexes a whole input, given as its ordered text lines.
pub fn lex(lines: &Vec<String>) -> (r: Result<Vec<Token>, BsonError>)
    ensures
        r is Ok <==> spec_lex(lines.deep_view()) is Ok,
        r is Ok ==> toks_view(r->Ok_0@) == spec_lex(lines.deep_view())->Ok_0,
        r is Err ==> r->Err_0 == spec_lex(lines.deep_view())->Err_0,
{
    let ghost lv = lines.deep_view();
    let n = lines.len();
    let mut tokens: Vec<Token> = Vec::new();
    if n == 0 {
        push_tok(&mut tokens, TokenType::Eof, String::new(), 0, 0);
        proof {
            assert(toks_view(tokens@) =~= spec_lex(lv)->Ok_0);
        }
        return Ok(tokens);
    }
    if !str_eq(lines[0].as_str(), "BULBA!") {
        proof {
            assert(lv[0] != header_lit());
            assert(spec_lex_upto(lv, 1) == Err::<Seq<TokenModel>, BsonError>(BsonError::BadHeader));
            lemma_lex_upto_err(lv, 1, n as int, BsonError::BadHeader);
        }
        return Err(BsonError::BadHeader);
    }
    let header = lines[0].clone();
    push_tok(&mut tokens, TokenType::Header, header, 1, 0);
    proof {
        assert(toks_view(tokens@) =~= spec_lex_upto(lv, 1)->Ok_0);
    }
    let mut i: usize = 1;
    while i < n
        invariant
            1 <= i <= n,
            n == lines@.len(),
            lv == lines.deep_view(),
            spec_lex_upto(lv, i as int) is Ok,
            toks_view(tokens@) == spec_lex_upto(lv, i as int)->Ok_0,
        decreases n - i,
    {
        proof {
            assert(lv[i as int] == lines@[i as int]@);
        }
        match lex_line(lines[i].as_str(), i + 1, &mut tokens) {
            Err(e) => {
                proof {
                    assert(spec_lex_upto(lv, i + 1) == Err::<Seq<TokenModel>, BsonError>(e));
                    lemma_lex_upto_err(lv, i + 1, n as int, e);
                }
                return Err(e);
            },
            Ok(()) => {},
        }
        i = i + 1;
    }
    push_tok(&mut tokens, TokenType::Eof, String::new(), n, 0);
    proof {
        assert(toks_view(tokens@) =~= spec_lex(lv)->Ok_0);
    }
    Ok(tokens)
}

} // verus!
