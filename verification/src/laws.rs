//! Library-wide laws: statements that hold of the pipeline as a whole,
//! proved once and for all over the specification functions that the
//! executable functions are verified against.
use vstd::prelude::*;

use crate::error::BsonError;
use crate::lexer::TokenModel;
use crate::lexer::TokenType;
use crate::lexer::header_lit;
use crate::lexer::spec_lex;
use crate::lexer::spec_lex_line;
use crate::lexer::spec_lex_upto;
use crate::lexer::lemma_lex_upto_err;
use crate::lexer::tok;
use crate::lexer::truncate_comment;
use crate::parser::Bson;
use crate::parser::close_stack;
use crate::parser::map_insert;
use crate::parser::reserved_key;
use crate::parser::spec_insert_top;
use crate::parser::spec_parse;
use crate::parser::spec_parse_at;
use crate::parser::spec_parse_elems;
use crate::parser::spec_parse_value;
use crate::parser::spec_pop_attach;
use crate::parser::spec_ser;
use crate::parser::stack_trunc;
use crate::text::chars_lt;
use crate::text::leading_ws_bytes;
use crate::text::lemma_chars_lt_trans;
use crate::text::lemma_chars_lt_trichotomy;
use crate::text::trim_end_len;

verus! {

/// The full pipeline over one input: lex, parse, serialize.
pub open spec fn spec_pipeline(lines: Seq<Seq<char>>) -> Result<Seq<char>, BsonError> {
    match spec_lex(lines) {
        Err(e) => Err(e),
        Ok(ts) => match spec_parse(ts) {
            Err(e) => Err(e),
            Ok(doc) => Ok(spec_ser(doc, 0)),
        },
    }
}

/// Lexing, parsing and serializing are deterministic: the pipeline is a
/// function of the input lines alone, so two runs on equal inputs give
/// byte-identical output.
pub proof fn lemma_pipeline_deterministic(lines1: Seq<Seq<char>>, lines2: Seq<Seq<char>>)
    requires
        lines1 == lines2,
    ensures
        spec_pipeline(lines1) == spec_pipeline(lines2),
{
}

/// A line whose leading whitespace is not a whole number of four-byte
/// units is rejected with the indentation error, whatever else it holds,
/// provided no tab fires first and the line is not blank.
pub proof fn lemma_indent_rejected(s: Seq<char>, n: nat)
    requires
        !truncate_comment(s).contains('\t'),
        ({
            let t = truncate_comment(s);
            t.subrange(0, trim_end_len(t)).len() > 0
        }),
        ({
            let t = truncate_comment(s);
            leading_ws_bytes(t.subrange(0, trim_end_len(t))) % 4 != 0
        }),
    ensures
        spec_lex_line(s, n) == Err::<Seq<TokenModel>, BsonError>(BsonError::BadIndent),
{
}

/// A line that still holds a tab once comments are stripped is rejected
/// with the tab error before any other check fires: no other condition on
/// the line matters.
pub proof fn lemma_tab_rejected(s: Seq<char>, n: nat)
    requires
        truncate_comment(s).contains('\t'),
    ensures
        spec_lex_line(s, n) == Err::<Seq<TokenModel>, BsonError>(BsonError::TabChar),
{
}

/// A failing line decides the whole input: if the lines before line `i`
/// lex cleanly and line `i` fails, the input fails with that line's error.
pub proof fn lemma_line_error_decides(lines: Seq<Seq<char>>, i: int, e: BsonError)
    requires
        1 <= i < lines.len(),
        spec_lex_upto(lines, i) is Ok,
        spec_lex_line(lines[i], (i + 1) as nat) == Err::<Seq<TokenModel>, BsonError>(e),
    ensures
        spec_lex(lines) == Err::<Seq<TokenModel>, BsonError>(e),
{
    assert(spec_lex_upto(lines, i + 1) == Err::<Seq<TokenModel>, BsonError>(e));
    lemma_lex_upto_err(lines, i + 1, lines.len() as int, e);
}

/// A section token at depth `d` is taken only where its line's indentation
/// level is `d - 1` and at least `d` containers are open; a wrong
/// indentation is the hierarchy error, and it is checked before the
/// missing-ancestors error.
pub proof fn lemma_section_depth_checked(
    ts: Seq<TokenModel>,
    i: int,
    sv: Seq<(Seq<char>, Seq<(Seq<char>, Bson)>)>,
    cur: int,
)
    requires
        0 <= i,
        i + 1 < ts.len(),
        ts[i].ttype == TokenType::Indent,
        ts[i + 1].ttype == TokenType::SectionOpen,
    ensures
        ts[i].level + 1 != ts[i + 1].level ==> spec_parse_at(ts, i, sv, cur) == Err::<
            Bson,
            BsonError,
        >(BsonError::BadHierarchy),
        ts[i].level + 1 == ts[i + 1].level && sv.len() < ts[i + 1].level ==> spec_parse_at(
            ts,
            i,
            sv,
            cur,
        ) == Err::<Bson, BsonError>(BsonError::MissingAncestors),
{
}

/// A flat key line indented deeper than the current flat-key level, with
/// no intervening section header, is the hierarchy error.
pub proof fn lemma_flat_key_too_deep(
    ts: Seq<TokenModel>,
    i: int,
    sv: Seq<(Seq<char>, Seq<(Seq<char>, Bson)>)>,
    cur: int,
)
    requires
        0 <= i,
        i + 1 < ts.len(),
        ts[i].ttype == TokenType::Indent,
        ts[i + 1].ttype == TokenType::Identifier,
        ts[i].level > cur,
    ensures
        spec_parse_at(ts, i, sv, cur) == Err::<Bson, BsonError>(BsonError::BadHierarchy),
{
}

/// No document value below `v` uses the reserved keyword as a map key.
pub open spec fn no_reserved(v: Bson) -> bool
    decreases v, 0int,
{
    match v {
        Bson::Array(items) => no_reserved_seq(items),
        Bson::BMap(entries) => no_reserved_entries(entries),
        _ => true,
    }
}

pub open spec fn no_reserved_seq(items: Seq<Bson>) -> bool
    decreases items, 1int,
{
    items.len() == 0 || (no_reserved(items[0]) && no_reserved_seq(items.drop_first()))
}

pub open spec fn no_reserved_entries(es: Seq<(Seq<char>, Bson)>) -> bool
    decreases es, 1int,
{
    es.len() == 0 || (es[0].0 != reserved_key() && no_reserved(es[0].1) && no_reserved_entries(
        es.drop_first(),
    ))
}

/// Every entry of the parser's stack has a reserved-free key (the root's
/// key is empty) and reserved-free contents.
pub open spec fn stack_reserved_free(sv: Seq<(Seq<char>, Seq<(Seq<char>, Bson)>)>) -> bool {
    forall|i: int|
        0 <= i < sv.len() ==> (#[trigger] sv[i]).0 != reserved_key() && no_reserved_entries(
            sv[i].1,
        )
}

proof fn lemma_no_reserved_seq_push(items: Seq<Bson>, v: Bson)
    requires
        no_reserved_seq(items),
        no_reserved(v),
    ensures
        no_reserved_seq(items.push(v)),
    decreases items.len(),
{
    if items.len() == 0 {
        assert(items.push(v)[0] == v);
        assert(items.push(v).drop_first() =~= Seq::<Bson>::empty());
        assert(no_reserved_seq(items.push(v).drop_first()));
        assert(no_reserved(items.push(v)[0]));
        assert(no_reserved_seq(items.push(v)));
    } else {
        lemma_no_reserved_seq_push(items.drop_first(), v);
        assert(items.push(v).drop_first() =~= items.drop_first().push(v));
        assert(items.push(v)[0] == items[0]);
        assert(no_reserved_seq(items.push(v).drop_first()));
        assert(no_reserved(items.push(v)[0]));
        assert(no_reserved_seq(items.push(v)));
    }
}

proof fn lemma_map_insert_no_reserved(m: Seq<(Seq<char>, Bson)>, k: Seq<char>, v: Bson)
    requires
        no_reserved_entries(m),
        k != reserved_key(),
        no_reserved(v),
    ensures
        no_reserved_entries(map_insert(m, k, v)),
    decreases m.len(),
{
    let out = map_insert(m, k, v);
    if m.len() == 0 {
        assert(out[0] == (k, v));
        assert(out.drop_first() =~= Seq::<(Seq<char>, Bson)>::empty());
        assert(no_reserved_entries(out.drop_first()));
        assert(no_reserved_entries(out));
    } else if crate::text::chars_lt(k, m[0].0) {
        assert(out[0] == (k, v));
        assert(out.drop_first() =~= m);
        assert(no_reserved_entries(out));
    } else if k == m[0].0 {
        assert(out[0] == (k, v));
        assert(out.drop_first() =~= m.drop_first());
        assert(no_reserved_entries(out.drop_first()));
        assert(no_reserved_entries(out));
    } else {
        lemma_map_insert_no_reserved(m.drop_first(), k, v);
        assert(out[0] == m[0]);
        assert(out.drop_first() =~= map_insert(m.drop_first(), k, v));
        assert(no_reserved_entries(out.drop_first()));
        assert(no_reserved_entries(out));
    }
}

proof fn lemma_value_no_reserved(ts: Seq<TokenModel>, i: int)
    ensures
        spec_parse_value(ts, i) is Ok ==> no_reserved(spec_parse_value(ts, i)->Ok_0.0),
    decreases ts.len() - i, 0int,
{
    if 0 <= i < ts.len() && ts[i].ttype == TokenType::ArrayStart {
        lemma_elems_no_reserved(ts, i + 1, seq![]);
    }
}

proof fn lemma_elems_no_reserved(ts: Seq<TokenModel>, i: int, acc: Seq<Bson>)
    requires
        no_reserved_seq(acc),
    ensures
        spec_parse_elems(ts, i, acc) is Ok ==> no_reserved(spec_parse_elems(ts, i, acc)->Ok_0.0),
    decreases ts.len() - i, 1int,
{
    if 0 <= i < ts.len() {
        if ts[i].ttype == TokenType::ArrayEnd {
        } else if ts[i].ttype == TokenType::Comma {
            lemma_elems_no_reserved(ts, i + 1, acc);
        } else {
            lemma_value_no_reserved(ts, i);
            if spec_parse_value(ts, i) is Ok {
                let (v, next) = spec_parse_value(ts, i)->Ok_0;
                if i < next <= ts.len() {
                    lemma_no_reserved_seq_push(acc, v);
                    lemma_elems_no_reserved(ts, next, acc.push(v));
                }
            }
        }
    }
}

proof fn lemma_pop_attach_reserved_free(sv: Seq<(Seq<char>, Seq<(Seq<char>, Bson)>)>)
    requires
        sv.len() >= 2,
        stack_reserved_free(sv),
    ensures
        stack_reserved_free(spec_pop_attach(sv)),
        spec_pop_attach(sv).len() == sv.len() - 1,
{
    let m = sv.len() - 2;
    lemma_map_insert_no_reserved(sv[m].1, sv[sv.len() - 1].0, Bson::BMap(sv[sv.len() - 1].1));
}

proof fn lemma_trunc_reserved_free(sv: Seq<(Seq<char>, Seq<(Seq<char>, Bson)>)>, n: int)
    requires
        stack_reserved_free(sv),
    ensures
        stack_reserved_free(stack_trunc(sv, n)),
    decreases sv.len(),
{
    if !(sv.len() <= n || sv.len() <= 1) {
        lemma_pop_attach_reserved_free(sv);
        lemma_trunc_reserved_free(spec_pop_attach(sv), n);
    }
}

proof fn lemma_close_reserved_free(sv: Seq<(Seq<char>, Seq<(Seq<char>, Bson)>)>)
    requires
        stack_reserved_free(sv),
    ensures
        no_reserved_entries(close_stack(sv)),
    decreases sv.len(),
{
    if sv.len() >= 2 {
        lemma_pop_attach_reserved_free(sv);
        lemma_close_reserved_free(spec_pop_attach(sv));
    }
}

proof fn lemma_parse_at_no_reserved(
    ts: Seq<TokenModel>,
    i: int,
    sv: Seq<(Seq<char>, Seq<(Seq<char>, Bson)>)>,
    cur: int,
)
    requires
        stack_reserved_free(sv),
    ensures
        spec_parse_at(ts, i, sv, cur) is Ok ==> no_reserved(spec_parse_at(ts, i, sv, cur)->Ok_0),
    decreases ts.len() - i,
{
    if i < 0 || i >= ts.len() || ts[i].ttype == TokenType::Eof {
        lemma_close_reserved_free(sv);
    } else if ts[i].ttype == TokenType::Indent {
        if i + 1 >= ts.len() {
            lemma_close_reserved_free(sv);
        } else {
            let expected = ts[i].level as int;
            let nt = ts[i + 1];
            if nt.ttype == TokenType::SectionOpen {
                let d = nt.level as int;
                if expected + 1 == d && sv.len() >= d && i + 2 < ts.len() && ts[i + 2].ttype
                    == TokenType::Identifier && ts[i + 2].literal != reserved_key() && i + 3
                    < ts.len() && ts[i + 3].ttype == TokenType::SectionClose {
                    lemma_trunc_reserved_free(sv, d);
                    let sv1 = stack_trunc(sv, d).push((ts[i + 2].literal, seq![]));
                    assert forall|j: int| 0 <= j < sv1.len() implies (#[trigger] sv1[j]).0
                        != reserved_key() && no_reserved_entries(sv1[j].1) by {
                        if j < sv1.len() - 1 {
                            assert(sv1[j] == stack_trunc(sv, d)[j]);
                        } else {
                            assert(sv1[j] == (ts[i + 2].literal, Seq::<(Seq<char>, Bson)>::empty()));
                        }
                    }
                    lemma_parse_at_no_reserved(ts, i + 4, sv1, d);
                }
            } else if nt.ttype == TokenType::Identifier {
                if expected <= cur {
                    let st1 = if expected < cur {
                        stack_trunc(sv, expected + 1)
                    } else {
                        sv
                    };
                    let cur1 = if expected < cur {
                        expected
                    } else {
                        cur
                    };
                    lemma_trunc_reserved_free(sv, expected + 1);
                    if nt.literal != reserved_key() && i + 2 < ts.len() && ts[i + 2].ttype
                        == TokenType::VineWhip {
                        lemma_value_no_reserved(ts, i + 3);
                        if spec_parse_value(ts, i + 3) is Ok {
                            let (v, next) = spec_parse_value(ts, i + 3)->Ok_0;
                            if i + 3 < next <= ts.len() && st1.len() >= 1 {
                                let m = st1.len() - 1;
                                lemma_map_insert_no_reserved(st1[m].1, nt.literal, v);
                                let sv2 = spec_insert_top(st1, nt.literal, v);
                                assert forall|j: int| 0 <= j < sv2.len() implies (#[trigger] sv2[
                                    j
                                ]).0 != reserved_key() && no_reserved_entries(sv2[j].1) by {
                                    if j != m {
                                        assert(sv2[j] == st1[j]);
                                    }
                                }
                                lemma_parse_at_no_reserved(ts, next, sv2, cur1);
                            }
                        }
                    }
                }
            }
        }
    } else {
        lemma_parse_at_no_reserved(ts, i + 1, sv, cur);
    }
}

/// Every key present in a parsed document passed the reserved-keyword
/// check: a successful parse never contains the reserved keyword as a map
/// key, at any depth, whether it came from a flat key or a section name.
pub proof fn lemma_parse_reserved_free(ts: Seq<TokenModel>)
    ensures
        spec_parse(ts) is Ok ==> no_reserved(spec_parse(ts)->Ok_0),
{
    let init = seq![(Seq::<char>::empty(), Seq::<(Seq<char>, Bson)>::empty())];
    assert(stack_reserved_free(init)) by {
        crate::parser::lemma_reserved_key_nonempty();
        assert(init[0].0 != reserved_key());
        assert(init[0].1.len() == 0);
    }
    lemma_parse_at_no_reserved(ts, 0, init, 0);
}

/// Serializing the empty document yields empty text, and lexing then
/// parsing the bare header line yields the empty document back: the
/// round trip is exact for a document with no keys.
pub proof fn lemma_round_trip_empty()
    ensures
        spec_ser(Bson::BMap(Seq::empty()), 0) == Seq::<char>::empty(),
        spec_lex(seq![header_lit()]) is Ok,
        spec_parse(spec_lex(seq![header_lit()])->Ok_0) == Ok::<Bson, BsonError>(
            Bson::BMap(Seq::empty()),
        ),
{
    let lines: Seq<Seq<char>> = seq![header_lit()];
    assert(spec_lex_upto(lines, 1) == Ok::<Seq<TokenModel>, BsonError>(
        seq![tok(TokenType::Header, header_lit(), 1, 0)],
    ));
    let ts = spec_lex(lines)->Ok_0;
    assert(ts == seq![tok(TokenType::Header, header_lit(), 1, 0)].push(
        tok(TokenType::Eof, Seq::empty(), 1, 0),
    ));
    let init = seq![(Seq::<char>::empty(), Seq::<(Seq<char>, Bson)>::empty())];
    assert(ts[0].ttype == TokenType::Header);
    assert(ts[1].ttype == TokenType::Eof);
    assert(spec_parse_at(ts, 1, init, 0) == Ok::<Bson, BsonError>(
        Bson::BMap(close_stack(init)),
    ));
    assert(close_stack(init) == init[0].1);
    assert(spec_parse_at(ts, 0, init, 0) == spec_parse_at(ts, 1, init, 0));
}


/// Strictly ascending keys: every earlier key is lexicographically below
/// every later one, so keys are also unique.
pub open spec fn sorted_entries(es: Seq<(Seq<char>, Bson)>) -> bool {
    forall|i: int, j: int|
        #![trigger es[i].0, es[j].0]
        0 <= i < j < es.len() ==> chars_lt(es[i].0, es[j].0)
}

/// Every map below `v`, at any depth, keeps its keys strictly sorted.
pub open spec fn sorted_doc(v: Bson) -> bool
    decreases v, 0int,
{
    match v {
        Bson::Array(items) => sorted_items(items),
        Bson::BMap(entries) => sorted_entries(entries) && sorted_entry_values(entries),
        _ => true,
    }
}

pub open spec fn sorted_items(items: Seq<Bson>) -> bool
    decreases items, 1int,
{
    items.len() == 0 || (sorted_doc(items[0]) && sorted_items(items.drop_first()))
}

pub open spec fn sorted_entry_values(es: Seq<(Seq<char>, Bson)>) -> bool
    decreases es, 1int,
{
    es.len() == 0 || (sorted_doc(es[0].1) && sorted_entry_values(es.drop_first()))
}

/// Every map on the parser's stack is sorted, inside and out.
pub open spec fn stack_sorted(sv: Seq<(Seq<char>, Seq<(Seq<char>, Bson)>)>) -> bool {
    forall|i: int|
        0 <= i < sv.len() ==> sorted_entries((#[trigger] sv[i]).1) && sorted_entry_values(sv[i].1)
}

proof fn lemma_sorted_items_push(items: Seq<Bson>, v: Bson)
    requires
        sorted_items(items),
        sorted_doc(v),
    ensures
        sorted_items(items.push(v)),
    decreases items.len(),
{
    if items.len() == 0 {
        assert(items.push(v)[0] == v);
        assert(items.push(v).drop_first() =~= Seq::<Bson>::empty());
        assert(sorted_items(items.push(v).drop_first()));
    } else {
        lemma_sorted_items_push(items.drop_first(), v);
        assert(items.push(v).drop_first() =~= items.drop_first().push(v));
        assert(items.push(v)[0] == items[0]);
        assert(sorted_items(items.push(v).drop_first()));
    }
}

proof fn lemma_map_insert_sorted(m: Seq<(Seq<char>, Bson)>, k: Seq<char>, v: Bson)
    requires
        sorted_entries(m),
        sorted_entry_values(m),
        sorted_doc(v),
    ensures
        sorted_entries(map_insert(m, k, v)),
        sorted_entry_values(map_insert(m, k, v)),
        forall|j: int|
            0 <= j < map_insert(m, k, v).len() ==> (#[trigger] map_insert(m, k, v)[j]).0 == k
                || (exists|l: int| 0 <= l < m.len() && (#[trigger] m[l]).0 == map_insert(
                m,
                k,
                v,
            )[j].0),
    decreases m.len(),
{
    let out = map_insert(m, k, v);
    if m.len() == 0 {
        assert(out[0] == (k, v));
        assert(out.drop_first() =~= Seq::<(Seq<char>, Bson)>::empty());
        assert(sorted_entry_values(out.drop_first()));
        assert(sorted_entry_values(out));
    } else if chars_lt(k, m[0].0) {
        assert(out[0] == (k, v));
        assert(out.drop_first() =~= m);
        assert(sorted_entry_values(out));
        assert forall|i: int, j: int| 0 <= i < j < out.len() implies chars_lt(
            out[i].0,
            out[j].0,
        ) by {
            if i == 0 {
                assert(out[j].0 == m[j - 1].0);
                if j > 1 {
                    lemma_chars_lt_trans(k, m[0].0, m[j - 1].0);
                }
            } else {
                assert(out[i].0 == m[i - 1].0);
                assert(out[j].0 == m[j - 1].0);
            }
        }
    } else if k == m[0].0 {
        assert(out[0] == (k, v));
        assert(out.drop_first() =~= m.drop_first());
        assert(sorted_entry_values(m.drop_first()));
        assert(sorted_entry_values(out));
        assert forall|i: int, j: int| 0 <= i < j < out.len() implies chars_lt(
            out[i].0,
            out[j].0,
        ) by {
            if i == 0 {
                assert(out[j].0 == m[j].0);
            } else {
                assert(out[i].0 == m[i].0);
                assert(out[j].0 == m[j].0);
            }
        }
    } else {
        lemma_chars_lt_trichotomy(k, m[0].0);
        assert(chars_lt(m[0].0, k));
        let rest = m.drop_first();
        assert forall|i: int, j: int| 0 <= i < j < rest.len() implies chars_lt(
            rest[i].0,
            rest[j].0,
        ) by {
            assert(rest[i] == m[i + 1]);
            assert(rest[j] == m[j + 1]);
        }
        assert(sorted_entry_values(rest));
        lemma_map_insert_sorted(rest, k, v);
        let sub = map_insert(rest, k, v);
        assert(out[0] == m[0]);
        assert(out.drop_first() =~= sub);
        assert(sorted_doc(m[0].1));
        assert(sorted_entry_values(out));
        assert forall|i: int, j: int| 0 <= i < j < out.len() implies chars_lt(
            out[i].0,
            out[j].0,
        ) by {
            if i == 0 {
                assert(out[j].0 == sub[j - 1].0);
                if sub[j - 1].0 == k {
                } else {
                    let l = choose|l: int| 0 <= l < rest.len() && rest[l].0 == sub[j - 1].0;
                    assert(rest[l] == m[l + 1]);
                }
            } else {
                assert(out[i].0 == sub[i - 1].0);
                assert(out[j].0 == sub[j - 1].0);
            }
        }
        assert forall|j: int| 0 <= j < out.len() implies (#[trigger] out[j]).0 == k || (
        exists|l: int| 0 <= l < m.len() && (#[trigger] m[l]).0 == out[j].0) by {
            if j == 0 {
                assert(m[0].0 == out[0].0);
            } else {
                assert(out[j] == sub[j - 1]);
                if sub[j - 1].0 != k {
                    let l = choose|l: int| 0 <= l < rest.len() && rest[l].0 == sub[j - 1].0;
                    assert(m[l + 1].0 == out[j].0);
                }
            }
        }
    }
}

proof fn lemma_value_sorted(ts: Seq<TokenModel>, i: int)
    ensures
        spec_parse_value(ts, i) is Ok ==> sorted_doc(spec_parse_value(ts, i)->Ok_0.0),
    decreases ts.len() - i, 0int,
{
    if 0 <= i < ts.len() && ts[i].ttype == TokenType::ArrayStart {
        lemma_elems_sorted(ts, i + 1, seq![]);
    }
}

proof fn lemma_elems_sorted(ts: Seq<TokenModel>, i: int, acc: Seq<Bson>)
    requires
        sorted_items(acc),
    ensures
        spec_parse_elems(ts, i, acc) is Ok ==> sorted_doc(spec_parse_elems(ts, i, acc)->Ok_0.0),
    decreases ts.len() - i, 1int,
{
    if 0 <= i < ts.len() {
        if ts[i].ttype == TokenType::ArrayEnd {
        } else if ts[i].ttype == TokenType::Comma {
            lemma_elems_sorted(ts, i + 1, acc);
        } else {
            lemma_value_sorted(ts, i);
            if spec_parse_value(ts, i) is Ok {
                let (v, next) = spec_parse_value(ts, i)->Ok_0;
                if i < next <= ts.len() {
                    lemma_sorted_items_push(acc, v);
                    lemma_elems_sorted(ts, next, acc.push(v));
                }
            }
        }
    }
}

proof fn lemma_pop_attach_sorted(sv: Seq<(Seq<char>, Seq<(Seq<char>, Bson)>)>)
    requires
        sv.len() >= 2,
        stack_sorted(sv),
    ensures
        stack_sorted(spec_pop_attach(sv)),
{
    let m = sv.len() - 2;
    lemma_map_insert_sorted(sv[m].1, sv[sv.len() - 1].0, Bson::BMap(sv[sv.len() - 1].1));
}

proof fn lemma_trunc_sorted(sv: Seq<(Seq<char>, Seq<(Seq<char>, Bson)>)>, n: int)
    requires
        stack_sorted(sv),
    ensures
        stack_sorted(stack_trunc(sv, n)),
    decreases sv.len(),
{
    if !(sv.len() <= n || sv.len() <= 1) {
        lemma_pop_attach_sorted(sv);
        lemma_trunc_sorted(spec_pop_attach(sv), n);
    }
}

proof fn lemma_close_sorted(sv: Seq<(Seq<char>, Seq<(Seq<char>, Bson)>)>)
    requires
        stack_sorted(sv),
    ensures
        sorted_entries(close_stack(sv)),
        sorted_entry_values(close_stack(sv)),
    decreases sv.len(),
{
    if sv.len() >= 2 {
        lemma_pop_attach_sorted(sv);
        lemma_close_sorted(spec_pop_attach(sv));
    }
}

proof fn lemma_parse_at_sorted(
    ts: Seq<TokenModel>,
    i: int,
    sv: Seq<(Seq<char>, Seq<(Seq<char>, Bson)>)>,
    cur: int,
)
    requires
        stack_sorted(sv),
    ensures
        spec_parse_at(ts, i, sv, cur) is Ok ==> sorted_doc(spec_parse_at(ts, i, sv, cur)->Ok_0),
    decreases ts.len() - i,
{
    if i < 0 || i >= ts.len() || ts[i].ttype == TokenType::Eof {
        lemma_close_sorted(sv);
    } else if ts[i].ttype == TokenType::Indent {
        if i + 1 >= ts.len() {
            lemma_close_sorted(sv);
        } else {
            let expected = ts[i].level as int;
            let nt = ts[i + 1];
            if nt.ttype == TokenType::SectionOpen {
                let d = nt.level as int;
                if expected + 1 == d && sv.len() >= d && i + 2 < ts.len() && ts[i + 2].ttype
                    == TokenType::Identifier && ts[i + 2].literal != reserved_key() && i + 3
                    < ts.len() && ts[i + 3].ttype == TokenType::SectionClose {
                    lemma_trunc_sorted(sv, d);
                    let sv1 = stack_trunc(sv, d).push((ts[i + 2].literal, seq![]));
                    assert forall|j: int| 0 <= j < sv1.len() implies sorted_entries(
                        (#[trigger] sv1[j]).1,
                    ) && sorted_entry_values(sv1[j].1) by {
                        if j < sv1.len() - 1 {
                            assert(sv1[j] == stack_trunc(sv, d)[j]);
                        } else {
                            assert(sv1[j].1 == Seq::<(Seq<char>, Bson)>::empty());
                            assert(sorted_entry_values(sv1[j].1));
                        }
                    }
                    lemma_parse_at_sorted(ts, i + 4, sv1, d);
                }
            } else if nt.ttype == TokenType::Identifier {
                if expected <= cur {
                    let st1 = if expected < cur {
                        stack_trunc(sv, expected + 1)
                    } else {
                        sv
                    };
                    let cur1 = if expected < cur {
                        expected
                    } else {
                        cur
                    };
                    lemma_trunc_sorted(sv, expected + 1);
                    if nt.literal != reserved_key() && i + 2 < ts.len() && ts[i + 2].ttype
                        == TokenType::VineWhip {
                        lemma_value_sorted(ts, i + 3);
                        if spec_parse_value(ts, i + 3) is Ok {
                            let (v, next) = spec_parse_value(ts, i + 3)->Ok_0;
                            if i + 3 < next <= ts.len() && st1.len() >= 1 {
                                let m = st1.len() - 1;
                                lemma_map_insert_sorted(st1[m].1, nt.literal, v);
                                let sv2 = spec_insert_top(st1, nt.literal, v);
                                assert forall|j: int| 0 <= j < sv2.len() implies sorted_entries(
                                    (#[trigger] sv2[j]).1,
                                ) && sorted_entry_values(sv2[j].1) by {
                                    if j != m {
                                        assert(sv2[j] == st1[j]);
                                    }
                                }
                                lemma_parse_at_sorted(ts, next, sv2, cur1);
                            }
                        }
                    }
                }
            }
        }
    } else {
        lemma_parse_at_sorted(ts, i + 1, sv, cur);
    }
}

/// A parsed document's root is always a map.
pub proof fn lemma_parse_root_is_map(ts: Seq<TokenModel>)
    ensures
        spec_parse(ts) is Ok ==> spec_parse(ts)->Ok_0 is BMap,
{
    lemma_parse_at_root_is_map(
        ts,
        0,
        seq![(Seq::<char>::empty(), Seq::<(Seq<char>, Bson)>::empty())],
        0,
    );
}

proof fn lemma_parse_at_root_is_map(
    ts: Seq<TokenModel>,
    i: int,
    sv: Seq<(Seq<char>, Seq<(Seq<char>, Bson)>)>,
    cur: int,
)
    ensures
        spec_parse_at(ts, i, sv, cur) is Ok ==> spec_parse_at(ts, i, sv, cur)->Ok_0 is BMap,
    decreases ts.len() - i,
{
    if 0 <= i < ts.len() && ts[i].ttype != TokenType::Eof {
        if ts[i].ttype == TokenType::Indent {
            if i + 1 < ts.len() {
                let expected = ts[i].level as int;
                let nt = ts[i + 1];
                if nt.ttype == TokenType::SectionOpen {
                    let d = nt.level as int;
                    if expected + 1 == d && sv.len() >= d && i + 2 < ts.len() && ts[i + 2].ttype
                        == TokenType::Identifier && ts[i + 2].literal != reserved_key() && i + 3
                        < ts.len() && ts[i + 3].ttype == TokenType::SectionClose {
                        lemma_parse_at_root_is_map(
                            ts,
                            i + 4,
                            stack_trunc(sv, d).push((ts[i + 2].literal, seq![])),
                            d,
                        );
                    }
                } else if nt.ttype == TokenType::Identifier {
                    if expected <= cur {
                        let st1 = if expected < cur {
                            stack_trunc(sv, expected + 1)
                        } else {
                            sv
                        };
                        let cur1 = if expected < cur {
                            expected
                        } else {
                            cur
                        };
                        if nt.literal != reserved_key() && i + 2 < ts.len() && ts[i + 2].ttype
                            == TokenType::VineWhip && spec_parse_value(ts, i + 3) is Ok {
                            let (v, next) = spec_parse_value(ts, i + 3)->Ok_0;
                            if i + 3 < next <= ts.len() && st1.len() >= 1 {
                                lemma_parse_at_root_is_map(
                                    ts,
                                    next,
                                    spec_insert_top(st1, nt.literal, v),
                                    cur1,
                                );
                            }
                        }
                    }
                }
            }
        } else {
            lemma_parse_at_root_is_map(ts, i + 1, sv, cur);
        }
    }
}

/// Map keys come out sorted whatever order the input wrote them in: every
/// map of a parsed document keeps its keys in strictly ascending
/// lexicographic order, so repeated serialization is stable and keys are
/// unique.
pub proof fn lemma_parse_sorted(ts: Seq<TokenModel>)
    ensures
        spec_parse(ts) is Ok ==> sorted_doc(spec_parse(ts)->Ok_0),
{
    let init = seq![(Seq::<char>::empty(), Seq::<(Seq<char>, Bson)>::empty())];
    assert(stack_sorted(init)) by {
        assert(init[0].1.len() == 0);
        assert(sorted_entry_values(init[0].1));
    }
    lemma_parse_at_sorted(ts, 0, init, 0);
}


} // verus!
