//! Structural parsing: a token sequence to a document tree, and the
//! canonical serialization of a tree back to text.
//!
//! The parser walks the tokens once, keeping a stack of the currently open
//! maps: the path from the document root to the innermost container.  A
//! section header line opens a new map one hierarchy step deeper; a flat
//! key/value line inserts into the innermost open map, de-denting first if
//! its indentation is shallower.  The whole behaviour is pinned down by
//! [`spec_parse`].
use vstd::prelude::*;

use crate::error::BsonError;
use crate::lexer::TokenType;
use crate::lexer::Token;
use crate::lexer::TokenModel;
use crate::lexer::toks_view;
use crate::text::chars_lt;
use crate::text::str_eq;
use crate::text::str_lt;

verus! {

broadcast use vstd::std_specs::vec::group_vec_axioms;

/// The mathematical image of a [`BsonValue`].  A map is a sequence of
/// key/value pairs kept sorted by key, which makes serialization order
/// deterministic.
pub ghost enum Bson {
    BString(Seq<char>),
    Number(Seq<char>),
    Bool(bool),
    Array(Seq<Bson>),
    BMap(Seq<(Seq<char>, Bson)>),
    Null,
}

/// A document value: a scalar, an ordered list, or a map from string keys
/// to values with keys unique and kept in lexicographic order.  A number
/// keeps its literal text, since the tree carries no floating point.
#[derive(Debug, PartialEq)]
pub enum BsonValue {
    BString(String),
    Number(String),
    Bool(bool),
    Array(Vec<BsonValue>),
    BMap(Vec<(String, BsonValue)>),
    Null,
}

pub open spec fn bson_view(v: BsonValue) -> Bson
    decreases v,
{
    match v {
        BsonValue::BString(s) => Bson::BString(s@),
        BsonValue::Number(s) => Bson::Number(s@),
        BsonValue::Bool(b) => Bson::Bool(b),
        BsonValue::Array(items) => Bson::Array(vals_view(items@)),
        BsonValue::BMap(entries) => Bson::BMap(entries_view(entries@)),
        BsonValue::Null => Bson::Null,
    }
}

/// The views of a sequence of values.
pub open spec fn vals_view(vs: Seq<BsonValue>) -> Seq<Bson>
    decreases vs,
{
    if vs.len() == 0 {
        Seq::empty()
    } else {
        seq![bson_view(vs[0])] + vals_view(vs.drop_first())
    }
}

/// The views of a sequence of map entries.
pub open spec fn entries_view(es: Seq<(String, BsonValue)>) -> Seq<(Seq<char>, Bson)>
    decreases es,
{
    if es.len() == 0 {
        Seq::empty()
    } else {
        seq![(es[0].0@, bson_view(es[0].1))] + entries_view(es.drop_first())
    }
}

impl View for BsonValue {
    type V = Bson;

    open spec fn view(&self) -> Bson {
        bson_view(*self)
    }
}

/// `vals_view` maps the sequence pointwise.
pub proof fn lemma_vals_view(vs: Seq<BsonValue>)
    ensures
        vals_view(vs).len() == vs.len(),
        forall|i: int| #![trigger vals_view(vs)[i]] #![trigger vs[i]] 0 <= i < vs.len()
            ==> vals_view(vs)[i] == vs[i]@,
    decreases vs.len(),
{
    if vs.len() > 0 {
        lemma_vals_view(vs.drop_first());
        assert forall|i: int| 0 <= i < vs.len() implies vals_view(vs)[i] == vs[i]@ by {
            if i > 0 {
                assert(vs.drop_first()[i - 1] == vs[i]);
                assert(vals_view(vs)[i] == vals_view(vs.drop_first())[i - 1]);
            }
        }
    }
}

/// `entries_view` maps the sequence pointwise.
pub proof fn lemma_entries_view(es: Seq<(String, BsonValue)>)
    ensures
        entries_view(es).len() == es.len(),
        forall|i: int| #![trigger entries_view(es)[i]] #![trigger es[i]] 0 <= i < es.len()
            ==> entries_view(es)[i] == (es[i].0@, es[i].1@),
    decreases es.len(),
{
    if es.len() > 0 {
        lemma_entries_view(es.drop_first());
        assert forall|i: int| 0 <= i < es.len() implies entries_view(es)[i] == (es[i].0@, es[i].1@)
            by {
            if i > 0 {
                assert(es.drop_first()[i - 1] == es[i]);
                assert(entries_view(es)[i] == entries_view(es.drop_first())[i - 1]);
            }
        }
    }
}

/// The single forbidden key.
pub open spec fn reserved_key() -> Seq<char> {
    "Charizard"@
}

/// The reserved keyword is a real, non-empty word.
pub proof fn lemma_reserved_key_nonempty()
    ensures
        reserved_key().len() == 9,
{
    reveal_strlit("Charizard");
}

/// Rejects the reserved keyword; any other key is accepted.
pub fn validate_key(key: &str) -> (r: Result<(), BsonError>)
    ensures
        r is Ok <==> key@ != reserved_key(),
        r is Err ==> r->Err_0 == BsonError::ReservedKey,
{
    if str_eq(key, "Charizard") {
        return Err(BsonError::ReservedKey);
    }
    Ok(())
}

/// Insertion into a key-sorted entry sequence: an existing key has its value
/// replaced, a new key enters at its ordered position.
pub open spec fn map_insert(m: Seq<(Seq<char>, Bson)>, k: Seq<char>, v: Bson) -> Seq<
    (Seq<char>, Bson),
>
    decreases m.len(),
{
    if m.len() == 0 {
        seq![(k, v)]
    } else if chars_lt(k, m[0].0) {
        seq![(k, v)] + m
    } else if k == m[0].0 {
        seq![(k, v)] + m.drop_first()
    } else {
        seq![m[0]] + map_insert(m.drop_first(), k, v)
    }
}

fn pair_insert(entries: &mut Vec<(String, BsonValue)>, i: usize, k: String, v: BsonValue)
    requires
        i <= old(entries)@.len(),
    ensures
        final(entries)@.len() == old(entries)@.len() + 1,
        final(entries)@[i as int].0@ == k@,
        final(entries)@[i as int].1@ == v@,
        forall|j: int| 0 <= j < i ==> final(entries)@[j] == old(entries)@[j],
        forall|j: int|
            i < j < final(entries)@.len() ==> final(entries)@[j] == old(entries)@[j - 1],
{
    entries.insert(i, (k, v));
}

fn pair_set(entries: &mut Vec<(String, BsonValue)>, i: usize, k: String, v: BsonValue)
    requires
        i < old(entries)@.len(),
    ensures
        final(entries)@.len() == old(entries)@.len(),
        final(entries)@[i as int].0@ == k@,
        final(entries)@[i as int].1@ == v@,
        forall|j: int|
            0 <= j < final(entries)@.len() && j != i ==> final(entries)@[j] == old(entries)@[j],
{
    entries.set(i, (k, v));
}

fn pair_push(entries: &mut Vec<(String, BsonValue)>, k: String, v: BsonValue)
    ensures
        final(entries)@.len() == old(entries)@.len() + 1,
        final(entries)@[old(entries)@.len() as int].0@ == k@,
        final(entries)@[old(entries)@.len() as int].1@ == v@,
        forall|j: int| 0 <= j < old(entries)@.len() ==> final(entries)@[j] == old(entries)@[j],
{
    entries.push((k, v));
}

/// Inserts `(k, v)` into a key-sorted entry vector.
fn insert_entry(entries: &mut Vec<(String, BsonValue)>, k: String, v: BsonValue)
    ensures
        entries_view(final(entries)@) == map_insert(entries_view(old(entries)@), k@, v@),
{
    let ghost m0 = entries_view(old(entries)@);
    let ghost vv = v@;
    let ghost kk = k@;
    let mut i: usize = 0;
    proof {
        lemma_entries_view(entries@);
        assert(entries@.skip(0) =~= entries@);
        assert(entries@.take(0) =~= Seq::<(String, BsonValue)>::empty());
        assert(entries_view(entries@.take(0)) + map_insert(entries_view(entries@.skip(0)), kk, vv)
            =~= map_insert(m0, kk, vv));
    }
    while i < entries.len()
        invariant
            0 <= i <= entries@.len(),
            entries@ == old(entries)@,
            kk == k@,
            vv == v@,
            m0 == entries_view(old(entries)@),
            map_insert(m0, kk, vv) == entries_view(entries@.take(i as int)) + map_insert(
                entries_view(entries@.skip(i as int)),
                kk,
                vv,
            ),
        decreases entries@.len() - i,
    {
        let ghost cur = entries@;
        let ghost rest = entries_view(cur.skip(i as int));
        let ghost pre = entries_view(cur.take(i as int));
        proof {
            lemma_entries_view(cur);
            lemma_entries_view(cur.skip(i as int));
            lemma_entries_view(cur.skip(i + 1));
            lemma_entries_view(cur.take(i as int));
            lemma_entries_view(cur.take(i + 1));
            assert(rest[0] == (cur[i as int].0@, cur[i as int].1@));
            assert(rest.drop_first() =~= entries_view(cur.skip(i + 1)));
        }
        let hit_lt = str_lt(k.as_str(), entries[i].0.as_str());
        let hit_eq = str_eq(k.as_str(), entries[i].0.as_str());
        if hit_lt {
            proof {
                assert(map_insert(rest, kk, vv) == seq![(kk, vv)] + rest);
            }
            pair_insert(entries, i, k, v);
            proof {
                lemma_entries_view(entries@);
                assert(entries_view(entries@) =~= pre + (seq![(kk, vv)] + rest));
                assert(entries_view(entries@) == map_insert(m0, kk, vv));
            }
            return ;
        }
        if hit_eq {
            proof {
                assert(map_insert(rest, kk, vv) == seq![(kk, vv)] + rest.drop_first());
            }
            pair_set(entries, i, k, v);
            proof {
                lemma_entries_view(entries@);
                assert(entries_view(entries@) =~= pre + (seq![(kk, vv)] + rest.drop_first()));
                assert(entries_view(entries@) == map_insert(m0, kk, vv));
            }
            return ;
        }
        proof {
            assert(map_insert(rest, kk, vv) == seq![rest[0]] + map_insert(
                rest.drop_first(),
                kk,
                vv,
            ));
            assert(pre + (seq![rest[0]] + map_insert(entries_view(cur.skip(i + 1)), kk, vv))
                =~= entries_view(cur.take(i + 1)) + map_insert(
                entries_view(cur.skip(i + 1)),
                kk,
                vv,
            ));
        }
        i = i + 1;
    }
    proof {
        assert(entries@.skip(i as int).len() == 0);
        assert(map_insert(entries_view(entries@.skip(i as int)), kk, vv) == seq![(kk, vv)]);
    }
    let ghost cur = entries@;
    pair_push(entries, k, v);
    proof {
        lemma_entries_view(cur);
        lemma_entries_view(entries@);
        assert(cur.take(cur.len() as int) =~= cur);
        assert(entries_view(entries@) =~= entries_view(cur) + seq![(kk, vv)]);
        assert(entries_view(entries@) == map_insert(m0, kk, vv));
    }
}

/// The value a scalar or array token sequence denotes, starting at token
/// `i`, together with the index of the first token after it.
pub open spec fn spec_parse_value(ts: Seq<TokenModel>, i: int) -> Result<(Bson, int), BsonError>
    decreases ts.len() - i, 0int,
{
    if i < 0 || i >= ts.len() {
        Err(BsonError::BadSyntax)
    } else {
        let t = ts[i];
        if t.ttype == TokenType::TString {
            Ok((Bson::BString(t.literal), i + 1))
        } else if t.ttype == TokenType::Number {
            Ok((Bson::Number(t.literal), i + 1))
        } else if t.ttype == TokenType::Bool {
            Ok((Bson::Bool(t.literal == "true"@), i + 1))
        } else if t.ttype == TokenType::Null {
            Ok((Bson::Null, i + 1))
        } else if t.ttype == TokenType::ArrayStart {
            spec_parse_elems(ts, i + 1, seq![])
        } else {
            Err(BsonError::BadValue)
        }
    }
}

/// The elements of an array, accumulated until the closing token; reaching
/// the end of the tokens first is the unterminated-array failure.
pub open spec fn spec_parse_elems(ts: Seq<TokenModel>, i: int, acc: Seq<Bson>) -> Result<
    (Bson, int),
    BsonError,
>
    decreases ts.len() - i, 1int,
{
    if i < 0 || i >= ts.len() {
        Err(BsonError::BadValue)
    } else if ts[i].ttype == TokenType::ArrayEnd {
        Ok((Bson::Array(acc), i + 1))
    } else if ts[i].ttype == TokenType::Comma {
        spec_parse_elems(ts, i + 1, acc)
    } else {
        match spec_parse_value(ts, i) {
            Err(e) => Err(e),
            Ok((v, next)) => if i < next <= ts.len() {
                spec_parse_elems(ts, next, acc.push(v))
            } else {
                Err(BsonError::BadValue)
            },
        }
    }
}

/// A successfully parsed value always consumes at least one token and never
/// runs past the end.
pub proof fn lemma_parse_value_bounds(ts: Seq<TokenModel>, i: int)
    ensures
        spec_parse_value(ts, i) is Ok ==> i < spec_parse_value(ts, i)->Ok_0.1 <= ts.len(),
    decreases ts.len() - i, 0int,
{
    if 0 <= i < ts.len() && ts[i].ttype == TokenType::ArrayStart {
        lemma_parse_elems_bounds(ts, i + 1, seq![]);
    }
}

pub proof fn lemma_parse_elems_bounds(ts: Seq<TokenModel>, i: int, acc: Seq<Bson>)
    ensures
        spec_parse_elems(ts, i, acc) is Ok ==> i < spec_parse_elems(ts, i, acc)->Ok_0.1
            <= ts.len(),
    decreases ts.len() - i, 1int,
{
    if 0 <= i < ts.len() {
        if ts[i].ttype == TokenType::ArrayEnd {
        } else if ts[i].ttype == TokenType::Comma {
            lemma_parse_elems_bounds(ts, i + 1, acc);
        } else {
            lemma_parse_value_bounds(ts, i);
            if spec_parse_value(ts, i) is Ok {
                let (v, next) = spec_parse_value(ts, i)->Ok_0;
                if next > i {
                    lemma_parse_elems_bounds(ts, next, acc.push(v));
                }
            }
        }
    }
}

/// Parses one value starting at token `idx`; on success also returns the
/// index of the first token after it.
pub fn parse_value_from_tokens(tokens: &Vec<Token>, idx: usize) -> (r: Result<
    (BsonValue, usize),
    BsonError,
>)
    ensures
        r is Ok ==> spec_parse_value(toks_view(tokens@), idx as int) is Ok && (r->Ok_0.0@, r->Ok_0.1
            as int) == spec_parse_value(toks_view(tokens@), idx as int)->Ok_0,
        r is Err ==> spec_parse_value(toks_view(tokens@), idx as int) == Err::<
            (Bson, int),
            BsonError,
        >(r->Err_0),
    decreases tokens@.len() - idx,
{
    let ghost tv = toks_view(tokens@);
    if idx >= tokens.len() {
        return Err(BsonError::BadSyntax);
    }
    proof {
        assert(tv[idx as int] == tokens@[idx as int]@);
    }
    let tt = tokens[idx].ttype;
    if tt == TokenType::TString {
        return Ok((BsonValue::BString(tokens[idx].literal.clone()), idx + 1));
    }
    if tt == TokenType::Number {
        return Ok((BsonValue::Number(tokens[idx].literal.clone()), idx + 1));
    }
    if tt == TokenType::Bool {
        let b = str_eq(tokens[idx].literal.as_str(), "true");
        return Ok((BsonValue::Bool(b), idx + 1));
    }
    if tt == TokenType::Null {
        return Ok((BsonValue::Null, idx + 1));
    }
    if tt == TokenType::ArrayStart {
        let mut curr = idx + 1;
        let mut arr: Vec<BsonValue> = Vec::new();
        proof {
            assert(vals_view(arr@) =~= Seq::<Bson>::empty());
        }
        while curr < tokens.len()
            invariant
                idx < curr <= tokens@.len(),
                tv == toks_view(tokens@),
                spec_parse_value(tv, idx as int) == spec_parse_elems(tv, idx + 1, seq![]),
                spec_parse_elems(tv, idx + 1, seq![]) == spec_parse_elems(
                    tv,
                    curr as int,
                    vals_view(arr@),
                ),
            decreases tokens@.len() - curr,
        {
            proof {
                assert(tv[curr as int] == tokens@[curr as int]@);
            }
            let ct = tokens[curr].ttype;
            if ct == TokenType::ArrayEnd {
                let ghost av = vals_view(arr@);
                proof {
                    assert(spec_parse_elems(tv, curr as int, av) == Ok::<(Bson, int), BsonError>(
                        (Bson::Array(av), curr + 1),
                    ));
                }
                let out = BsonValue::Array(arr);
                proof {
                    assert(out@ == Bson::Array(av));
                }
                return Ok((out, curr + 1));
            }
            if ct == TokenType::Comma {
                curr = curr + 1;
                continue ;
            }
            match parse_value_from_tokens(tokens, curr) {
                Ok((value, next_idx)) => {
                    proof {
                        lemma_parse_value_bounds(tv, curr as int);
                        lemma_vals_view(arr@);
                        lemma_vals_view(arr@.push(value));
                        assert(vals_view(arr@).push(value@) =~= vals_view(arr@.push(value)));
                    }
                    arr.push(value);
                    curr = next_idx;
                },
                Err(e) => {
                    proof {
                        assert(spec_parse_elems(tv, curr as int, vals_view(arr@)) == Err::<
                            (Bson, int),
                            BsonError,
                        >(e));
                    }
                    return Err(e);
                },
            }
        }
        return Err(BsonError::BadValue);
    }
    Err(BsonError::BadValue)
}


/// The view of the parser's stack of open containers: for each entry, the
/// key it will be attached under and its map contents so far.  Entry 0 is
/// the document root, whose key is never used.
pub open spec fn stack_view(st: Seq<(String, Vec<(String, BsonValue)>)>) -> Seq<
    (Seq<char>, Seq<(Seq<char>, Bson)>),
> {
    Seq::new(st.len(), |i: int| (st[i].0@, entries_view(st[i].1@)))
}

/// Closes the innermost open container: the top of the stack becomes a map
/// value inserted into the entry below it, under the top's key.
pub open spec fn spec_pop_attach(sv: Seq<(Seq<char>, Seq<(Seq<char>, Bson)>)>) -> Seq<
    (Seq<char>, Seq<(Seq<char>, Bson)>),
>
    recommends
        sv.len() >= 2,
{
    let top = sv[sv.len() - 1];
    let below = sv[sv.len() - 2];
    sv.drop_last().update(sv.len() - 2, (below.0, map_insert(below.1, top.0, Bson::BMap(top.1))))
}

/// Closes open containers until at most `n` (and at least the root) remain.
pub open spec fn stack_trunc(sv: Seq<(Seq<char>, Seq<(Seq<char>, Bson)>)>, n: int) -> Seq<
    (Seq<char>, Seq<(Seq<char>, Bson)>),
>
    decreases sv.len(),
{
    if sv.len() <= n || sv.len() <= 1 {
        sv
    } else {
        stack_trunc(spec_pop_attach(sv), n)
    }
}

/// Closes every open container and returns the root's entries.
pub open spec fn close_stack(sv: Seq<(Seq<char>, Seq<(Seq<char>, Bson)>)>) -> Seq<
    (Seq<char>, Bson),
>
    decreases sv.len(),
{
    if sv.len() == 0 {
        seq![]
    } else if sv.len() == 1 {
        sv[0].1
    } else {
        close_stack(spec_pop_attach(sv))
    }
}

/// Inserts `(k, v)` into the innermost open container.
pub open spec fn spec_insert_top(
    sv: Seq<(Seq<char>, Seq<(Seq<char>, Bson)>)>,
    k: Seq<char>,
    v: Bson,
) -> Seq<(Seq<char>, Seq<(Seq<char>, Bson)>)>
    recommends
        sv.len() >= 1,
{
    let m = sv.len() - 1;
    sv.update(m, (sv[m].0, map_insert(sv[m].1, k, v)))
}

/// The document the tokens from index `i` onward produce, given the open
/// containers `st` and the current flat-key level `cur`.  The input ends at
/// an end-of-input token or at the end of the sequence; every remaining
/// open container is then closed and the root map is the result.
pub open spec fn spec_parse_at(
    ts: Seq<TokenModel>,
    i: int,
    st: Seq<(Seq<char>, Seq<(Seq<char>, Bson)>)>,
    cur: int,
) -> Result<Bson, BsonError>
    decreases ts.len() - i,
{
    if i < 0 || i >= ts.len() || ts[i].ttype == TokenType::Eof {
        Ok(Bson::BMap(close_stack(st)))
    } else if ts[i].ttype == TokenType::Indent {
        if i + 1 >= ts.len() {
            Ok(Bson::BMap(close_stack(st)))
        } else {
            let expected = ts[i].level as int;
            let nt = ts[i + 1];
            if nt.ttype == TokenType::SectionOpen {
                let d = nt.level as int;
                if expected + 1 != d {
                    Err(BsonError::BadHierarchy)
                } else if st.len() < d {
                    Err(BsonError::MissingAncestors)
                } else if i + 2 >= ts.len() || ts[i + 2].ttype != TokenType::Identifier {
                    Err(BsonError::BadSyntax)
                } else if ts[i + 2].literal == reserved_key() {
                    Err(BsonError::ReservedKey)
                } else if i + 3 >= ts.len() || ts[i + 3].ttype != TokenType::SectionClose {
                    Err(BsonError::BadSyntax)
                } else {
                    spec_parse_at(
                        ts,
                        i + 4,
                        stack_trunc(st, d).push((ts[i + 2].literal, seq![])),
                        d,
                    )
                }
            } else if nt.ttype == TokenType::Identifier {
                if expected > cur {
                    Err(BsonError::BadHierarchy)
                } else {
                    let st1 = if expected < cur {
                        stack_trunc(st, expected + 1)
                    } else {
                        st
                    };
                    let cur1 = if expected < cur {
                        expected
                    } else {
                        cur
                    };
                    if nt.literal == reserved_key() {
                        Err(BsonError::ReservedKey)
                    } else if i + 2 >= ts.len() || ts[i + 2].ttype != TokenType::VineWhip {
                        Err(BsonError::BadSyntax)
                    } else {
                        match spec_parse_value(ts, i + 3) {
                            Err(e) => Err(e),
                            Ok((v, next)) => if i + 3 < next <= ts.len() && st1.len() >= 1 {
                                spec_parse_at(ts, next, spec_insert_top(st1, nt.literal, v), cur1)
                            } else {
                                Err(BsonError::BadSyntax)
                            },
                        }
                    }
                }
            } else {
                Err(BsonError::BadSyntax)
            }
        }
    } else {
        spec_parse_at(ts, i + 1, st, cur)
    }
}

/// The document a whole token sequence produces: a single forward pass from
/// an empty root map.
pub open spec fn spec_parse(ts: Seq<TokenModel>) -> Result<Bson, BsonError> {
    spec_parse_at(ts, 0, seq![(Seq::<char>::empty(), Seq::<(Seq<char>, Bson)>::empty())], 0)
}

fn push_entry(
    stack: &mut Vec<(String, Vec<(String, BsonValue)>)>,
    k: String,
    m: Vec<(String, BsonValue)>,
)
    ensures
        final(stack)@.len() == old(stack)@.len() + 1,
        final(stack)@[old(stack)@.len() as int].0@ == k@,
        final(stack)@[old(stack)@.len() as int].1@ == m@,
        forall|j: int| 0 <= j < old(stack)@.len() ==> final(stack)@[j] == old(stack)@[j],
{
    stack.push((k, m));
}

/// Pops the innermost open container and attaches it, as a map, to its
/// parent below.
fn pop_attach(stack: &mut Vec<(String, Vec<(String, BsonValue)>)>)
    requires
        old(stack)@.len() >= 2,
    ensures
        final(stack)@.len() == old(stack)@.len() - 1,
        stack_view(final(stack)@) == spec_pop_attach(stack_view(old(stack)@)),
{
    let ghost sv0 = stack_view(stack@);
    let top = stack.pop().unwrap();
    let (tk, tm) = top;
    let parent = stack.pop().unwrap();
    let (pk, mut pm) = parent;
    let child = BsonValue::BMap(tm);
    proof {
        assert(child@ == Bson::BMap(entries_view(child->BMap_0@)));
    }
    insert_entry(&mut pm, tk, child);
    push_entry(stack, pk, pm);
    proof {
        assert(stack_view(stack@) =~= spec_pop_attach(sv0));
    }
}

/// Closes open containers until at most `n` remain on the stack.
fn trunc_stack(stack: &mut Vec<(String, Vec<(String, BsonValue)>)>, n: usize)
    requires
        old(stack)@.len() >= 1,
        n >= 1,
    ensures
        final(stack)@.len() >= 1,
        final(stack)@.len() <= old(stack)@.len(),
        old(stack)@.len() >= n ==> final(stack)@.len() == n,
        old(stack)@.len() < n ==> final(stack)@.len() == old(stack)@.len(),
        stack_view(final(stack)@) == stack_trunc(stack_view(old(stack)@), n as int),
{
    while stack.len() > n
        invariant
            stack@.len() >= 1,
            n >= 1,
            stack@.len() <= old(stack)@.len(),
            old(stack)@.len() >= n ==> stack@.len() >= n,
            old(stack)@.len() < n ==> stack@.len() == old(stack)@.len(),
            stack_trunc(stack_view(stack@), n as int) == stack_trunc(
                stack_view(old(stack)@),
                n as int,
            ),
        decreases stack@.len(),
    {
        pop_attach(stack);
    }
}

/// Closes everything that is still open and returns the finished document.
fn finish_stack(mut stack: Vec<(String, Vec<(String, BsonValue)>)>) -> (r: BsonValue)
    requires
        stack@.len() >= 1,
    ensures
        r@ == Bson::BMap(close_stack(stack_view(stack@))),
{
    let ghost target = close_stack(stack_view(stack@));
    while stack.len() > 1
        invariant
            stack@.len() >= 1,
            close_stack(stack_view(stack@)) == target,
        decreases stack@.len(),
    {
        pop_attach(&mut stack);
    }
    let root = stack.pop().unwrap();
    let (_k, entries) = root;
    let out = BsonValue::BMap(entries);
    proof {
        assert(out@ == Bson::BMap(entries_view(out->BMap_0@)));
    }
    out
}

/// Inserts `(key, val)` into the innermost open container.
fn insert_top(stack: &mut Vec<(String, Vec<(String, BsonValue)>)>, key: String, val: BsonValue)
    requires
        old(stack)@.len() >= 1,
    ensures
        final(stack)@.len() == old(stack)@.len(),
        stack_view(final(stack)@) == spec_insert_top(stack_view(old(stack)@), key@, val@),
{
    let ghost sv0 = stack_view(stack@);
    let top = stack.pop().unwrap();
    let (tk, mut tm) = top;
    insert_entry(&mut tm, key, val);
    push_entry(stack, tk, tm);
    proof {
        assert(stack_view(stack@) =~= spec_insert_top(sv0, key@, val@));
    }
}

/// Parses a whole token sequence into one root document value.
pub fn parse(tokens: &Vec<Token>) -> (r: Result<BsonValue, BsonError>)
    ensures
        r is Ok <==> spec_parse(toks_view(tokens@)) is Ok,
        r is Ok ==> r->Ok_0@ == spec_parse(toks_view(tokens@))->Ok_0,
        r is Err ==> r->Err_0 == spec_parse(toks_view(tokens@))->Err_0,
{
    let ghost tv = toks_view(tokens@);
    let mut stack: Vec<(String, Vec<(String, BsonValue)>)> = Vec::new();
    push_entry(&mut stack, String::new(), Vec::new());
    proof {
        assert(stack_view(stack@) =~= seq![
            (Seq::<char>::empty(), Seq::<(Seq<char>, Bson)>::empty()),
        ]);
    }
    let mut current_level: usize = 0;
    let mut i: usize = 0;
    while i < tokens.len()
        invariant
            stack@.len() >= 1,
            tv == toks_view(tokens@),
            i <= tokens@.len(),
            spec_parse(tv) == spec_parse_at(tv, i as int, stack_view(stack@), current_level as int),
        decreases tokens@.len() - i,
    {
        proof {
            assert(tv[i as int] == tokens@[i as int]@);
        }
        let tt = tokens[i].ttype;
        if tt == TokenType::Eof {
            return Ok(finish_stack(stack));
        }
        if tt == TokenType::Indent {
            if tokens.len() - i <= 1 {
                return Ok(finish_stack(stack));
            }
            proof {
                assert(tv[i + 1] == tokens@[i + 1]@);
            }
            let expected = tokens[i].level;
            let nt_tt = tokens[i + 1].ttype;
            if nt_tt == TokenType::SectionOpen {
                let d = tokens[i + 1].level;
                if !(d >= 1 && expected == d - 1) {
                    return Err(BsonError::BadHierarchy);
                }
                if stack.len() < d {
                    return Err(BsonError::MissingAncestors);
                }
                if tokens.len() - i <= 2 {
                    return Err(BsonError::BadSyntax);
                }
                proof {
                    assert(tv[i + 2] == tokens@[i + 2]@);
                }
                if !(tokens[i + 2].ttype == TokenType::Identifier) {
                    return Err(BsonError::BadSyntax);
                }
                match validate_key(tokens[i + 2].literal.as_str()) {
                    Err(e) => {
                        return Err(e);
                    },
                    Ok(()) => {},
                }
                if tokens.len() - i <= 3 {
                    return Err(BsonError::BadSyntax);
                }
                proof {
                    assert(tv[i + 3] == tokens@[i + 3]@);
                }
                if !(tokens[i + 3].ttype == TokenType::SectionClose) {
                    return Err(BsonError::BadSyntax);
                }
                let ghost sv_before = stack_view(stack@);
                trunc_stack(&mut stack, d);
                let key = tokens[i + 2].literal.clone();
                push_entry(&mut stack, key, Vec::new());
                proof {
                    assert(stack_view(stack@) =~= stack_trunc(sv_before, d as int).push(
                        (tv[i + 2].literal, Seq::<(Seq<char>, Bson)>::empty()),
                    ));
                }
                current_level = d;
                i = i + 4;
                continue ;
            }
            if nt_tt == TokenType::Identifier {
                if expected != current_level {
                    if expected < current_level {
                        trunc_stack(&mut stack, expected + 1);
                        current_level = expected;
                    } else {
                        return Err(BsonError::BadHierarchy);
                    }
                }
                match validate_key(tokens[i + 1].literal.as_str()) {
                    Err(e) => {
                        return Err(e);
                    },
                    Ok(()) => {},
                }
                if tokens.len() - i <= 2 {
                    return Err(BsonError::BadSyntax);
                }
                proof {
                    assert(tv[i + 2] == tokens@[i + 2]@);
                }
                if !(tokens[i + 2].ttype == TokenType::VineWhip) {
                    return Err(BsonError::BadSyntax);
                }
                match parse_value_from_tokens(tokens, i + 3) {
                    Ok((value, next_idx)) => {
                        proof {
                            lemma_parse_value_bounds(tv, i + 3);
                        }
                        let key = tokens[i + 1].literal.clone();
                        insert_top(&mut stack, key, value);
                        i = next_idx;
                    },
                    Err(e) => {
                        return Err(e);
                    },
                }
                continue ;
            }
            return Err(BsonError::BadSyntax);
        }
        i = i + 1;
    }
    Ok(finish_stack(stack))
}



/// Four spaces of indentation per nesting level.
pub open spec fn spec_indent(level: nat) -> Seq<char>
    decreases level,
{
    if level == 0 {
        Seq::empty()
    } else {
        spec_indent((level - 1) as nat) + "    "@
    }
}

/// The same-line textual form of a scalar: a leading space and its text,
/// nothing at all for a null.
pub open spec fn spec_scalar_text(v: Bson) -> Seq<char> {
    match v {
        Bson::BString(s) => " "@ + s,
        Bson::Number(s) => " "@ + s,
        Bson::Bool(b) => if b {
            " true"@
        } else {
            " false"@
        },
        _ => Seq::empty(),
    }
}

/// The canonical text of a value at the given indentation level: maps one
/// key per line in stored (lexicographic) order, arrays one dash-prefixed
/// line per element, scalars on the line they complete.
pub open spec fn spec_ser(v: Bson, level: nat) -> Seq<char>
    decreases v, 0int,
{
    match v {
        Bson::Array(items) => "\n"@ + spec_ser_items(items, level),
        Bson::BMap(entries) => spec_ser_entries(entries, level),
        _ => spec_indent(level) + spec_scalar_text(v) + "\n"@,
    }
}

/// The lines of an array's elements, each behind a dash at the array's own
/// indentation: a nested map recurses one level deeper, a nested array
/// keeps the same level, a scalar completes the dash's line.
pub open spec fn spec_ser_items(items: Seq<Bson>, level: nat) -> Seq<char>
    decreases items, 1int,
{
    if items.len() == 0 {
        Seq::empty()
    } else {
        let head = items[0];
        let tail_text = spec_ser_items(items.drop_first(), level);
        let head_text = spec_indent(level) + "-"@ + (match head {
            Bson::BMap(_) => "\n"@ + spec_ser(head, (level + 1) as nat),
            Bson::Array(_) => spec_ser(head, level),
            _ => spec_ser(head, 0),
        });
        head_text + tail_text
    }
}

/// The lines of a map's entries, in stored order: a nested map recurses
/// one level deeper, an array keeps its key's level for its dash lines, a
/// scalar completes the key's line.
pub open spec fn spec_ser_entries(entries: Seq<(Seq<char>, Bson)>, level: nat) -> Seq<char>
    decreases entries, 1int,
{
    if entries.len() == 0 {
        Seq::empty()
    } else {
        let k = entries[0].0;
        let v = entries[0].1;
        let tail_text = spec_ser_entries(entries.drop_first(), level);
        let head_text = spec_indent(level) + k + ":"@ + (match v {
            Bson::BMap(_) => "\n"@ + spec_ser(v, (level + 1) as nat),
            Bson::Array(_) => spec_ser(v, level),
            _ => spec_ser(v, 0),
        });
        head_text + tail_text
    }
}

/// Renders `bson` at the ghost level `level`, whose indentation text is
/// `indent`, appending to `result`.
#[verifier::loop_isolation(false)]
#[verifier::rlimit(60)]
fn to_string_rec(bson: &BsonValue, indent: &String, Ghost(level): Ghost<nat>, result: &mut String)
    requires
        indent@ == spec_indent(level),
    ensures
        final(result)@ == old(result)@ + spec_ser(bson@, level),
    decreases bson,
{
    match bson {
        BsonValue::Array(items) => {
            result.append("\n");
            let mut deeper = indent.clone();
            deeper.append("    ");
            let zero = String::new();
            let ghost iv = vals_view(items@);
            proof {
                lemma_vals_view(items@);
                assert(bson@ == Bson::Array(iv));
                assert(iv.skip(0) =~= iv);
                assert(result@ + spec_ser_items(iv.skip(0), level) =~= old(result)@ + spec_ser(
                    Bson::Array(iv),
                    level,
                ));
            }
            let mut idx: usize = 0;
            while idx < items.len()
                invariant
                    0 <= idx <= items@.len(),
                    result@ + spec_ser_items(iv.skip(idx as int), level) == old(result)@
                        + spec_ser(bson@, level),
                decreases items@.len() - idx,
            {
                let ghost r0 = result@;
                proof {
                    assert(iv.skip(idx as int)[0] == items@[idx as int]@);
                    assert(iv.skip(idx as int).drop_first() =~= iv.skip(idx + 1));
                }
                result.append(indent.as_str());
                result.append("-");
                let elem = &items[idx];
                if matches!(elem, BsonValue::BMap(_)) {
                    result.append("\n");
                    to_string_rec(elem, &deeper, Ghost((level + 1) as nat), result);
                } else if matches!(elem, BsonValue::Array(_)) {
                    to_string_rec(elem, indent, Ghost(level), result);
                } else {
                    to_string_rec(elem, &zero, Ghost(0nat), result);
                }
                proof {
                    assert(result@ + spec_ser_items(iv.skip(idx + 1), level) =~= r0
                        + spec_ser_items(iv.skip(idx as int), level));
                }
                idx = idx + 1;
            }
            proof {
                assert(iv.skip(items@.len() as int) =~= Seq::<Bson>::empty());
                assert(result@ =~= result@ + spec_ser_items(iv.skip(items@.len() as int), level));
            }
        },
        BsonValue::BMap(entries) => {
            let mut deeper = indent.clone();
            deeper.append("    ");
            let zero = String::new();
            let ghost ev = entries_view(entries@);
            proof {
                lemma_entries_view(entries@);
                assert(bson@ == Bson::BMap(ev));
                assert(ev.skip(0) =~= ev);
            }
            let mut idx: usize = 0;
            while idx < entries.len()
                invariant
                    0 <= idx <= entries@.len(),
                    result@ + spec_ser_entries(ev.skip(idx as int), level) == old(result)@
                        + spec_ser(bson@, level),
                decreases entries@.len() - idx,
            {
                let ghost r0 = result@;
                proof {
                    assert(ev.skip(idx as int)[0] == (entries@[idx as int].0@, entries@[
                        idx as int
                    ].1@));
                    assert(ev.skip(idx as int).drop_first() =~= ev.skip(idx + 1));
                }
                result.append(indent.as_str());
                result.append(entries[idx].0.as_str());
                result.append(":");
                let val = &entries[idx].1;
                if matches!(val, BsonValue::BMap(_)) {
                    result.append("\n");
                    to_string_rec(val, &deeper, Ghost((level + 1) as nat), result);
                } else if matches!(val, BsonValue::Array(_)) {
                    to_string_rec(val, indent, Ghost(level), result);
                } else {
                    to_string_rec(val, &zero, Ghost(0nat), result);
                }
                proof {
                    assert(result@ + spec_ser_entries(ev.skip(idx + 1), level) =~= r0
                        + spec_ser_entries(ev.skip(idx as int), level));
                }
                idx = idx + 1;
            }
            proof {
                assert(ev.skip(entries@.len() as int) =~= Seq::<(Seq<char>, Bson)>::empty());
                assert(result@ =~= result@ + spec_ser_entries(
                    ev.skip(entries@.len() as int),
                    level,
                ));
            }
        },
        BsonValue::BString(st) => {
            result.append(indent.as_str());
            result.append(" ");
            result.append(st.as_str());
            result.append("\n");
            proof {
                assert(result@ =~= old(result)@ + spec_ser(bson@, level));
            }
        },
        BsonValue::Number(st) => {
            result.append(indent.as_str());
            result.append(" ");
            result.append(st.as_str());
            result.append("\n");
            proof {
                assert(result@ =~= old(result)@ + spec_ser(bson@, level));
            }
        },
        BsonValue::Bool(b) => {
            result.append(indent.as_str());
            if *b {
                result.append(" true");
            } else {
                result.append(" false");
            }
            result.append("\n");
            proof {
                assert(result@ =~= old(result)@ + spec_ser(bson@, level));
            }
        },
        BsonValue::Null => {
            result.append(indent.as_str());
            result.append("\n");
            proof {
                assert(result@ =~= old(result)@ + spec_ser(bson@, level));
            }
        },
    }
}

impl BsonValue {
    /// The canonical text of the document: a total function with no failure
    /// modes.
    pub fn to_string(&self) -> (r: String)
        ensures
            r@ == spec_ser(self@, 0),
    {
        let mut result = String::new();
        let indent = String::new();
        to_string_rec(self, &indent, Ghost(0nat), &mut result);
        result
    }
}


} // verus!
