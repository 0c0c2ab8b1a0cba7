//! Parsing a whole query: terms `key:value`, `key:>value` or `key:<value`
//! separated by whitespace, each key a dotted path.

use vstd::prelude::*;
use vstd::utf8::*;
use vstd::string::*;
use vstd::slice::slice_subrange;
use crate::lexer::{
    lexString, lex_would_abort, lex_spec, lex_aborts, lemma_lex_progress, lemma_lex_shift, lemma_lex_extend,
    LexOutcome, QueryComparison, QueryOp,
};
use crate::text::{is_ascii_ws, utf8_slice, usize_decimal, decimal_text, split_seq, split_str, is_utf8};

verus! {

broadcast use vstd::utf8::group_utf8_lib;

/// A parsed query term as values: the key path, the value and the operator.
pub struct ComparisonModel {
    pub key: Seq<Seq<char>>,
    pub value: Seq<char>,
    pub op: QueryOp,
}

/// What parsing a query gives: its terms, a message refusing it, or a stop
/// of the program (an index past the end, text that is not UTF-8).
pub enum ParseOutcome {
    Parsed(Seq<ComparisonModel>),
    Rejected(Seq<char>),
    Aborts,
}

/// How `{:?}` writes a string: quoted, with escapes.
pub uninterp spec fn str_debug_text(s: Seq<char>) -> Seq<char>;

/// `format!("{:?}", s)` for a string slice. Its text (quotes, escapes) is
/// named, not spelled out.
#[verifier::external_body]
fn debug_text(s: &str) -> (r: String)
    ensures
        r@ == str_debug_text(s@),
{
    format!("{:?}", s)
}

/// The first position at or after `i` that holds no ASCII whitespace, or the length.
pub open spec fn skip_ws(s: Seq<u8>, i: int) -> int
    decreases s.len() - i,
{
    if i >= s.len() {
        s.len() as int
    } else if !is_ascii_ws(s[i]) {
        i
    } else {
        skip_ws(s, i + 1)
    }
}

/// `skip_ws` stops at the first byte that is not whitespace.
pub proof fn lemma_skip_ws(s: Seq<u8>, i: int)
    requires
        0 <= i <= s.len(),
    ensures
        i <= skip_ws(s, i) <= s.len(),
        forall|j: int| i <= j < skip_ws(s, i) ==> is_ascii_ws(#[trigger] s[j]),
        skip_ws(s, i) < s.len() ==> !is_ascii_ws(s[skip_ws(s, i)]),
    decreases s.len() - i,
{
    if i < s.len() && is_ascii_ws(s[i]) {
        lemma_skip_ws(s, i + 1);
    }
}

/// The key path that the key text `s` names: its pieces between dots.
pub open spec fn split_key_spec(key: Seq<char>) -> Seq<Seq<char>> {
    split_seq(key, '.')
}

/// The message refusing a query whose key cannot be lexed.
pub open spec fn key_error_text(rest: Seq<char>) -> Seq<char> {
    "Expected valid key, got `"@ + str_debug_text(rest) + "` instead"@
}

/// The message refusing a query whose key is not followed by a colon.
pub open spec fn colon_error_text(at: nat) -> Seq<char> {
    "Expected colon at index : "@ + decimal_text(at)
}

/// The message refusing a query whose value cannot be lexed.
pub open spec fn value_error_text(key: Seq<char>, rest: Seq<char>) -> Seq<char> {
    "Expected valid value for "@ + key + ", got `"@ + rest + "` instead"@
}

/// The operator after a key's colon at `i`, and where its value starts.
pub open spec fn op_at(s: Seq<u8>, i: int) -> (QueryOp, int) {
    if s[i] == 0x3e {
        (QueryOp::Greater, i + 1)
    } else if s[i] == 0x3c {
        (QueryOp::Less, i + 1)
    } else {
        (QueryOp::Equal, i)
    }
}

/// The text of `s` from `at` on, when it is UTF-8: the error messages quote it.
pub open spec fn rest_is_text(s: Seq<u8>, at: int) -> bool {
    valid_utf8(s.subrange(at, s.len() as int))
}

/// Parsing the query `s` from position `i`, with the terms `acc` read so far.
pub open spec fn parse_from(s: Seq<u8>, i: int, acc: Seq<ComparisonModel>) -> ParseOutcome
    decreases s.len() - i,
    when 0 <= i
{
    if i >= s.len() {
        ParseOutcome::Parsed(acc)
    } else {
        let j = skip_ws(s, i);
        proof {
            lemma_skip_ws(s, i);
            lemma_lex_progress(s, j);
        }
        if j >= s.len() || lex_aborts(s, j) {
            ParseOutcome::Aborts
        } else {
            match lex_spec(s, j) {
                LexOutcome::Failed { at, .. } => if rest_is_text(s, at) {
                    ParseOutcome::Rejected(key_error_text(decode_utf8(s.subrange(at, s.len() as int))))
                } else {
                    ParseOutcome::Aborts
                },
                LexOutcome::Found { start: ks, end: ke, next: kn } => {
                    if kn >= s.len() {
                        ParseOutcome::Aborts
                    } else if s[kn] != 0x3a {
                        ParseOutcome::Rejected(colon_error_text(kn as nat))
                    } else if kn + 1 >= s.len() {
                        ParseOutcome::Aborts
                    } else {
                        let (op, vi) = op_at(s, kn + 1);
                        proof {
                            lemma_lex_progress(s, vi);
                        }
                        if lex_aborts(s, vi) {
                            ParseOutcome::Aborts
                        } else {
                            match lex_spec(s, vi) {
                                LexOutcome::Failed { at, .. } => if rest_is_text(s, at) {
                                    ParseOutcome::Rejected(
                                        value_error_text(
                                            decode_utf8(s.subrange(ks, ke)),
                                            decode_utf8(s.subrange(at, s.len() as int)),
                                        ),
                                    )
                                } else {
                                    ParseOutcome::Aborts
                                },
                                LexOutcome::Found { start: vs, end: ve, next: vn } => {
                                    let c = ComparisonModel {
                                        key: split_key_spec(decode_utf8(s.subrange(ks, ke))),
                                        value: decode_utf8(s.subrange(vs, ve)),
                                        op,
                                    };
                                    parse_from(s, vn, acc.push(c))
                                },
                            }
                        }
                    }
                },
            }
        }
    }
}

/// Parsing the whole query.
pub open spec fn parse_spec(s: Seq<u8>) -> ParseOutcome {
    parse_from(s, 0, seq![])
}

impl<'a> QueryComparison<'a> {
    /// The term as values.
    pub open spec fn model(&self) -> ComparisonModel {
        ComparisonModel { key: self.key_view(), value: self.value@, op: self.op }
    }
}

/// The terms as values.
pub open spec fn comparisons_model<'a>(cs: Seq<QueryComparison<'a>>) -> Seq<ComparisonModel> {
    cs.map_values(|c: QueryComparison<'a>| c.model())
}

/// The result of `parseQuery` agrees with `parse_spec`.
pub open spec fn parse_result_agrees<'a>(s: Seq<u8>, r: Result<Vec<QueryComparison<'a>>, String>) -> bool {
    match parse_spec(s) {
        ParseOutcome::Parsed(cs) => r matches Ok(v) && comparisons_model(v@) == cs,
        ParseOutcome::Rejected(m) => r matches Err(e) && e@ == m,
        ParseOutcome::Aborts => false,
    }
}

/// Parses a query into its terms, or refuses it with a message: a key that
/// cannot be lexed, a key without a colon after it, or a value that cannot
/// be lexed.
#[allow(non_snake_case)]
pub fn parseQuery<'a>(query: &'a [u8]) -> (r: Result<Vec<QueryComparison<'a>>, String>)
    requires
        !(parse_spec(query@) is Aborts),
    ensures
        parse_result_agrees(query@, r),
{
    let n = query.len();
    let mut i: usize = 0;
    let mut result: Vec<QueryComparison<'a>> = Vec::new();
    let ghost s = query@;
    assert(comparisons_model(result@) =~= Seq::<ComparisonModel>::empty());
    while i < n
        invariant
            n == s.len(),
            s == query@,
            i <= n,
            parse_spec(s) == parse_from(s, i as int, comparisons_model(result@)),
            !(parse_spec(s) is Aborts),
        decreases n - i,
    {
        let ghost acc = comparisons_model(result@);
        proof {
            lemma_skip_ws(s, i as int);
        }
        let mut j = i;
        while j < n && is_ws(query[j])
            invariant
                n == s.len(),
                s == query@,
                i <= j <= skip_ws(s, i as int),
                skip_ws(s, i as int) <= n,
                forall|k: int| i <= k < skip_ws(s, i as int) ==> is_ascii_ws(#[trigger] s[k]),
                skip_ws(s, i as int) < n ==> !is_ascii_ws(s[skip_ws(s, i as int)]),
            decreases n - j,
        {
            j = j + 1;
        }
        assert(j == skip_ws(s, i as int));
        proof {
            lemma_lex_progress(s, j as int);
        }
        match lexString(query, j) {
            Err((_, at)) => {
                let text = utf8_slice(slice_subrange(query, at, n));
                let dbg = debug_text(text);
                let mut msg = String::from_str("Expected valid key, got `");
                msg.append(dbg.as_str());
                msg.append("` instead");
                return Err(msg);
            },
            Ok((key, kn)) => {
                let ghost ks = lex_spec(s, j as int)->start;
                let ghost ke = lex_spec(s, j as int)->end;
                if query[kn] != 0x3a {
                    let mut msg = String::from_str("Expected colon at index : ");
                    let d = usize_decimal(kn);
                    msg.append(d.as_str());
                    return Err(msg);
                }
                let mut vi = kn + 1;
                let mut op = QueryOp::Equal;
                if query[vi] == 0x3e {
                    op = QueryOp::Greater;
                    vi = vi + 1;
                } else if query[vi] == 0x3c {
                    op = QueryOp::Less;
                    vi = vi + 1;
                }
                assert(op_at(s, kn + 1) == (op, vi as int));
                proof {
                    lemma_lex_progress(s, vi as int);
                }
                match lexString(query, vi) {
                    Err((_, at)) => {
                        let text = utf8_slice(slice_subrange(query, at, n));
                        let mut msg = String::from_str("Expected valid value for ");
                        msg.append(key);
                        msg.append(", got `");
                        msg.append(text);
                        msg.append("` instead");
                        return Err(msg);
                    },
                    Ok((value, vn)) => {
                        let parts = split_str(key, '.');
                        let c = QueryComparison { key: parts, value, op };
                        let ghost old_result = result@;
                        result.push(c);
                        proof {
                            assert(comparisons_model(result@) =~= comparisons_model(old_result).push(c.model()));
                        }
                        i = vn;
                    },
                }
            },
        }
    }
    Ok(result)
}

/// Whether a byte is ASCII whitespace.
fn is_ws(c: u8) -> (r: bool)
    ensures
        r == is_ascii_ws(c),
{
    c == 0x20 || c == 0x09 || c == 0x0a || c == 0x0c || c == 0x0d
}

} // verus!

verus! {

/// Whether parsing `query` would stop the program (an index past the end,
/// text that is not UTF-8), so that a caller can refuse such a query first.
pub fn parse_query_aborts(query: &[u8]) -> (r: bool)
    ensures
        r == (parse_spec(query@) is Aborts),
{
    let n = query.len();
    let mut i: usize = 0;
    let ghost s = query@;
    let ghost mut acc: Seq<ComparisonModel> = Seq::empty();
    while i < n
        invariant
            n == s.len(),
            s == query@,
            i <= n,
            parse_spec(s) == parse_from(s, i as int, acc),
        decreases n - i,
    {
        proof {
            lemma_skip_ws(s, i as int);
        }
        let mut j = i;
        while j < n && is_ws(query[j])
            invariant
                n == s.len(),
                s == query@,
                i <= j <= skip_ws(s, i as int),
                skip_ws(s, i as int) <= n,
                forall|k: int| i <= k < skip_ws(s, i as int) ==> is_ascii_ws(#[trigger] s[k]),
                skip_ws(s, i as int) < n ==> !is_ascii_ws(s[skip_ws(s, i as int)]),
            decreases n - j,
        {
            j = j + 1;
        }
        assert(j == skip_ws(s, i as int));
        proof {
            lemma_lex_progress(s, j as int);
        }
        if j >= n || lex_would_abort(query, j) {
            return true;
        }
        match lexString(query, j) {
            Err((_, at)) => {
                return !is_utf8(slice_subrange(query, at, n));
            },
            Ok((_, kn)) => {
                let ghost ks = lex_spec(s, j as int)->start;
                let ghost ke = lex_spec(s, j as int)->end;
                if kn >= n {
                    return true;
                }
                if query[kn] != 0x3a {
                    return false;
                }
                if kn + 1 >= n {
                    return true;
                }
                let mut vi = kn + 1;
                let mut op = QueryOp::Equal;
                if query[vi] == 0x3e {
                    op = QueryOp::Greater;
                    vi = vi + 1;
                } else if query[vi] == 0x3c {
                    op = QueryOp::Less;
                    vi = vi + 1;
                }
                assert(op_at(s, kn + 1) == (op, vi as int));
                proof {
                    lemma_lex_progress(s, vi as int);
                }
                if lex_would_abort(query, vi) {
                    return true;
                }
                match lexString(query, vi) {
                    Err((_, at)) => {
                        return !is_utf8(slice_subrange(query, at, n));
                    },
                    Ok((_, vn)) => {
                        let ghost vs = lex_spec(s, vi as int)->start;
                        let ghost ve = lex_spec(s, vi as int)->end;
                        proof {
                            acc = acc.push(
                                ComparisonModel {
                                    key: split_key_spec(decode_utf8(s.subrange(ks, ke))),
                                    value: decode_utf8(s.subrange(vs, ve)),
                                    op,
                                },
                            );
                        }
                        i = vn;
                    },
                }
            },
        }
    }
    false
}

} // verus!

verus! {

proof fn lemma_skip_ws_shift(p: Seq<u8>, b: Seq<u8>, k: int)
    requires
        0 <= k,
    ensures
        skip_ws(p + b, p.len() + k) == p.len() + skip_ws(b, k),
    decreases b.len() - k,
{
    if k < b.len() {
        assert((p + b)[p.len() + k] == b[k]);
        lemma_skip_ws_shift(p, b, k + 1);
    }
}

proof fn lemma_skip_ws_extend(a: Seq<u8>, t: Seq<u8>, x: int)
    requires
        0 <= x,
        skip_ws(a, x) < a.len(),
    ensures
        skip_ws(a + t, x) == skip_ws(a, x),
    decreases a.len() - x,
{
    if x < a.len() {
        assert((a + t)[x] == a[x]);
        if is_ascii_ws(a[x]) {
            lemma_skip_ws_extend(a, t, x + 1);
        }
    }
}

/// The terms read before `i` only come in front of those read from `i` on.
proof fn lemma_parse_acc(s: Seq<u8>, i: int, pre: Seq<ComparisonModel>, acc: Seq<ComparisonModel>)
    requires
        0 <= i,
        parse_from(s, i, acc) is Parsed,
    ensures
        parse_from(s, i, pre + acc) == ParseOutcome::Parsed(pre + parse_from(s, i, acc)->Parsed_0),
    decreases s.len() - i,
{
    if i < s.len() {
        let j = skip_ws(s, i);
        lemma_skip_ws(s, i);
        lemma_lex_progress(s, j);
        match lex_spec(s, j) {
            LexOutcome::Found { start: ks, end: ke, next: kn } => {
                if kn < s.len() && s[kn] == 0x3a && kn + 1 < s.len() {
                    let (op, vi) = op_at(s, kn + 1);
                    lemma_lex_progress(s, vi);
                    match lex_spec(s, vi) {
                        LexOutcome::Found { start: vs, end: ve, next: vn } => {
                            let c = ComparisonModel {
                                key: split_key_spec(decode_utf8(s.subrange(ks, ke))),
                                value: decode_utf8(s.subrange(vs, ve)),
                                op,
                            };
                            lemma_parse_acc(s, vn, pre, acc.push(c));
                            assert((pre + acc).push(c) =~= pre + acc.push(c));
                        },
                        _ => {},
                    }
                }
            },
            _ => {},
        }
    }
}

/// A whitespace byte before more query text is skipped.
proof fn lemma_parse_ws_step(s: Seq<u8>, i: int, acc: Seq<ComparisonModel>)
    requires
        0 <= i,
        i + 1 < s.len(),
        is_ascii_ws(s[i]),
    ensures
        parse_from(s, i, acc) == parse_from(s, i + 1, acc),
{
    assert(skip_ws(s, i) == skip_ws(s, i + 1));
}

/// A query placed after other text parses from where it starts as it
/// parses alone.
proof fn lemma_parse_shift(p: Seq<u8>, b: Seq<u8>, k: int, acc: Seq<ComparisonModel>)
    requires
        0 <= k,
        parse_from(b, k, acc) is Parsed,
    ensures
        parse_from(p + b, p.len() + k, acc) == parse_from(b, k, acc),
    decreases b.len() - k,
{
    let s = p + b;
    let d = p.len() as int;
    if k < b.len() {
        lemma_skip_ws_shift(p, b, k);
        let j = skip_ws(b, k);
        lemma_skip_ws(b, k);
        lemma_lex_progress(b, j);
        lemma_lex_shift(p, b, j);
        match lex_spec(b, j) {
            LexOutcome::Found { start: ks, end: ke, next: kn } => {
                if kn < b.len() && b[kn] == 0x3a && kn + 1 < b.len() {
                    assert(s[d + kn] == b[kn]);
                    assert(s[d + kn + 1] == b[kn + 1]);
                    let (op, vi) = op_at(b, kn + 1);
                    assert(op_at(s, d + kn + 1) == (op, d + vi));
                    lemma_lex_progress(b, vi);
                    lemma_lex_shift(p, b, vi);
                    match lex_spec(b, vi) {
                        LexOutcome::Found { start: vs, end: ve, next: vn } => {
                            assert(s.subrange(d + ks, d + ke) =~= b.subrange(ks, ke));
                            assert(s.subrange(d + vs, d + ve) =~= b.subrange(vs, ve));
                            let c = ComparisonModel {
                                key: split_key_spec(decode_utf8(b.subrange(ks, ke))),
                                value: decode_utf8(b.subrange(vs, ve)),
                                op,
                            };
                            lemma_parse_shift(p, b, vn, acc.push(c));
                        },
                        _ => {},
                    }
                }
            },
            _ => {},
        }
    }
}

/// Text after a query that parses, starting with a space, leaves the terms
/// read from the query as they are: parsing goes on at the query's end.
proof fn lemma_parse_extend(a: Seq<u8>, t: Seq<u8>, i: int, acc: Seq<ComparisonModel>)
    requires
        0 <= i <= a.len(),
        t.len() > 0,
        t[0] == 0x20,
        parse_from(a, i, acc) is Parsed,
    ensures
        parse_from(a + t, i, acc) == parse_from(a + t, a.len() as int, parse_from(a, i, acc)->Parsed_0),
    decreases a.len() - i,
{
    let s = a + t;
    if i < a.len() {
        let j = skip_ws(a, i);
        lemma_skip_ws(a, i);
        lemma_lex_progress(a, j);
        lemma_skip_ws_extend(a, t, i);
        match lex_spec(a, j) {
            LexOutcome::Found { start: ks, end: ke, next: kn } => {
                lemma_lex_extend(a, t, j);
                if kn < a.len() && a[kn] == 0x3a && kn + 1 < a.len() {
                    assert(s[kn] == a[kn]);
                    assert(s[kn + 1] == a[kn + 1]);
                    let (op, vi) = op_at(a, kn + 1);
                    lemma_lex_progress(a, vi);
                    match lex_spec(a, vi) {
                        LexOutcome::Found { start: vs, end: ve, next: vn } => {
                            lemma_lex_extend(a, t, vi);
                            assert(s.subrange(ks, ke) =~= a.subrange(ks, ke));
                            assert(s.subrange(vs, ve) =~= a.subrange(vs, ve));
                            let c = ComparisonModel {
                                key: split_key_spec(decode_utf8(a.subrange(ks, ke))),
                                value: decode_utf8(a.subrange(vs, ve)),
                                op,
                            };
                            lemma_parse_extend(a, t, vn, acc.push(c));
                        },
                        _ => {},
                    }
                }
            },
            _ => {},
        }
    }
}

/// Parsing reads a whole query: two queries that parse, joined by a space,
/// parse to the terms of the first followed by the terms of the second (the
/// second must not be empty: a query that ends in whitespace is not parsed).
pub proof fn law_parse_concat(a: Seq<u8>, b: Seq<u8>)
    requires
        parse_spec(a) is Parsed,
        parse_spec(b) is Parsed,
        b.len() > 0,
    ensures
        parse_spec(a + seq![0x20u8] + b) == ParseOutcome::Parsed(parse_spec(a)->Parsed_0 + parse_spec(b)->Parsed_0),
{
    let sp = seq![0x20u8];
    let t = sp + b;
    let s = a + sp + b;
    assert(s =~= a + t);
    assert(t[0] == 0x20);
    lemma_parse_extend(a, t, 0, seq![]);
    let x = parse_spec(a)->Parsed_0;
    let y = parse_spec(b)->Parsed_0;
    assert(s[a.len() as int] == 0x20);
    lemma_parse_ws_step(s, a.len() as int, x);
    lemma_parse_acc(b, 0, x, seq![]);
    assert(x + Seq::<ComparisonModel>::empty() =~= x);
    lemma_parse_shift(a + sp, b, 0, x);
}

} // verus!
