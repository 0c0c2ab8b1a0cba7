//! Lexing and parsing of queries such as `a.b:1 c:>2 "x y":"z"`.

use vstd::prelude::*;
use vstd::utf8::*;
use vstd::slice::slice_subrange;
use crate::text::{is_ascii_alnum, lemma_ascii_is_utf8, utf8_slice};

verus! {

broadcast use vstd::utf8::group_utf8_lib;

/// Why a string could not be lexed.
pub enum LexFailure {
    EmptyString,
    UnterminatedQuote,
    NoStringFound,
}

/// What lexing a string at a position gives: the byte range of the string
/// and where lexing goes on, or a failure and the position it was found at.
pub enum LexOutcome {
    Found { start: int, end: int, next: int },
    Failed { reason: LexFailure, at: int },
}

/// The message that `lexString` reports for a failure.
pub open spec fn lex_failure_text(reason: LexFailure) -> Seq<char> {
    match reason {
        LexFailure::EmptyString => "empty string"@,
        LexFailure::UnterminatedQuote => "Expected end of quoted string"@,
        LexFailure::NoStringFound => "No string found"@,
    }
}

/// A byte that may stand in an unquoted string: a letter, a digit or a dot.
pub open spec fn is_word_byte(c: u8) -> bool {
    is_ascii_alnum(c) || c == 0x2e
}

/// The first position at or after `i` that holds a double quote, or the length.
pub open spec fn quote_end(s: Seq<u8>, i: int) -> int
    decreases s.len() - i,
{
    if i >= s.len() {
        s.len() as int
    } else if s[i] == 0x22 {
        i
    } else {
        quote_end(s, i + 1)
    }
}

/// The first position at or after `i` that holds no word byte, or the length.
pub open spec fn word_end(s: Seq<u8>, i: int) -> int
    decreases s.len() - i,
{
    if i >= s.len() {
        s.len() as int
    } else if !is_word_byte(s[i]) {
        i
    } else {
        word_end(s, i + 1)
    }
}

/// Lexing a string at `i`: a quoted string runs to the next double quote,
/// an unquoted one over letters, digits and dots.
pub open spec fn lex_spec(s: Seq<u8>, i: int) -> LexOutcome {
    if i >= s.len() {
        LexOutcome::Failed { reason: LexFailure::EmptyString, at: i }
    } else if s[i] == 0x22 {
        let e = quote_end(s, i + 1);
        if e >= s.len() {
            LexOutcome::Failed { reason: LexFailure::UnterminatedQuote, at: e }
        } else {
            LexOutcome::Found { start: i + 1, end: e, next: e + 1 }
        }
    } else {
        let e = word_end(s, i);
        if e == i {
            LexOutcome::Failed { reason: LexFailure::NoStringFound, at: i }
        } else {
            LexOutcome::Found { start: i, end: e, next: e }
        }
    }
}

/// Lexing at `i` stops the program: the quoted text is not well-formed UTF-8.
pub open spec fn lex_aborts(s: Seq<u8>, i: int) -> bool {
    &&& 0 <= i < s.len()
    &&& s[i] == 0x22
    &&& !valid_utf8(s.subrange(i + 1, quote_end(s, i + 1)))
}

proof fn lemma_quote_end(s: Seq<u8>, i: int)
    requires
        0 <= i <= s.len(),
    ensures
        i <= quote_end(s, i) <= s.len(),
        forall|j: int| i <= j < quote_end(s, i) ==> s[j] != 0x22,
        quote_end(s, i) < s.len() ==> s[quote_end(s, i)] == 0x22,
    decreases s.len() - i,
{
    if i < s.len() && s[i] != 0x22 {
        lemma_quote_end(s, i + 1);
    }
}

proof fn lemma_word_end(s: Seq<u8>, i: int)
    requires
        0 <= i <= s.len(),
    ensures
        i <= word_end(s, i) <= s.len(),
        forall|j: int| i <= j < word_end(s, i) ==> is_word_byte(#[trigger] s[j]),
        word_end(s, i) < s.len() ==> !is_word_byte(s[word_end(s, i)]),
    decreases s.len() - i,
{
    if i < s.len() && is_word_byte(s[i]) {
        lemma_word_end(s, i + 1);
    }
}

/// Lexing a string stops only after it, so parsing makes progress.
pub proof fn lemma_lex_progress(s: Seq<u8>, i: int)
    requires
        0 <= i,
    ensures
        lex_spec(s, i) matches LexOutcome::Found { start, end, next } ==> {
            &&& i <= start <= end <= next <= s.len()
            &&& i < next
        },
        lex_spec(s, i) matches LexOutcome::Failed { at, .. } ==> i <= at,
        i <= s.len() ==> (lex_spec(s, i) matches LexOutcome::Failed { at, .. } ==> at <= s.len()),
{
    if i < s.len() {
        if s[i] == 0x22 {
            lemma_quote_end(s, i + 1);
        } else {
            lemma_word_end(s, i);
        }
    }
}

/// The result of `lexString` agrees with `lex_spec`.
pub open spec fn lex_result_agrees(s: Seq<u8>, i: int, r: Result<(&str, usize), (&str, usize)>) -> bool {
    match lex_spec(s, i) {
        LexOutcome::Found { start, end, next } => r matches Ok((v, n)) && v@ == decode_utf8(
            s.subrange(start, end),
        ) && n == next,
        LexOutcome::Failed { reason, at } => r matches Err((m, n)) && m@ == lex_failure_text(reason)
            && n == at,
    }
}

/// Lexes one string of `input` at `index`: a double-quoted string (without
/// its quotes) or a run of letters, digits and dots. On success gives the
/// string and the position after it; on failure a message and a position.
#[allow(non_snake_case)]
pub fn lexString(input: &[u8], index: usize) -> (r: Result<(&str, usize), (&str, usize)>)
    requires
        !lex_aborts(input@, index as int),
    ensures
        lex_result_agrees(input@, index as int, r),
        lex_spec(input@, index as int) matches LexOutcome::Found { start, end, .. } ==> valid_utf8(
            input@.subrange(start, end),
        ),
{
    if index >= input.len() {
        return Err(("empty string", index));
    }
    if input[index] == 0x22 {
        let start = index + 1;
        let mut i = start;
        proof {
            lemma_quote_end(input@, start as int);
        }
        while i < input.len() && input[i] != 0x22
            invariant
                start <= i <= input@.len(),
                i <= quote_end(input@, start as int),
                forall|j: int| start <= j < quote_end(input@, start as int) ==> input@[j] != 0x22,
                quote_end(input@, start as int) < input@.len() ==> input@[quote_end(input@, start as int)] == 0x22,
            decreases input@.len() - i,
        {
            i = i + 1;
        }
        assert(i == quote_end(input@, start as int));
        let s = utf8_slice(slice_subrange(input, start, i));
        if i >= input.len() {
            return Err(("Expected end of quoted string", i));
        }
        return Ok((s, i + 1));
    }
    let start = index;
    let mut i = index;
    proof {
        lemma_word_end(input@, start as int);
    }
    while i < input.len() && (crate::lexer::word_byte(input[i]))
        invariant
            start <= i <= input@.len(),
            i <= word_end(input@, start as int),
            forall|j: int| start <= j < word_end(input@, start as int) ==> is_word_byte(#[trigger] input@[j]),
            word_end(input@, start as int) < input@.len() ==> !is_word_byte(input@[word_end(input@, start as int)]),
        decreases input@.len() - i,
    {
        i = i + 1;
    }
    assert(i == word_end(input@, start as int));
    let bytes = slice_subrange(input, start, i);
    proof {
        assert forall|j: int| 0 <= j < bytes@.len() implies #[trigger] bytes@[j] < 0x80 by {
            assert(bytes@[j] == input@[start + j]);
            assert(is_word_byte(input@[start + j]));
        }
        lemma_ascii_is_utf8(bytes@);
    }
    let s = utf8_slice(bytes);
    if i == start {
        return Err(("No string found", i));
    }
    Ok((s, i))
}

/// Whether a byte may stand in an unquoted string.
fn word_byte(c: u8) -> (r: bool)
    ensures
        r == is_word_byte(c),
{
    (0x30 <= c && c <= 0x39) || (0x41 <= c && c <= 0x5a) || (0x61 <= c && c <= 0x7a) || c == 0x2e
}

} // verus!

verus! {

/// The comparison operator of a query term: `k:v`, `k:>v` or `k:<v`.
#[derive(PartialEq, Eq, Structural, Debug, Copy, Clone)]
pub enum QueryOp {
    Equal,
    Greater,
    Less,
}

/// One term of a query: a key path, the value to compare with, and how.
#[derive(PartialEq, Debug)]
pub struct QueryComparison<'a> {
    pub key: Vec<&'a str>,
    pub value: &'a str,
    pub op: QueryOp,
}

impl<'a> QueryComparison<'a> {
    /// The key path, each key by its characters.
    pub open spec fn key_view(&self) -> Seq<Seq<char>> {
        self.key@.map_values(|k: &str| k@)
    }
}

} // verus!

verus! {

/// Whether lexing `input` at `index` would stop the program (quoted text
/// that is not UTF-8), so that a caller can refuse such input first.
pub fn lex_would_abort(input: &[u8], index: usize) -> (r: bool)
    ensures
        r == lex_aborts(input@, index as int),
{
    if index >= input.len() || input[index] != 0x22 {
        return false;
    }
    let start = index + 1;
    let mut i = start;
    proof {
        lemma_quote_end(input@, start as int);
    }
    while i < input.len() && input[i] != 0x22
        invariant
            start <= i <= input@.len(),
            i <= quote_end(input@, start as int),
            forall|j: int| start <= j < quote_end(input@, start as int) ==> input@[j] != 0x22,
            quote_end(input@, start as int) < input@.len() ==> input@[quote_end(input@, start as int)] == 0x22,
        decreases input@.len() - i,
    {
        i = i + 1;
    }
    !crate::text::is_utf8(slice_subrange(input, start, i))
}

} // verus!

verus! {

/// An unquoted string is the longest run of ASCII letters, digits and dots
/// from where lexing starts: lexing at `i` finds exactly the bytes from `i`
/// to the first byte that is none of `0-9`, `A-Z`, `a-z`, `.` (or the end),
/// and goes on after them.
pub proof fn law_unquoted_string_is_the_run_of_word_bytes(s: Seq<u8>, i: int, e: int)
    requires
        0 <= i < e <= s.len(),
        s[i] != 0x22,
        forall|k: int|
            i <= k < e ==> {
                let c = #[trigger] s[k];
                (0x30 <= c <= 0x39) || (0x41 <= c <= 0x5a) || (0x61 <= c <= 0x7a) || c == 0x2e
            },
        e < s.len() ==> !((0x30 <= s[e] <= 0x39) || (0x41 <= s[e] <= 0x5a) || (0x61 <= s[e] <= 0x7a)
            || s[e] == 0x2e),
    ensures
        lex_spec(s, i) == (LexOutcome::Found { start: i, end: e, next: e }),
{
    lemma_word_end(s, i);
    let w = word_end(s, i);
    if w < e {
        assert(!is_word_byte(s[w]));
        assert(is_word_byte(s[w]));
    }
    if w > e {
        assert(is_word_byte(s[e]));
    }
}

/// Lexing at a byte that is neither a double quote nor an ASCII letter,
/// digit or dot finds no string there.
pub proof fn law_no_string_without_a_word_byte(s: Seq<u8>, i: int)
    requires
        0 <= i < s.len(),
        s[i] != 0x22,
        !((0x30 <= s[i] <= 0x39) || (0x41 <= s[i] <= 0x5a) || (0x61 <= s[i] <= 0x7a) || s[i] == 0x2e),
    ensures
        lex_spec(s, i) == (LexOutcome::Failed { reason: LexFailure::NoStringFound, at: i }),
{
}

/// A quoted string is the text up to the next double quote: lexing at an
/// opening quote at `i` whose closing quote is at `q` finds the bytes between
/// them and goes on after the closing quote.
pub proof fn law_quoted_string_runs_to_the_next_quote(s: Seq<u8>, i: int, q: int)
    requires
        0 <= i < q < s.len(),
        s[i] == 0x22,
        s[q] == 0x22,
        forall|k: int| i < k < q ==> #[trigger] s[k] != 0x22,
    ensures
        lex_spec(s, i) == (LexOutcome::Found { start: i + 1, end: q, next: q + 1 }),
{
    lemma_quote_end(s, i + 1);
    let e = quote_end(s, i + 1);
    if e > q {
        assert(s[q] != 0x22);
    }
}

} // verus!

verus! {

/// A lexing outcome on a text placed after `d` bytes of other text.
pub open spec fn shift_outcome(o: LexOutcome, d: int) -> LexOutcome {
    match o {
        LexOutcome::Found { start, end, next } => LexOutcome::Found { start: start + d, end: end + d, next: next + d },
        LexOutcome::Failed { reason, at } => LexOutcome::Failed { reason, at: at + d },
    }
}

proof fn lemma_word_end_shift(p: Seq<u8>, b: Seq<u8>, k: int)
    requires
        0 <= k,
    ensures
        word_end(p + b, p.len() + k) == p.len() + word_end(b, k),
    decreases b.len() - k,
{
    if k < b.len() {
        assert((p + b)[p.len() + k] == b[k]);
        lemma_word_end_shift(p, b, k + 1);
    }
}

proof fn lemma_quote_end_shift(p: Seq<u8>, b: Seq<u8>, k: int)
    requires
        0 <= k,
    ensures
        quote_end(p + b, p.len() + k) == p.len() + quote_end(b, k),
    decreases b.len() - k,
{
    if k < b.len() {
        assert((p + b)[p.len() + k] == b[k]);
        lemma_quote_end_shift(p, b, k + 1);
    }
}

/// Lexing a text placed after other text lexes as the text alone, shifted.
pub proof fn lemma_lex_shift(p: Seq<u8>, b: Seq<u8>, k: int)
    requires
        0 <= k,
    ensures
        lex_spec(p + b, p.len() + k) == shift_outcome(lex_spec(b, k), p.len() as int),
        lex_aborts(p + b, p.len() + k) == lex_aborts(b, k),
{
    let s = p + b;
    let d = p.len() as int;
    if k < b.len() {
        assert(s[d + k] == b[k]);
        lemma_quote_end_shift(p, b, k + 1);
        lemma_word_end_shift(p, b, k);
        if b[k] == 0x22 {
            lemma_quote_end(b, k + 1);
            let e = quote_end(b, k + 1);
            assert(s.subrange(d + k + 1, d + e) =~= b.subrange(k + 1, e));
        }
    }
}

proof fn lemma_word_end_extend(a: Seq<u8>, t: Seq<u8>, x: int)
    requires
        0 <= x <= a.len(),
        t.len() > 0,
        !is_word_byte(t[0]),
    ensures
        word_end(a + t, x) == word_end(a, x),
    decreases a.len() - x,
{
    if x < a.len() {
        assert((a + t)[x] == a[x]);
        lemma_word_end_extend(a, t, x + 1);
    } else {
        assert((a + t)[x] == t[0]);
    }
}

proof fn lemma_quote_end_extend(a: Seq<u8>, t: Seq<u8>, x: int)
    requires
        0 <= x,
        quote_end(a, x) < a.len(),
    ensures
        quote_end(a + t, x) == quote_end(a, x),
    decreases a.len() - x,
{
    if x < a.len() {
        assert((a + t)[x] == a[x]);
        if a[x] != 0x22 {
            lemma_quote_end_extend(a, t, x + 1);
        }
    }
}

/// Text added after a string that lexing finds, starting with a byte that
/// can end an unquoted string and is no quote, does not change the lexing.
pub proof fn lemma_lex_extend(a: Seq<u8>, t: Seq<u8>, x: int)
    requires
        0 <= x < a.len(),
        lex_spec(a, x) is Found,
        t.len() > 0,
        !is_word_byte(t[0]),
    ensures
        lex_spec(a + t, x) == lex_spec(a, x),
        lex_aborts(a + t, x) == lex_aborts(a, x),
{
    let s = a + t;
    assert(s[x] == a[x]);
    if a[x] == 0x22 {
        lemma_quote_end_extend(a, t, x + 1);
        lemma_quote_end(a, x + 1);
        let e = quote_end(a, x + 1);
        assert(s.subrange(x + 1, e) =~= a.subrange(x + 1, e));
    } else {
        lemma_word_end_extend(a, t, x);
    }
}

} // verus!
