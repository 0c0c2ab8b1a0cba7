//! Byte and character helpers shared by the lexer and the index code.

use vstd::prelude::*;
use vstd::utf8::*;
use vstd::string::*;

verus! {

broadcast use vstd::utf8::group_utf8_lib;

/// `u8::is_ascii_alphanumeric`: `0-9`, `A-Z` or `a-z`.
pub open spec fn is_ascii_alnum(c: u8) -> bool {
    (0x30 <= c <= 0x39) || (0x41 <= c <= 0x5a) || (0x61 <= c <= 0x7a)
}

/// `u8::is_ascii_whitespace`: space, tab, line feed, form feed, carriage return.
pub open spec fn is_ascii_ws(c: u8) -> bool {
    c == 0x20 || c == 0x09 || c == 0x0a || c == 0x0c || c == 0x0d
}

/// Every byte of `b` is an ASCII byte.
pub open spec fn all_ascii(b: Seq<u8>) -> bool {
    forall|i: int| 0 <= i < b.len() ==> #[trigger] b[i] < 0x80
}

/// A sequence of ASCII bytes is well-formed UTF-8.
pub proof fn lemma_ascii_is_utf8(b: Seq<u8>)
    requires
        all_ascii(b),
    ensures
        valid_utf8(b),
{
    assert(forall|i: int| 0 <= i < b.len() ==> #[trigger] is_leading_byte_width_1(b[i]));
    assert(b.subrange(0, 0) =~= Seq::<u8>::empty());
    partial_valid_utf8_extend_ascii_block(b, 0, b.len() as int);
    assert(b.subrange(0, b.len() as int) =~= b);
}

/// Cutting well-formed UTF-8 at an ASCII byte leaves well-formed UTF-8 on
/// both sides, and the characters split accordingly.
pub proof fn lemma_utf8_cut_at_ascii(b: Seq<u8>, i: int)
    requires
        valid_utf8(b),
        0 <= i <= b.len(),
        i < b.len() ==> b[i] < 0x80,
    ensures
        valid_utf8(b.subrange(0, i)),
        valid_utf8(b.subrange(i, b.len() as int)),
        decode_utf8(b) == decode_utf8(b.subrange(0, i)) + decode_utf8(
            b.subrange(i, b.len() as int),
        ),
{
    is_char_boundary_start_end_of_seq(b);
    if i < b.len() {
        is_char_boundary_iff_is_leading_byte(b, i);
    }
    valid_utf8_split(b, i);
    decode_utf8_split(b, i);
}

/// `std::str::from_utf8`, with the error dropped: its documentation states
/// that it succeeds exactly on well-formed UTF-8 and then borrows the same
/// bytes as a string slice.
#[verifier::external_body]
fn str_from_utf8<'a>(bytes: &'a [u8]) -> (r: Option<&'a str>)
    ensures
        r is Some <==> valid_utf8(bytes@),
        r matches Some(s) ==> s.spec_bytes() == bytes@,
{
    std::str::from_utf8(bytes).ok()
}

/// Borrows well-formed UTF-8 bytes as a string slice.
pub fn utf8_slice<'a>(bytes: &'a [u8]) -> (s: &'a str)
    requires
        valid_utf8(bytes@),
    ensures
        s@ == decode_utf8(bytes@),
        s.spec_bytes() == bytes@,
{
    match str_from_utf8(bytes) {
        Some(s) => {
            proof {
                encode_utf8_decode_utf8(s@);
            }
            s
        },
        None => {
            proof {
                assert(false);
            }
            ""
        },
    }
}

} // verus!

verus! {

/// Two string slices hold the same characters.
pub fn str_eq(a: &str, b: &str) -> (r: bool)
    ensures
        r == (a@ == b@),
{
    let x = a.as_bytes();
    let y = b.as_bytes();
    proof {
        encode_utf8_decode_utf8(a@);
        encode_utf8_decode_utf8(b@);
        assert(x@ == a.spec_bytes());
        assert(y@ == b.spec_bytes());
        assert(a@ == b@ ==> x@ == y@);
    }
    if x.len() != y.len() {
        return false;
    }
    let mut i: usize = 0;
    while i < x.len()
        invariant
            x@.len() == y@.len(),
            i <= x@.len(),
            forall|j: int| 0 <= j < i ==> x@[j] == y@[j],
            a@ == b@ ==> x@ == y@,
        decreases x@.len() - i,
    {
        if x[i] != y[i] {
            return false;
        }
        i = i + 1;
    }
    assert(x@ =~= y@);
    true
}

} // verus!

verus! {

/// The decimal digit `d` as a character.
pub open spec fn digit_char(d: nat) -> char {
    if d == 0 { '0' } else if d == 1 { '1' } else if d == 2 { '2' } else if d == 3 { '3' }
    else if d == 4 { '4' } else if d == 5 { '5' } else if d == 6 { '6' } else if d == 7 { '7' }
    else if d == 8 { '8' } else { '9' }
}

/// `n` written in decimal, without leading zeros.
pub open spec fn decimal_text(n: nat) -> Seq<char>
    decreases n,
{
    if n < 10 {
        seq![digit_char(n)]
    } else {
        decimal_text(n / 10) + seq![digit_char(n % 10)]
    }
}

fn digit_str(d: usize) -> (s: &'static str)
    requires
        d < 10,
    ensures
        s@ == seq![digit_char(d as nat)],
{
    proof {
        reveal_strlit("0");
        reveal_strlit("1");
        reveal_strlit("2");
        reveal_strlit("3");
        reveal_strlit("4");
        reveal_strlit("5");
        reveal_strlit("6");
        reveal_strlit("7");
        reveal_strlit("8");
        reveal_strlit("9");
    }
    if d == 0 { "0" } else if d == 1 { "1" } else if d == 2 { "2" } else if d == 3 { "3" }
    else if d == 4 { "4" } else if d == 5 { "5" } else if d == 6 { "6" } else if d == 7 { "7" }
    else if d == 8 { "8" } else { "9" }
}

/// `n` written in decimal, as `format!("{}", n)` writes it.
pub fn usize_decimal(n: usize) -> (r: String)
    ensures
        r@ == decimal_text(n as nat),
    decreases n,
{
    if n < 10 {
        String::from_str(digit_str(n))
    } else {
        let mut r = usize_decimal(n / 10);
        r.append(digit_str(n % 10));
        r
    }
}

} // verus!

verus! {

/// The position of the first `x` in `s`, or the length when there is none.
pub open spec fn first_index<A>(s: Seq<A>, x: A) -> nat
    decreases s.len(),
{
    if s.len() == 0 {
        0
    } else if s[0] == x {
        0
    } else {
        1 + first_index(s.drop_first(), x)
    }
}

/// The pieces of `s` between the separators `sep`, as `str::split` gives
/// them: `k` separators give `k + 1` pieces, empty ones included.
pub open spec fn split_seq<A>(s: Seq<A>, sep: A) -> Seq<Seq<A>>
    decreases s.len(),
{
    let k = first_index(s, sep) as int;
    if k >= s.len() {
        seq![s]
    } else {
        seq![s.take(k)] + split_seq(s.skip(k + 1), sep)
    }
}

/// `first_index` is the position of the first occurrence.
pub proof fn lemma_first_index<A>(s: Seq<A>, x: A, k: int)
    requires
        0 <= k <= s.len(),
        forall|j: int| 0 <= j < k ==> s[j] != x,
        k < s.len() ==> s[k] == x,
    ensures
        first_index(s, x) == k,
    decreases k,
{
    if k > 0 {
        lemma_first_index(s.drop_first(), x, k - 1);
    }
}

/// `first_index` never passes the length, and nothing before it is `x`.
pub proof fn lemma_first_index_bounds<A>(s: Seq<A>, x: A)
    ensures
        first_index(s, x) <= s.len(),
        forall|j: int| 0 <= j < first_index(s, x) ==> s[j] != x,
        first_index(s, x) < s.len() ==> s[first_index(s, x) as int] == x,
    decreases s.len(),
{
    if s.len() > 0 && s[0] != x {
        lemma_first_index_bounds(s.drop_first(), x);
        assert forall|j: int| 0 <= j < first_index(s, x) implies s[j] != x by {
            if j > 0 {
                assert(s[j] == s.drop_first()[j - 1]);
            }
        }
    }
}

/// The encoding of a concatenation is the concatenation of the encodings.
pub proof fn lemma_encode_concat(a: Seq<char>, b: Seq<char>)
    ensures
        encode_utf8(a + b) == encode_utf8(a) + encode_utf8(b),
    decreases a.len(),
{
    if a.len() == 0 {
        assert(a + b =~= b);
    } else {
        assert((a + b).drop_first() =~= a.drop_first() + b);
        assert((a + b)[0] == a[0]);
        lemma_encode_concat(a.drop_first(), b);
        assert(encode_utf8(a + b) =~= encode_utf8(a) + encode_utf8(b));
    }
}

proof fn lemma_scalar_bytes_high(v: u32)
    requires
        0x80 <= v,
    ensures
        0x80 <= (0xC0 | ((v >> 6) & 0x1F) as u8),
        0x80 <= (0xE0 | ((v >> 12) & 0x0F) as u8),
        0x80 <= (0xF0 | ((v >> 18) & 0x7) as u8),
        0x80 <= (0x80 | (v & 0x3F) as u8),
        0x80 <= (0x80 | ((v >> 6) & 0x3F) as u8),
        0x80 <= (0x80 | ((v >> 12) & 0x3F) as u8),
{
    let a = ((v >> 6) & 0x1F) as u8;
    let b = ((v >> 12) & 0x0F) as u8;
    let c = ((v >> 18) & 0x7) as u8;
    let d = (v & 0x3F) as u8;
    let e = ((v >> 6) & 0x3F) as u8;
    let f = ((v >> 12) & 0x3F) as u8;
    assert(0x80 <= (0xC0u8 | a)) by (bit_vector);
    assert(0x80 <= (0xE0u8 | b)) by (bit_vector);
    assert(0x80 <= (0xF0u8 | c)) by (bit_vector);
    assert(0x80 <= (0x80u8 | d)) by (bit_vector);
    assert(0x80 <= (0x80u8 | e)) by (bit_vector);
    assert(0x80 <= (0x80u8 | f)) by (bit_vector);
}

/// A character other than the ASCII character `c` encodes to bytes none of
/// which is the byte `c`.
pub proof fn lemma_encode_scalar_avoids(ch: char, c: char)
    requires
        (c as u32) < 0x80,
        ch != c,
    ensures
        !encode_scalar(ch as u32).contains(c as u8),
{
    let v = ch as u32;
    let w = c as u32;
    if has_width_1_encoding(v) {
        assert(((v & 0x7F) as u8) != (w as u8)) by (bit_vector)
            requires
                v <= 0x7f,
                w < 0x80,
                v != w,
        ;
        assert((c as u8) == (w as u8));
    } else {
        lemma_scalar_bytes_high(v);
        assert((c as u8) < 0x80);
    }
}

/// A text without the ASCII character `c` encodes to bytes without the byte `c`.
pub proof fn lemma_encode_avoids(s: Seq<char>, c: char)
    requires
        (c as u32) < 0x80,
        !s.contains(c),
    ensures
        !encode_utf8(s).contains(c as u8),
    decreases s.len(),
{
    if s.len() > 0 {
        assert(!s.drop_first().contains(c)) by {
            if s.drop_first().contains(c) {
                let j = choose|j: int| 0 <= j < s.drop_first().len() && s.drop_first()[j] == c;
                assert(s[j + 1] == c);
            }
        }
        lemma_encode_avoids(s.drop_first(), c);
        assert(s[0] != c) by {
            if s[0] == c {
                assert(s.contains(c));
            }
        }
        lemma_encode_scalar_avoids(s[0], c);
        let e = encode_utf8(s);
        let h = encode_scalar(s[0] as u32);
        let t = encode_utf8(s.drop_first());
        assert(e == h + t);
        if e.contains(c as u8) {
            let j = choose|j: int| 0 <= j < e.len() && e[j] == c as u8;
            if j < h.len() {
                assert(h[j] == e[j]);
            } else {
                assert(t[j - h.len()] == e[j]);
                assert(t.contains(c as u8));
            }
        }
    }
}

/// The encoding of an ASCII character is its one byte.
pub proof fn lemma_encode_ascii_char(c: char)
    requires
        (c as u32) < 0x80,
    ensures
        encode_utf8(seq![c]) == seq![c as u8],
{
    let v = c as u32;
    assert(((v & 0x7F) as u8) == (v as u8)) by (bit_vector)
        requires
            v < 0x80,
    ;
    assert(seq![c].drop_first() =~= Seq::<char>::empty());
    assert(encode_utf8(Seq::<char>::empty()) =~= Seq::<u8>::empty());
    assert(has_width_1_encoding(v));
    assert(encode_scalar(v) == seq![leading_byte_width_1(v)]);
    assert((v as u8) == (c as u8));
    assert(encode_utf8(seq![c]) == encode_scalar(seq![c][0] as u32) + encode_utf8(seq![c].drop_first()));
    assert(encode_utf8(seq![c]) =~= seq![c as u8]);
}

/// Splitting the encoding of a text at an ASCII byte and decoding the
/// pieces is splitting the text at that character.
pub proof fn lemma_split_encode(s: Seq<char>, c: char)
    requires
        (c as u32) < 0x80,
    ensures
        split_seq(encode_utf8(s), c as u8).map_values(|p: Seq<u8>| decode_utf8(p)) == split_seq(s, c),
    decreases s.len(),
{
    let b = c as u8;
    let k = first_index(s, c) as int;
    lemma_first_index_bounds(s, c);
    let e = encode_utf8(s);
    if k >= s.len() {
        assert(!s.contains(c));
        lemma_encode_avoids(s, c);
        lemma_first_index_bounds(e, b);
        assert(first_index(e, b) == e.len()) by {
            if first_index(e, b) < e.len() {
                assert(e.contains(b));
            }
        }
        assert(split_seq(e, b).map_values(|p: Seq<u8>| decode_utf8(p)) =~= seq![decode_utf8(e)]);
    } else {
        let x = s.take(k);
        let y = s.skip(k + 1);
        assert(s =~= x + seq![c] + y);
        assert(!x.contains(c)) by {
            if x.contains(c) {
                let j = choose|j: int| 0 <= j < x.len() && x[j] == c;
                assert(s[j] == c);
            }
        }
        lemma_encode_avoids(x, c);
        lemma_encode_concat(x + seq![c], y);
        lemma_encode_concat(x, seq![c]);
        lemma_encode_ascii_char(c);
        let ex = encode_utf8(x);
        let ey = encode_utf8(y);
        assert(e =~= ex + seq![b] + ey);
        assert forall|j: int| 0 <= j < ex.len() implies e[j] != b by {
            assert(e[j] == ex[j]);
            if ex[j] == b {
                assert(ex.contains(b));
            }
        }
        lemma_first_index(e, b, ex.len() as int);
        assert(e.take(ex.len() as int) =~= ex);
        assert(e.skip(ex.len() as int + 1) =~= ey);
        lemma_split_encode(y, c);
        assert(split_seq(e, b) == seq![ex] + split_seq(ey, b));
        assert(split_seq(s, c) == seq![x] + split_seq(y, c));
        assert(split_seq(e, b).map_values(|p: Seq<u8>| decode_utf8(p)) =~= seq![decode_utf8(ex)]
            + split_seq(ey, b).map_values(|p: Seq<u8>| decode_utf8(p)));
    }
}

/// The pieces of the UTF-8 text `s` between the ASCII bytes `sep`, as text.
pub open spec fn split_text_spec(s: Seq<u8>, sep: u8) -> Seq<Seq<char>> {
    split_seq(s, sep).map_values(|p: Seq<u8>| decode_utf8(p))
}

/// Splits UTF-8 bytes at the ASCII byte `sep`, as `str::split` does.
pub fn split_on_byte<'a>(bytes: &'a [u8], sep: u8) -> (r: Vec<&'a str>)
    requires
        valid_utf8(bytes@),
        sep < 0x80,
    ensures
        r@.map_values(|k: &str| k@) == split_text_spec(bytes@, sep),
{
    let n = bytes.len();
    let mut pieces: Vec<&'a str> = Vec::new();
    let mut start: usize = 0;
    let mut i: usize = 0;
    let ghost b = bytes@;
    proof {
        assert(b.skip(0) =~= b);
        assert(b.subrange(0, b.len() as int) =~= b);
    }
    while i < n
        invariant
            n == b.len(),
            b == bytes@,
            sep < 0x80,
            start <= i <= n,
            valid_utf8(b.subrange(start as int, n as int)),
            forall|j: int| start <= j < i ==> b[j] != sep,
            split_text_spec(b, sep) == pieces@.map_values(|k: &str| k@) + split_text_spec(b.skip(start as int), sep),
        decreases n - i,
    {
        if bytes[i] == sep {
            let ghost rest = b.subrange(start as int, n as int);
            proof {
                lemma_utf8_cut_at_ascii(rest, i - start);
                assert(rest.subrange(0, i - start) =~= b.subrange(start as int, i as int));
                assert(rest.subrange(i - start, rest.len() as int) =~= b.subrange(i as int, n as int));
                let tail = b.subrange(i as int, n as int);
                assert(tail[0] == sep);
                assert(tail.subrange(1, tail.len() as int) =~= b.subrange(i + 1, n as int));
                let sk = b.skip(start as int);
                assert(sk =~= rest);
                lemma_first_index(sk, sep, i - start);
                assert(sk.take(i - start) =~= b.subrange(start as int, i as int));
                assert(sk.skip(i - start + 1) =~= b.skip(i + 1));
            }
            let piece = utf8_slice(vstd::slice::slice_subrange(bytes, start, i));
            let ghost old_pieces = pieces@;
            pieces.push(piece);
            proof {
                let f = |p: Seq<u8>| decode_utf8(p);
                let g = |k: &str| k@;
                let sk = b.skip(start as int);
                assert(split_seq(sk, sep) == seq![sk.take(i - start)] + split_seq(sk.skip(i - start + 1), sep));
                assert(split_text_spec(sk, sep) =~= seq![piece@] + split_text_spec(b.skip(i + 1), sep));
                assert(pieces@.map_values(g) =~= old_pieces.map_values(g).push(piece@));
                assert(old_pieces.map_values(g) + split_text_spec(sk, sep)
                    =~= pieces@.map_values(g) + split_text_spec(b.skip(i + 1), sep));
            }
            start = i + 1;
        }
        i = i + 1;
    }
    proof {
        let sk = b.skip(start as int);
        lemma_first_index(sk, sep, sk.len() as int);
        assert(sk =~= b.subrange(start as int, n as int));
    }
    let last = utf8_slice(vstd::slice::slice_subrange(bytes, start, n));
    let ghost old_pieces = pieces@;
    pieces.push(last);
    proof {
        let g = |k: &str| k@;
        let sk = b.skip(start as int);
        assert(split_text_spec(sk, sep) =~= seq![last@]);
        assert(pieces@.map_values(g) =~= old_pieces.map_values(g).push(last@));
        assert(split_text_spec(b, sep) =~= pieces@.map_values(g));
    }
    pieces
}

/// Splits a string at the ASCII character `sep`, as `str::split` does.
pub fn split_str<'a>(s: &'a str, sep: char) -> (r: Vec<&'a str>)
    requires
        (sep as u32) < 0x80,
    ensures
        r@.map_values(|k: &str| k@) == split_seq(s@, sep),
{
    let bytes = s.as_bytes();
    let b: u8 = sep as u8;
    proof {
        lemma_split_encode(s@, sep);
        assert(bytes@ == encode_utf8(s@));
    }
    split_on_byte(bytes, b)
}

} // verus!

verus! {

/// Whether the bytes are well-formed UTF-8.
pub fn is_utf8(bytes: &[u8]) -> (r: bool)
    ensures
        r == valid_utf8(bytes@),
{
    str_from_utf8(bytes).is_some()
}

} // verus!

verus! {

/// `a` comes before `b` in lexicographic byte order: at the first place where
/// they differ the byte of `a` is smaller, or `a` is a proper prefix of `b`.
pub open spec fn bytes_lt(a: Seq<u8>, b: Seq<u8>) -> bool
    decreases a.len(),
{
    if b.len() == 0 {
        false
    } else if a.len() == 0 {
        true
    } else if a[0] != b[0] {
        a[0] < b[0]
    } else {
        bytes_lt(a.drop_first(), b.drop_first())
    }
}

/// The order of `String`s: that of their UTF-8 bytes.
pub open spec fn key_lt(a: Seq<char>, b: Seq<char>) -> bool {
    bytes_lt(encode_utf8(a), encode_utf8(b))
}

/// Nothing comes before itself.
pub proof fn lemma_bytes_lt_irreflexive(a: Seq<u8>)
    ensures
        !bytes_lt(a, a),
    decreases a.len(),
{
    if a.len() > 0 {
        lemma_bytes_lt_irreflexive(a.drop_first());
    }
}

/// Of two different byte strings, one comes before the other.
pub proof fn lemma_bytes_lt_total(a: Seq<u8>, b: Seq<u8>)
    requires
        a != b,
    ensures
        bytes_lt(a, b) || bytes_lt(b, a),
    decreases a.len(),
{
    if a.len() > 0 && b.len() > 0 && a[0] == b[0] {
        if a.drop_first() == b.drop_first() {
            assert(a =~= seq![a[0]] + a.drop_first());
            assert(b =~= seq![b[0]] + b.drop_first());
        }
        lemma_bytes_lt_total(a.drop_first(), b.drop_first());
    } else if a.len() == 0 && b.len() == 0 {
        assert(a =~= b);
    }
}

/// The byte order is transitive.
pub proof fn lemma_bytes_lt_transitive(a: Seq<u8>, b: Seq<u8>, c: Seq<u8>)
    requires
        bytes_lt(a, b),
        bytes_lt(b, c),
    ensures
        bytes_lt(a, c),
    decreases a.len(),
{
    if a.len() > 0 && a[0] == b[0] && b[0] == c[0] {
        lemma_bytes_lt_transitive(a.drop_first(), b.drop_first(), c.drop_first());
    }
}

/// No string comes before itself, and of two different strings one comes
/// before the other.
pub proof fn lemma_key_lt_strict_total(a: Seq<char>, b: Seq<char>)
    ensures
        !key_lt(a, a),
        a != b ==> key_lt(a, b) || key_lt(b, a),
        key_lt(a, b) ==> !key_lt(b, a),
{
    lemma_bytes_lt_irreflexive(encode_utf8(a));
    if a != b {
        encode_utf8_decode_utf8(a);
        encode_utf8_decode_utf8(b);
        lemma_bytes_lt_total(encode_utf8(a), encode_utf8(b));
    }
    if key_lt(a, b) && key_lt(b, a) {
        lemma_bytes_lt_transitive(encode_utf8(a), encode_utf8(b), encode_utf8(a));
    }
}

/// The string order is transitive.
pub proof fn lemma_key_lt_transitive(a: Seq<char>, b: Seq<char>, c: Seq<char>)
    requires
        key_lt(a, b),
        key_lt(b, c),
    ensures
        key_lt(a, c),
{
    lemma_bytes_lt_transitive(encode_utf8(a), encode_utf8(b), encode_utf8(c));
}

/// Whether `a` comes before `b`, as `a < b` on strings.
pub fn str_lt(a: &str, b: &str) -> (r: bool)
    ensures
        r == key_lt(a@, b@),
{
    let x = a.as_bytes();
    let y = b.as_bytes();
    assert(x@.skip(0) =~= x@);
    assert(y@.skip(0) =~= y@);
    let mut i: usize = 0;
    while i < x.len() && i < y.len()
        invariant
            x@ == encode_utf8(a@),
            y@ == encode_utf8(b@),
            i <= x@.len(),
            i <= y@.len(),
            bytes_lt(x@, y@) == bytes_lt(x@.skip(i as int), y@.skip(i as int)),
        decreases x@.len() - i,
    {
        assert(x@.skip(i as int).drop_first() =~= x@.skip(i + 1));
        assert(y@.skip(i as int).drop_first() =~= y@.skip(i + 1));
        if x[i] != y[i] {
            return x[i] < y[i];
        }
        i = i + 1;
    }
    i < y.len()
}

} // verus!
