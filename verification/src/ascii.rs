//! Encoding and decoding of decimal numeric character references.
//!
//! `encode` turns every character of a text into a token `&#N;`, where `N`
//! is the decimal value of the character's code point; `decode` reverses
//! this, silently dropping tokens that do not denote a Unicode scalar value.

use vstd::prelude::*;

verus! {

/// True when `c` is one of the decimal digits `'0'` through `'9'`.
pub open spec fn is_dec_digit(c: char) -> bool {
    48 <= c as u32 <= 57
}

/// The numeric value of a decimal digit character (`'0'` maps to 0).
pub open spec fn digit_val(c: char) -> int {
    c as u32 - 48
}

/// The decimal digit character for a value between 0 and 9.
pub open spec fn digit_char(d: int) -> char {
    ((d + 48) as u32) as char
}

/// True when every character of `s` is a decimal digit.
pub open spec fn all_digits(s: Seq<char>) -> bool {
    forall|i: int| 0 <= i < s.len() ==> is_dec_digit(#[trigger] s[i])
}

/// The value of `s` read as a decimal numeral, most significant digit first.
pub open spec fn dec_val(s: Seq<char>) -> int
    decreases s.len(),
{
    if s.len() == 0 {
        0
    } else {
        dec_val(s.drop_last()) * 10 + digit_val(s.last())
    }
}

/// The decimal numeral of `n` without leading zeros (just `"0"` for 0).
pub open spec fn dec_digits(n: int) -> Seq<char>
    decreases n,
{
    if n < 10 {
        seq![digit_char(n)]
    } else {
        dec_digits(n / 10) + seq![digit_char(n % 10)]
    }
}

/// The result of parsing `s` by the textual rules of an unsigned 32-bit
/// decimal integer: defined exactly when `s` is non-empty, all digits, and
/// its value fits in a `u32`.
pub open spec fn parse_dec(s: Seq<char>) -> Option<u32> {
    if s.len() > 0 && all_digits(s) && dec_val(s) <= u32::MAX {
        Some(dec_val(s) as u32)
    } else {
        None
    }
}

/// Why a token failed to decode. `Int` stands for a failure to read the
/// digits as a `u32`; `Unicode` carries a value that is no Unicode scalar.
#[derive(Debug, PartialEq, Eq)]
pub enum Error {
    Int,
    Unicode(u32),
}

/// What `parse_unicode` returns: the character whose code point the digits
/// of `s` spell, or the error that classifies the failure.
pub open spec fn parse_unicode_spec(s: Seq<char>) -> Result<char, Error> {
    match parse_dec(s) {
        Some(n) => if vstd::utf8::is_scalar(n) {
            Ok(n as char)
        } else {
            Err(Error::Unicode(n))
        },
        None => Err(Error::Int),
    }
}

/// `s` with every occurrence of the marker `&#` removed, scanning left to
/// right without overlap, as `str::replace` does.
pub open spec fn strip_markers(s: Seq<char>) -> Seq<char>
    decreases s.len(),
{
    if s.len() >= 2 && s[0] == '&' && s[1] == '#' {
        strip_markers(s.skip(2))
    } else if s.len() == 0 {
        s
    } else {
        seq![s[0]] + strip_markers(s.skip(1))
    }
}

/// The index of the first `';'` in `s`, or `s.len()` if there is none.
pub open spec fn find_semi(s: Seq<char>) -> int
    decreases s.len(),
{
    if s.len() == 0 {
        0
    } else if s[0] == ';' {
        0
    } else {
        1 + find_semi(s.drop_first())
    }
}

/// The segments of `s` between `';'` delimiters, in order. Splitting the
/// empty sequence gives one empty segment, and a trailing `';'` gives an
/// extra empty segment at the end, as `str::split` does.
pub open spec fn split_semi(s: Seq<char>) -> Seq<Seq<char>>
    decreases s.len(),
{
    let i = find_semi(s);
    if 0 <= i < s.len() {
        seq![s.take(i)] + split_semi(s.skip(i + 1))
    } else {
        seq![s]
    }
}

/// What one segment contributes to the decoded text: the character its
/// digits spell after the markers are stripped, or nothing on any failure.
pub open spec fn seg_contrib(seg: Seq<char>) -> Seq<char> {
    match parse_unicode_spec(strip_markers(seg)) {
        Ok(c) => seq![c],
        Err(_) => Seq::<char>::empty(),
    }
}

/// The contributions of all segments, concatenated in order.
pub open spec fn concat_contribs(segs: Seq<Seq<char>>) -> Seq<char>
    decreases segs.len(),
{
    if segs.len() == 0 {
        Seq::<char>::empty()
    } else {
        seg_contrib(segs[0]) + concat_contribs(segs.drop_first())
    }
}

/// The decoding of `s`: split on `';'`, strip markers, parse each segment,
/// and concatenate whatever the segments contribute.
pub open spec fn decode_spec(s: Seq<char>) -> Seq<char> {
    concat_contribs(split_semi(s))
}

/// The token for one character: `&#`, the decimal code point, `;`.
pub open spec fn encode_char(c: char) -> Seq<char> {
    seq!['&', '#'] + dec_digits(c as u32 as int) + seq![';']
}

/// The encoding of `s`: every character's token, concatenated in order
/// with no separator.
pub open spec fn encode_spec(s: Seq<char>) -> Seq<char>
    decreases s.len(),
{
    if s.len() == 0 {
        Seq::<char>::empty()
    } else {
        encode_char(s[0]) + encode_spec(s.drop_first())
    }
}

/// Relies on char::from_u32: `Some` exactly on Unicode scalar values, and
/// the character returned has the given code point.
pub assume_specification[ char::from_u32 ](v: u32) -> (r: Option<char>)
    ensures
        r == if vstd::utf8::is_scalar(v) {
            Some(v as char)
        } else {
            None::<char>
        },
;

/// Relies on String::push: appends the given character.
#[verifier::external_body]
fn push_char(s: &mut String, c: char)
    ensures
        final(s)@ == old(s)@ + seq![c],
{
    s.push(c);
}

/// The characters of `s`, in order, as a vector.
fn str_to_chars(s: &str) -> (r: Vec<char>)
    ensures
        r@ == s@,
{
    let n: usize = s.unicode_len();
    let mut r: Vec<char> = Vec::new();
    let mut i: usize = 0;
    while i < n
        invariant
            i <= n,
            n == s@.len(),
            r@ == s@.take(i as int),
        decreases n - i,
    {
        let c = s.get_char(i);
        r.push(c);
        proof {
            assert(s@.take(i + 1 as int) =~= s@.take(i as int).push(s@[i as int]));
        }
        i = i + 1;
    }
    proof {
        assert(s@.take(n as int) =~= s@);
    }
    r
}

/// A freshly allocated string holding the characters of `v`, in order.
fn chars_to_string(v: &Vec<char>) -> (r: String)
    ensures
        r@ == v@,
{
    let mut r: String = String::new();
    let mut i: usize = 0;
    while i < v.len()
        invariant
            i <= v@.len(),
            r@ == v@.take(i as int),
        decreases v@.len() - i,
    {
        push_char(&mut r, v[i]);
        proof {
            assert(v@.take(i + 1 as int) =~= v@.take(i as int) + seq![v@[i as int]]);
        }
        i = i + 1;
    }
    proof {
        assert(v@.take(v@.len() as int) =~= v@);
    }
    r
}

/// A numeral of digits has a non-negative value.
proof fn lemma_dec_val_nonneg(s: Seq<char>)
    requires
        all_digits(s),
    ensures
        dec_val(s) >= 0,
    decreases s.len(),
{
    if s.len() > 0 {
        assert(all_digits(s.drop_last()));
        lemma_dec_val_nonneg(s.drop_last());
    }
}

/// Reading more digits never shrinks the value of a numeral.
proof fn lemma_dec_val_prefix_le(s: Seq<char>, k: int)
    requires
        all_digits(s),
        0 <= k <= s.len(),
    ensures
        dec_val(s.take(k)) <= dec_val(s),
    decreases s.len(),
{
    if k == s.len() {
        assert(s.take(k) =~= s);
    } else {
        let t = s.drop_last();
        assert(all_digits(t));
        assert(t.take(k) =~= s.take(k));
        lemma_dec_val_prefix_le(t, k);
        lemma_dec_val_nonneg(t);
    }
}

/// The value of the digits of `chars` as an unsigned 32-bit integer, or
/// `None` exactly where `u32` parsing fails: an empty input, a character
/// that is no decimal digit, or a value past `u32::MAX`.
fn parse_dec_chars(chars: &Vec<char>) -> (r: Option<u32>)
    ensures
        r == parse_dec(chars@),
{
    let n: usize = chars.len();
    if n == 0 {
        return None;
    }
    let mut acc: u32 = 0;
    let mut i: usize = 0;
    while i < n
        invariant
            i <= n,
            n == chars@.len(),
            n > 0,
            all_digits(chars@.take(i as int)),
            acc as int == dec_val(chars@.take(i as int)),
        decreases n - i,
    {
        let c = chars[i];
        let u: u32 = c as u32;
        if u < 48 || u > 57 {
            proof {
                assert(!is_dec_digit(chars@[i as int]));
            }
            return None;
        }
        let d: u32 = u - 48;
        let wide: u64 = acc as u64 * 10 + d as u64;
        proof {
            assert(chars@.take(i + 1 as int).drop_last() =~= chars@.take(i as int));
            assert(chars@.take(i + 1 as int).last() == chars@[i as int]);
        }
        if wide > u32::MAX as u64 {
            proof {
                if all_digits(chars@) {
                    lemma_dec_val_prefix_le(chars@, i + 1 as int);
                }
            }
            return None;
        }
        acc = wide as u32;
        i = i + 1;
    }
    proof {
        assert(chars@.take(n as int) =~= chars@);
    }
    Some(acc)
}

/// The character whose code point the digits of `chars` spell, or the
/// error that classifies the failure.
fn parse_unicode_chars(chars: &Vec<char>) -> (r: Result<char, Error>)
    ensures
        r == parse_unicode_spec(chars@),
{
    match parse_dec_chars(chars) {
        None => Err(Error::Int),
        Some(n) => match char::from_u32(n) {
            Some(c) => Ok(c),
            None => Err(Error::Unicode(n)),
        },
    }
}

/// Parses `input` as the decimal numeral of a code point and returns the
/// character it denotes. Fails with `Error::Int` where `input` is not the
/// numeral of a `u32`, and with `Error::Unicode` where the value is no
/// Unicode scalar value (a surrogate, or past the maximum code point).
pub fn parse_unicode(input: &str) -> (r: Result<char, Error>)
    ensures
        r == parse_unicode_spec(input@),
{
    let chars = str_to_chars(input);
    parse_unicode_chars(&chars)
}

/// The encoding of a single character is its token.
proof fn lemma_encode_spec_single(c: char)
    ensures
        encode_spec(seq![c]) == encode_char(c),
{
    assert(seq![c].drop_first() =~= Seq::<char>::empty());
    assert(encode_spec(seq![c].drop_first()) == Seq::<char>::empty());
    assert(encode_spec(seq![c]) =~= encode_char(c));
}

/// Encoding distributes over concatenation of texts: the tokens of the
/// characters stand in input order, with nothing between them.
pub proof fn lemma_encode_spec_concat(a: Seq<char>, b: Seq<char>)
    ensures
        encode_spec(a + b) == encode_spec(a) + encode_spec(b),
    decreases a.len(),
{
    if a.len() == 0 {
        assert(a + b =~= b);
        assert(encode_spec(a) + encode_spec(b) =~= encode_spec(b));
    } else {
        assert((a + b)[0] == a[0]);
        assert((a + b).drop_first() =~= a.drop_first() + b);
        lemma_encode_spec_concat(a.drop_first(), b);
        assert(encode_spec(a + b) =~= encode_spec(a) + encode_spec(b));
    }
}

/// Appends the decimal numeral of `n`, most significant digit first.
fn push_dec_digits(n: u32, out: &mut Vec<char>)
    ensures
        final(out)@ == old(out)@ + dec_digits(n as int),
    decreases n,
{
    if n < 10 {
        let c: char = (48 + n) as u8 as char;
        proof {
            assert(c == digit_char(n as int));
        }
        out.push(c);
        proof {
            assert(out@ =~= old(out)@ + dec_digits(n as int));
        }
    } else {
        push_dec_digits(n / 10, out);
        let c: char = (48 + n % 10) as u8 as char;
        proof {
            assert(c == digit_char(n as int % 10));
        }
        out.push(c);
        proof {
            assert(out@ =~= old(out)@ + dec_digits(n as int));
        }
    }
}

/// Encodes `s` as numeric character references: every character becomes
/// the token `&#N;`, with `N` its decimal code point, and the tokens stand
/// in the order of the characters, with nothing between them. The empty
/// text encodes to the empty string.
pub fn encode(s: &str) -> (r: String)
    ensures
        r@ == encode_spec(s@),
{
    let chars = str_to_chars(s);
    let n: usize = chars.len();
    let mut out: Vec<char> = Vec::new();
    let mut i: usize = 0;
    while i < n
        invariant
            i <= n,
            n == chars@.len(),
            chars@ == s@,
            out@ == encode_spec(s@.take(i as int)),
        decreases n - i,
    {
        let c = chars[i];
        out.push('&');
        out.push('#');
        push_dec_digits(c as u32, &mut out);
        out.push(';');
        proof {
            assert(s@.take(i + 1 as int) =~= s@.take(i as int) + seq![s@[i as int]]);
            lemma_encode_spec_concat(s@.take(i as int), seq![s@[i as int]]);
            lemma_encode_spec_single(s@[i as int]);
            assert(out@ =~= encode_spec(s@.take(i as int)) + encode_char(s@[i as int]));
        }
        i = i + 1;
    }
    proof {
        assert(s@.take(n as int) =~= s@);
    }
    chars_to_string(&out)
}

/// True when no character of `s` is the delimiter `';'`.
pub open spec fn no_semi(s: Seq<char>) -> bool {
    forall|i: int| 0 <= i < s.len() ==> #[trigger] s[i] != ';'
}

/// In a sequence without the delimiter, the first `';'` is past the end.
proof fn lemma_find_semi_none(s: Seq<char>)
    requires
        no_semi(s),
    ensures
        find_semi(s) == s.len(),
    decreases s.len(),
{
    if s.len() > 0 {
        assert(s[0] != ';');
        assert(no_semi(s.drop_first()));
        lemma_find_semi_none(s.drop_first());
    }
}

/// The first `';'` of `s` is at `k` when none stands before `k`.
proof fn lemma_find_semi_at(s: Seq<char>, k: int)
    requires
        0 <= k < s.len(),
        no_semi(s.take(k)),
        s[k] == ';',
    ensures
        find_semi(s) == k,
    decreases k,
{
    if k == 0 {
    } else {
        assert(s.take(k)[0] == s[0]);
        assert(s[0] != ';');
        let t = s.drop_first();
        assert(t.take(k - 1) =~= s.take(k).drop_first());
        assert(no_semi(t.take(k - 1)));
        assert(t[k - 1] == s[k]);
        lemma_find_semi_at(t, k - 1);
    }
}

/// The contributions of a single segment.
proof fn lemma_concat_contribs_single(a: Seq<char>)
    ensures
        concat_contribs(seq![a]) == seg_contrib(a),
{
    assert(seq![a].drop_first() =~= Seq::<Seq<char>>::empty());
    assert(concat_contribs(seq![a].drop_first()) == Seq::<char>::empty());
    assert(concat_contribs(seq![a]) =~= seg_contrib(a));
}

/// Peeling the first segment off a list of segments.
proof fn lemma_concat_contribs_cons(a: Seq<char>, rest: Seq<Seq<char>>)
    ensures
        concat_contribs(seq![a] + rest) == seg_contrib(a) + concat_contribs(rest),
{
    let segs = seq![a] + rest;
    assert(segs.len() > 0);
    assert(segs[0] == a);
    assert(segs.drop_first() =~= rest);
}

/// Decoding a sequence without the delimiter: one segment, its contribution.
proof fn lemma_decode_spec_no_semi(s: Seq<char>)
    requires
        no_semi(s),
    ensures
        decode_spec(s) == seg_contrib(s),
{
    lemma_find_semi_none(s);
    lemma_concat_contribs_single(s);
}

/// Decoding past the first delimiter: the head segment contributes, and
/// the rest decodes on its own.
proof fn lemma_decode_spec_step(s: Seq<char>, k: int)
    requires
        0 <= k < s.len(),
        no_semi(s.take(k)),
        s[k] == ';',
    ensures
        decode_spec(s) == seg_contrib(s.take(k)) + decode_spec(s.skip(k + 1)),
{
    lemma_find_semi_at(s, k);
    lemma_concat_contribs_cons(s.take(k), split_semi(s.skip(k + 1)));
}

/// The characters of `v` from `from` (inclusive) to `to` (exclusive).
fn subvec(v: &Vec<char>, from: usize, to: usize) -> (r: Vec<char>)
    requires
        from <= to <= v@.len(),
    ensures
        r@ == v@.subrange(from as int, to as int),
{
    let mut r: Vec<char> = Vec::new();
    let mut i: usize = from;
    while i < to
        invariant
            from <= i <= to <= v@.len(),
            r@ == v@.subrange(from as int, i as int),
        decreases to - i,
    {
        r.push(v[i]);
        proof {
            assert(v@.subrange(from as int, i + 1 as int) =~= v@.subrange(
                from as int,
                i as int,
            ).push(v@[i as int]));
        }
        i = i + 1;
    }
    r
}

/// `seg` with every occurrence of the marker `&#` removed, left to right.
fn strip_markers_chars(seg: &Vec<char>) -> (r: Vec<char>)
    ensures
        r@ == strip_markers(seg@),
{
    let n: usize = seg.len();
    let mut r: Vec<char> = Vec::new();
    let mut j: usize = 0;
    proof {
        assert(seg@.skip(0) =~= seg@);
        assert(Seq::<char>::empty() + strip_markers(seg@) =~= strip_markers(seg@));
    }
    while j < n
        invariant
            j <= n,
            n == seg@.len(),
            strip_markers(seg@) == r@ + strip_markers(seg@.skip(j as int)),
        decreases n - j,
    {
        let t = Ghost(seg@.skip(j as int));
        if j + 1 < n && seg[j] == '&' && seg[j + 1] == '#' {
            proof {
                assert(t@.len() >= 2);
                assert(t@[0] == '&' && t@[1] == '#');
                assert(t@.skip(2) =~= seg@.skip(j + 2 as int));
            }
            j = j + 2;
        } else {
            let c = seg[j];
            proof {
                assert(t@[0] == c);
                assert(!(t@.len() >= 2 && t@[0] == '&' && t@[1] == '#'));
                assert(t@.skip(1) =~= seg@.skip(j + 1 as int));
                assert(strip_markers(t@) == seq![c] + strip_markers(seg@.skip(j + 1 as int)));
                assert(r@.push(c) + strip_markers(seg@.skip(j + 1 as int)) =~= r@ + strip_markers(
                    t@,
                ));
            }
            r.push(c);
            j = j + 1;
        }
    }
    proof {
        assert(seg@.skip(n as int) =~= Seq::<char>::empty());
        assert(strip_markers(Seq::<char>::empty()) == Seq::<char>::empty());
        assert(r@ + Seq::<char>::empty() =~= r@);
    }
    r
}

/// Appends what one segment contributes to the decoded text.
fn push_contrib(seg: &Vec<char>, out: &mut Vec<char>)
    ensures
        final(out)@ == old(out)@ + seg_contrib(seg@),
{
    let stripped = strip_markers_chars(seg);
    match parse_unicode_chars(&stripped) {
        Ok(c) => {
            out.push(c);
            proof {
                assert(out@ =~= old(out)@ + seg_contrib(seg@));
            }
        },
        Err(_) => {
            proof {
                assert(out@ =~= old(out)@ + seg_contrib(seg@));
            }
        },
    }
}

/// Decodes a string of numeric character references: the text between
/// consecutive `';'` delimiters is taken as one token, its `&#` markers
/// are stripped wherever they stand, and the remaining digits name a code
/// point. Every well-formed token contributes its character, in order; a
/// token whose digits do not parse as a `u32`, or whose value is no
/// Unicode scalar value, contributes nothing. Decoding never fails.
pub fn decode(u: &str) -> (r: String)
    ensures
        r@ == decode_spec(u@),
{
    let chars = str_to_chars(u);
    let n: usize = chars.len();
    let mut out: Vec<char> = Vec::new();
    let mut start: usize = 0;
    let mut i: usize = 0;
    proof {
        assert(u@.skip(0) =~= u@);
        assert(Seq::<char>::empty() + decode_spec(u@) =~= decode_spec(u@));
    }
    while i < n
        invariant
            start <= i <= n,
            n == chars@.len(),
            chars@ == u@,
            no_semi(u@.subrange(start as int, i as int)),
            decode_spec(u@) == out@ + decode_spec(u@.skip(start as int)),
        decreases n - i,
    {
        if chars[i] == ';' {
            let seg = subvec(&chars, start, i);
            proof {
                let t = u@.skip(start as int);
                assert(t.take(i - start) =~= u@.subrange(start as int, i as int));
                assert(t[i - start] == ';');
                lemma_decode_spec_step(t, i - start);
                assert(t.skip(i - start + 1) =~= u@.skip(i + 1 as int));
            }
            push_contrib(&seg, &mut out);
            start = i + 1;
        } else {
            proof {
                assert(u@.subrange(start as int, i + 1 as int) =~= u@.subrange(
                    start as int,
                    i as int,
                ).push(u@[i as int]));
            }
        }
        i = i + 1;
    }
    let seg = subvec(&chars, start, n);
    proof {
        let t = u@.skip(start as int);
        assert(t =~= u@.subrange(start as int, n as int));
        lemma_decode_spec_no_semi(t);
    }
    push_contrib(&seg, &mut out);
    chars_to_string(&out)
}

/// The decimal numeral of a value in `u32` range is non-empty, consists
/// of digits alone, and reads back as the same value.
proof fn lemma_dec_digits_props(n: int)
    requires
        0 <= n <= u32::MAX,
    ensures
        dec_digits(n).len() >= 1,
        all_digits(dec_digits(n)),
        dec_val(dec_digits(n)) == n,
    decreases n,
{
    if n < 10 {
        assert(digit_char(n) as u32 == n + 48);
        assert(seq![digit_char(n)].drop_last() =~= Seq::<char>::empty());
        assert(dec_val(Seq::<char>::empty()) == 0);
        assert(seq![digit_char(n)].last() == digit_char(n));
        assert(dec_val(seq![digit_char(n)]) == digit_val(digit_char(n)));
    } else {
        lemma_dec_digits_props(n / 10);
        let d = dec_digits(n / 10) + seq![digit_char(n % 10)];
        assert(digit_char(n % 10) as u32 == n % 10 + 48);
        assert(all_digits(d));
        assert(d.drop_last() =~= dec_digits(n / 10));
        assert(d.last() == digit_char(n % 10));
        assert(digit_val(digit_char(n % 10)) == n % 10);
        assert(dec_val(d) == dec_val(dec_digits(n / 10)) * 10 + digit_val(d.last()));
        assert(n / 10 * 10 + n % 10 == n);
    }
}

/// Stripping markers from a pure digit string changes nothing: no digit
/// can open a marker.
proof fn lemma_strip_markers_digits(s: Seq<char>)
    requires
        all_digits(s),
    ensures
        strip_markers(s) == s,
    decreases s.len(),
{
    if s.len() > 0 {
        assert(s[0] as u32 >= 48);
        assert(s[0] != '&');
        assert(all_digits(s.skip(1)));
        lemma_strip_markers_digits(s.skip(1));
        assert(seq![s[0]] + s.skip(1) =~= s);
    }
}

/// A numeric character reference round-trips: the token of a character,
/// with its final delimiter already split away, decodes to that character.
proof fn lemma_token_contrib(c: char)
    ensures
        seg_contrib(seq!['&', '#'] + dec_digits(c as u32 as int)) == seq![c],
{
    let cp = c as u32;
    vstd::utf8::char_is_scalar(c);
    lemma_dec_digits_props(cp as int);
    let d = dec_digits(cp as int);
    let seg = seq!['&', '#'] + d;
    assert(seg[0] == '&' && seg[1] == '#');
    assert(seg.skip(2) =~= d);
    lemma_strip_markers_digits(d);
    assert(strip_markers(seg) == d);
    assert(dec_val(d) as u32 == cp);
    assert(parse_dec(d) == Some(cp));
    vstd::utf8::char_u32_cast(c, cp);
    assert(parse_unicode_spec(d) == Ok::<char, Error>(c));
}

/// Decoding inverts encoding: for every text, the decoding of its
/// encoding is the text itself.
pub proof fn lemma_decode_encode(s: Seq<char>)
    ensures
        decode_spec(encode_spec(s)) == s,
    decreases s.len(),
{
    if s.len() == 0 {
        let e = Seq::<char>::empty();
        lemma_decode_spec_no_semi(e);
        assert(strip_markers(e) == e);
        assert(decode_spec(encode_spec(s)) =~= s);
    } else {
        let c = s[0];
        let cp = c as u32;
        vstd::utf8::char_is_scalar(c);
        lemma_dec_digits_props(cp as int);
        let d = dec_digits(cp as int);
        let e = encode_spec(s);
        let rest = encode_spec(s.drop_first());
        let k = 2 + d.len() as int;
        assert(e == encode_char(c) + rest);
        assert(e.take(k) =~= seq!['&', '#'] + d);
        assert(e[k] == ';');
        assert forall|i: int| 0 <= i < k implies #[trigger] e.take(k)[i] != ';' by {
            if i >= 2 {
                assert(is_dec_digit(d[i - 2]));
                assert(d[i - 2] as u32 <= 57);
            }
        }
        lemma_decode_spec_step(e, k);
        assert(e.skip(k + 1) =~= rest);
        lemma_token_contrib(c);
        lemma_decode_encode(s.drop_first());
        assert(decode_spec(e) =~= seq![c] + s.drop_first());
        assert(seq![c] + s.drop_first() =~= s);
    }
}

/// Every token of an encoding has the shape `&#` + digits + `;`: it opens
/// with the marker, closes with the delimiter, and holds at least one
/// decimal digit and nothing else between them.
pub proof fn lemma_token_format(c: char)
    ensures
        encode_char(c).len() >= 4,
        encode_char(c)[0] == '&',
        encode_char(c)[1] == '#',
        encode_char(c).last() == ';',
        forall|i: int|
            2 <= i < encode_char(c).len() - 1 ==> is_dec_digit(#[trigger] encode_char(c)[i]),
{
    vstd::utf8::char_is_scalar(c);
    lemma_dec_digits_props(c as u32 as int);
}

} // verus!
