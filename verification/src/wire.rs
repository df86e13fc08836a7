//! The binary wire format for [`Request`], [`Response`] and [`StockQuote`].
//!
//! Every message is a tag byte followed by its payload; integers are
//! little-endian, a string is a 16-bit character count followed by one 32-bit
//! scalar value per character. The format is canonical: a value has exactly
//! one encoding, and the parser accepts exactly the encodings.
//!
//! This module holds the mathematical description: the encoding functions,
//! the prefix parsers (each returns the value and how many bytes it took),
//! and the two lemma families the executable codec is proved against —
//! a parser consumes exactly what the encoder produced (`lemma_*_round_trip`),
//! and whatever the parser accepts is such an encoding (`lemma_*_sound`).

use vstd::prelude::*;
use vstd::arithmetic::div_mod::{lemma_fundamental_div_mod, lemma_fundamental_div_mod_converse};
use crate::messages::{IpAddress, QuoteView, RequestView, ResponseView};

verus! {

/// Largest datagram or handshake message the service exchanges, in bytes.
pub const MTU: usize = 1024;

/// The little-endian bytes of a 16-bit integer.
pub open spec fn le16(v: u16) -> Seq<u8> {
    seq![(v as int % 256) as u8, (v as int / 256 % 256) as u8]
}

/// The little-endian bytes of a 32-bit integer.
pub open spec fn le32(v: u32) -> Seq<u8> {
    seq![
        (v as int % 256) as u8,
        (v as int / 256 % 256) as u8,
        (v as int / 65536 % 256) as u8,
        (v as int / 16777216 % 256) as u8,
    ]
}

/// The little-endian bytes of a 64-bit integer.
pub open spec fn le64(v: u64) -> Seq<u8> {
    seq![
        (v as int % 256) as u8,
        (v as int / 256 % 256) as u8,
        (v as int / 65536 % 256) as u8,
        (v as int / 16777216 % 256) as u8,
        (v as int / 4294967296 % 256) as u8,
        (v as int / 1099511627776 % 256) as u8,
        (v as int / 281474976710656 % 256) as u8,
        (v as int / 72057594037927936 % 256) as u8,
    ]
}

/// Reads a 16-bit integer from the front of `b`.
pub open spec fn p_u16(b: Seq<u8>) -> Option<(u16, int)> {
    if b.len() >= 2 {
        Some(((b[0] as int + 256 * (b[1] as int)) as u16, 2))
    } else {
        None
    }
}

/// Reads a 32-bit integer from the front of `b`.
pub open spec fn p_u32(b: Seq<u8>) -> Option<(u32, int)> {
    if b.len() >= 4 {
        Some(
            (
                (b[0] as int + 256 * (b[1] as int) + 65536 * (b[2] as int) + 16777216 * (
                b[3] as int)) as u32,
                4,
            ),
        )
    } else {
        None
    }
}

/// Reads a 64-bit integer from the front of `b`.
pub open spec fn p_u64(b: Seq<u8>) -> Option<(u64, int)> {
    if b.len() >= 8 {
        Some(
            (
                (b[0] as int + 256 * (b[1] as int) + 65536 * (b[2] as int) + 16777216 * (
                b[3] as int) + 4294967296 * (b[4] as int) + 1099511627776 * (b[5] as int)
                    + 281474976710656 * (b[6] as int) + 72057594037927936 * (
                b[7] as int)) as u64,
                8,
            ),
        )
    } else {
        None
    }
}

/// A 16-bit integer's bytes parse back to it, whatever follows them.
pub proof fn lemma_le16_round_trip(v: u16, rest: Seq<u8>)
    ensures
        p_u16(le16(v) + rest) == Some((v, 2int)),
{
    let b = le16(v) + rest;
    lemma_fundamental_div_mod(v as int, 256);
    assert(b[0] == (v as int % 256) as u8);
    assert(b[1] == (v as int / 256 % 256) as u8);
    assert(v as int / 256 < 256) by {
        lemma_fundamental_div_mod_converse_auto_helper(v as int);
    }
}

/// Helper: bounds of division by 256 for 16-bit values.
proof fn lemma_fundamental_div_mod_converse_auto_helper(v: int)
    requires
        0 <= v < 65536,
    ensures
        0 <= v / 256 < 256,
        v / 256 % 256 == v / 256,
{
    assert(0 <= v / 256 < 256) by (nonlinear_arith)
        requires 0 <= v < 65536;
    assert(v / 256 % 256 == v / 256) by {
        lemma_fundamental_div_mod(v / 256, 256);
    }
}

/// Splits off the lowest byte: `v == 256 * (v / 256) + v % 256`, with bounds.
proof fn lemma_byte_split(v: int, bound: int)
    requires
        0 <= v,
        v < 256 * bound,
        0 < bound,
    ensures
        v == 256 * (v / 256) + v % 256,
        0 <= v % 256 < 256,
        0 <= v / 256 < bound,
{
    lemma_fundamental_div_mod(v, 256);
    assert(0 <= v / 256 < bound) by (nonlinear_arith)
        requires 0 <= v, v < 256 * bound, 0 < bound;
}

/// The next byte of a digit sum: with `0 <= r < 256`, the value
/// `256 * q + r` has low byte `r` and high part `q`.
proof fn lemma_digit_step(q: int, r: int)
    requires
        0 <= r < 256,
        0 <= q,
    ensures
        (256 * q + r) % 256 == r,
        (256 * q + r) / 256 == q,
{
    lemma_fundamental_div_mod_converse(256 * q + r, 256, q, r);
}

/// A 32-bit integer's bytes parse back to it, whatever follows them.
pub proof fn lemma_le32_round_trip(v: u32, rest: Seq<u8>)
    ensures
        p_u32(le32(v) + rest) == Some((v, 4int)),
{
    let b = le32(v) + rest;
    let x = v as int;
    lemma_byte_split(x, 16777216);
    lemma_byte_split(x / 256, 65536);
    lemma_byte_split(x / 256 / 256, 256);
    assert(x / 256 / 256 == x / 65536) by (nonlinear_arith);
    assert(x / 256 / 256 / 256 == x / 16777216) by (nonlinear_arith);
    assert(x / 16777216 % 256 == x / 16777216) by {
        lemma_fundamental_div_mod(x / 16777216, 256);
    }
    assert(b[0] as int + 256 * (b[1] as int) + 65536 * (b[2] as int) + 16777216 * (b[3] as int)
        == x);
}

/// A 64-bit integer's bytes parse back to it, whatever follows them.
pub proof fn lemma_le64_round_trip(v: u64, rest: Seq<u8>)
    ensures
        p_u64(le64(v) + rest) == Some((v, 8int)),
{
    let b = le64(v) + rest;
    let x = v as int;
    lemma_byte_split(x, 72057594037927936);
    lemma_byte_split(x / 256, 281474976710656);
    lemma_byte_split(x / 256 / 256, 1099511627776);
    lemma_byte_split(x / 256 / 256 / 256, 4294967296);
    lemma_byte_split(x / 256 / 256 / 256 / 256, 16777216);
    lemma_byte_split(x / 256 / 256 / 256 / 256 / 256, 65536);
    lemma_byte_split(x / 256 / 256 / 256 / 256 / 256 / 256, 256);
    assert(x / 256 / 256 == x / 65536) by (nonlinear_arith);
    assert(x / 256 / 256 / 256 == x / 16777216) by (nonlinear_arith);
    assert(x / 256 / 256 / 256 / 256 == x / 4294967296) by (nonlinear_arith);
    assert(x / 256 / 256 / 256 / 256 / 256 == x / 1099511627776) by (nonlinear_arith);
    assert(x / 256 / 256 / 256 / 256 / 256 / 256 == x / 281474976710656) by (nonlinear_arith);
    assert(x / 256 / 256 / 256 / 256 / 256 / 256 / 256 == x / 72057594037927936)
        by (nonlinear_arith);
    assert(x / 72057594037927936 % 256 == x / 72057594037927936) by {
        lemma_fundamental_div_mod(x / 72057594037927936, 256);
    }
    assert(b[0] as int + 256 * (b[1] as int) + 65536 * (b[2] as int) + 16777216 * (b[3] as int)
        + 4294967296 * (b[4] as int) + 1099511627776 * (b[5] as int) + 281474976710656 * (
    b[6] as int) + 72057594037927936 * (b[7] as int) == x);
}

/// Whatever `p_u16` accepts is the `le16` bytes of its value.
pub proof fn lemma_p_u16_sound(b: Seq<u8>)
    requires
        p_u16(b) is Some,
    ensures
        ({
            let (v, n) = p_u16(b)->Some_0;
            n == 2 && n <= b.len() && le16(v) == b.subrange(0, 2)
        }),
{
    let (v, n) = p_u16(b)->Some_0;
    let x = b[0] as int + 256 * (b[1] as int);
    assert(x < 65536);
    assert(v as int == x);
    lemma_digit_step(b[1] as int, b[0] as int);
    lemma_digit_step(0, b[1] as int);
    assert(x / 256 == b[1] as int);
    assert(le16(v) =~= b.subrange(0, 2));
}

/// Whatever `p_u32` accepts is the `le32` bytes of its value.
pub proof fn lemma_p_u32_sound(b: Seq<u8>)
    requires
        p_u32(b) is Some,
    ensures
        ({
            let (v, n) = p_u32(b)->Some_0;
            n == 4 && n <= b.len() && le32(v) == b.subrange(0, 4)
        }),
{
    let (v, n) = p_u32(b)->Some_0;
    let d0 = b[0] as int;
    let d1 = b[1] as int;
    let d2 = b[2] as int;
    let d3 = b[3] as int;
    let x = d0 + 256 * d1 + 65536 * d2 + 16777216 * d3;
    assert(x < 4294967296);
    assert(v as int == x);
    let q1 = d1 + 256 * d2 + 65536 * d3;
    let q2 = d2 + 256 * d3;
    lemma_digit_step(q1, d0);
    lemma_digit_step(q2, d1);
    lemma_digit_step(d3, d2);
    lemma_digit_step(0, d3);
    assert(x / 256 == q1);
    assert(q1 / 256 == q2);
    assert(x / 65536 == q2) by (nonlinear_arith)
        requires x / 256 == q1, q1 / 256 == q2, 0 <= x;
    assert(x / 16777216 == d3) by (nonlinear_arith)
        requires x / 65536 == q2, q2 / 256 == d3, 0 <= x;
    assert(le32(v) =~= b.subrange(0, 4));
}

/// Whatever `p_u64` accepts is the `le64` bytes of its value.
pub proof fn lemma_p_u64_sound(b: Seq<u8>)
    requires
        p_u64(b) is Some,
    ensures
        ({
            let (v, n) = p_u64(b)->Some_0;
            n == 8 && n <= b.len() && le64(v) == b.subrange(0, 8)
        }),
{
    let (v, n) = p_u64(b)->Some_0;
    let d0 = b[0] as int;
    let d1 = b[1] as int;
    let d2 = b[2] as int;
    let d3 = b[3] as int;
    let d4 = b[4] as int;
    let d5 = b[5] as int;
    let d6 = b[6] as int;
    let d7 = b[7] as int;
    let x = d0 + 256 * d1 + 65536 * d2 + 16777216 * d3 + 4294967296 * d4 + 1099511627776 * d5
        + 281474976710656 * d6 + 72057594037927936 * d7;
    assert(x < 18446744073709551616);
    assert(v as int == x);
    let q1 = d1 + 256 * d2 + 65536 * d3 + 16777216 * d4 + 4294967296 * d5 + 1099511627776 * d6
        + 281474976710656 * d7;
    let q2 = d2 + 256 * d3 + 65536 * d4 + 16777216 * d5 + 4294967296 * d6 + 1099511627776 * d7;
    let q3 = d3 + 256 * d4 + 65536 * d5 + 16777216 * d6 + 4294967296 * d7;
    let q4 = d4 + 256 * d5 + 65536 * d6 + 16777216 * d7;
    let q5 = d5 + 256 * d6 + 65536 * d7;
    let q6 = d6 + 256 * d7;
    lemma_digit_step(q1, d0);
    lemma_digit_step(q2, d1);
    lemma_digit_step(q3, d2);
    lemma_digit_step(q4, d3);
    lemma_digit_step(q5, d4);
    lemma_digit_step(q6, d5);
    lemma_digit_step(d7, d6);
    lemma_digit_step(0, d7);
    assert(x / 256 == q1);
    assert(x / 65536 == q2) by (nonlinear_arith)
        requires x / 256 == q1, q1 / 256 == q2, 0 <= x;
    assert(x / 16777216 == q3) by (nonlinear_arith)
        requires x / 65536 == q2, q2 / 256 == q3, 0 <= x;
    assert(x / 4294967296 == q4) by (nonlinear_arith)
        requires x / 16777216 == q3, q3 / 256 == q4, 0 <= x;
    assert(x / 1099511627776 == q5) by (nonlinear_arith)
        requires x / 4294967296 == q4, q4 / 256 == q5, 0 <= x;
    assert(x / 281474976710656 == q6) by (nonlinear_arith)
        requires x / 1099511627776 == q5, q5 / 256 == q6, 0 <= x;
    assert(x / 72057594037927936 == d7) by (nonlinear_arith)
        requires x / 281474976710656 == q6, q6 / 256 == d7, 0 <= x;
    assert(le64(v) =~= b.subrange(0, 8));
}

/// Casting a 64-bit signed value to unsigned and back is the identity.
pub proof fn lemma_i64_cast_round_trip(x: i64)
    ensures
        (x as u64) as i64 == x,
{
    assert((x as u64) as i64 == x) by (bit_vector);
}

/// The wire bytes of one character: its scalar value, little-endian.
pub open spec fn enc_char(c: char) -> Seq<u8> {
    le32(c as u32)
}

/// Reads one character from the front of `b`; a value that is no Unicode
/// scalar is rejected.
pub open spec fn p_char(b: Seq<u8>) -> Option<(char, int)> {
    match p_u32(b) {
        Some((v, n)) => if vstd::utf8::is_scalar(v) {
            Some((v as char, n))
        } else {
            None
        },
        None => None,
    }
}

/// The wire bytes of a character sequence, one character after the other.
pub open spec fn enc_chars(s: Seq<char>) -> Seq<u8>
    decreases s.len(),
{
    if s.len() == 0 {
        seq![]
    } else {
        enc_char(s[0]) + enc_chars(s.drop_first())
    }
}

/// A string fits the wire format when its character count fits the 16-bit
/// length field.
pub open spec fn str_wf(s: Seq<char>) -> bool {
    s.len() < 65536
}

/// The wire bytes of a string: 16-bit character count, then the characters.
pub open spec fn enc_str(s: Seq<char>) -> Seq<u8> {
    le16(s.len() as u16) + enc_chars(s)
}

/// Reads exactly `n` characters from the front of `b`.
pub open spec fn p_chars(b: Seq<u8>, n: nat) -> Option<(Seq<char>, int)>
    decreases n,
{
    if n == 0 {
        Some((seq![], 0))
    } else {
        match p_char(b) {
            Some((c, k)) => match p_chars(b.skip(k), (n - 1) as nat) {
                Some((s, m)) => Some((seq![c] + s, k + m)),
                None => None,
            },
            None => None,
        }
    }
}

/// Reads a string from the front of `b`: its length field, then that many
/// characters.
pub open spec fn p_str(b: Seq<u8>) -> Option<(Seq<char>, int)> {
    match p_u16(b) {
        Some((n, k)) => match p_chars(b.skip(k), n as nat) {
            Some((s, m)) => Some((s, k + m)),
            None => None,
        },
        None => None,
    }
}

/// One character's bytes parse back to it, whatever follows them.
pub proof fn lemma_char_round_trip(c: char, rest: Seq<u8>)
    ensures
        p_char(enc_char(c) + rest) == Some((c, 4int)),
{
    vstd::utf8::char_is_scalar(c);
    lemma_le32_round_trip(c as u32, rest);
    vstd::utf8::char_u32_cast(c, c as u32);
}

/// Whatever `p_char` accepts is the `enc_char` bytes of its value.
pub proof fn lemma_p_char_sound(b: Seq<u8>)
    requires
        p_char(b) is Some,
    ensures
        ({
            let (c, n) = p_char(b)->Some_0;
            n == 4 && n <= b.len() && enc_char(c) == b.subrange(0, 4)
        }),
{
    lemma_p_u32_sound(b);
}

/// Appending one character to a sequence appends its bytes to the encoding.
pub proof fn lemma_enc_chars_push(s: Seq<char>, c: char)
    ensures
        enc_chars(s.push(c)) == enc_chars(s) + enc_char(c),
    decreases s.len(),
{
    if s.len() == 0 {
        assert(s.push(c)[0] == c);
        assert(s.push(c).drop_first() =~= Seq::<char>::empty());
        assert(enc_chars(Seq::<char>::empty()) == Seq::<u8>::empty());
        assert(enc_chars(s.push(c)) =~= enc_char(c));
        assert(enc_chars(s) + enc_char(c) =~= enc_char(c));
    } else {
        assert(s.push(c)[0] == s[0]);
        assert(s.push(c).drop_first() =~= s.drop_first().push(c));
        lemma_enc_chars_push(s.drop_first(), c);
        assert(enc_chars(s.push(c)) =~= enc_chars(s) + enc_char(c));
    }
}

/// A character sequence's bytes parse back to it, whatever follows them.
pub proof fn lemma_chars_round_trip(s: Seq<char>, rest: Seq<u8>)
    ensures
        p_chars(enc_chars(s) + rest, s.len()) == Some((s, 4 * s.len() as int)),
        enc_chars(s).len() == 4 * s.len(),
    decreases s.len(),
{
    if s.len() == 0 {
        assert(enc_chars(s) + rest =~= rest);
        assert(p_chars(rest, 0) == Some((Seq::<char>::empty(), 0int)));
        assert(s =~= Seq::<char>::empty());
    } else {
        let tail = s.drop_first();
        lemma_chars_round_trip(tail, rest);
        let b = enc_chars(s) + rest;
        assert(b =~= enc_char(s[0]) + (enc_chars(tail) + rest));
        lemma_char_round_trip(s[0], enc_chars(tail) + rest);
        assert(b.skip(4) =~= enc_chars(tail) + rest);
        assert(seq![s[0]] + tail =~= s);
    }
}

/// Whatever `p_chars` accepts is the `enc_chars` bytes of its value.
pub proof fn lemma_p_chars_sound(b: Seq<u8>, n: nat)
    requires
        p_chars(b, n) is Some,
    ensures
        ({
            let (s, m) = p_chars(b, n)->Some_0;
            s.len() == n && m == 4 * n && m <= b.len() && enc_chars(s) == b.subrange(0, m)
        }),
    decreases n,
{
    let (s, m) = p_chars(b, n)->Some_0;
    if n == 0 {
        assert(enc_chars(s) =~= b.subrange(0, 0));
    } else {
        lemma_p_char_sound(b);
        let (c, k) = p_char(b)->Some_0;
        lemma_p_chars_sound(b.skip(4), (n - 1) as nat);
        let (s2, m2) = p_chars(b.skip(4), (n - 1) as nat)->Some_0;
        assert(s == seq![c] + s2);
        assert(s[0] == c);
        assert(s.drop_first() =~= s2);
        assert(b.skip(4).subrange(0, m2) =~= b.subrange(4, 4 + m2));
        assert(enc_chars(s) =~= b.subrange(0, m));
    }
}

/// A string's bytes parse back to it, whatever follows them.
pub proof fn lemma_str_round_trip(s: Seq<char>, rest: Seq<u8>)
    requires
        str_wf(s),
    ensures
        p_str(enc_str(s) + rest) == Some((s, 2 + 4 * s.len() as int)),
        enc_str(s).len() == 2 + 4 * s.len(),
{
    let b = enc_str(s) + rest;
    assert(b =~= le16(s.len() as u16) + (enc_chars(s) + rest));
    lemma_le16_round_trip(s.len() as u16, enc_chars(s) + rest);
    lemma_chars_round_trip(s, rest);
    assert(b.skip(2) =~= enc_chars(s) + rest);
}

/// Whatever `p_str` accepts is the `enc_str` bytes of its value.
pub proof fn lemma_p_str_sound(b: Seq<u8>)
    requires
        p_str(b) is Some,
    ensures
        ({
            let (s, m) = p_str(b)->Some_0;
            str_wf(s) && m == 2 + 4 * s.len() && m <= b.len() && enc_str(s) == b.subrange(0, m)
        }),
{
    let (s, m) = p_str(b)->Some_0;
    lemma_p_u16_sound(b);
    let (n, k) = p_u16(b)->Some_0;
    lemma_p_chars_sound(b.skip(2), n as nat);
    let (s2, m2) = p_chars(b.skip(2), n as nat)->Some_0;
    assert(b.skip(2).subrange(0, m2) =~= b.subrange(2, 2 + m2));
    assert(enc_str(s) =~= b.subrange(0, m));
}

/// The wire bytes of a sequence of strings, one after the other.
pub open spec fn enc_str_seq(l: Seq<Seq<char>>) -> Seq<u8>
    decreases l.len(),
{
    if l.len() == 0 {
        seq![]
    } else {
        enc_str(l[0]) + enc_str_seq(l.drop_first())
    }
}

/// A string list fits the wire format when its count and every string's
/// length fit their 16-bit fields.
pub open spec fn strs_wf(l: Seq<Seq<char>>) -> bool {
    l.len() < 65536 && forall|i: int| 0 <= i < l.len() ==> str_wf(#[trigger] l[i])
}

/// The wire bytes of a string list: 16-bit count, then the strings.
pub open spec fn enc_str_list(l: Seq<Seq<char>>) -> Seq<u8> {
    le16(l.len() as u16) + enc_str_seq(l)
}

/// Reads exactly `n` strings from the front of `b`.
pub open spec fn p_strs(b: Seq<u8>, n: nat) -> Option<(Seq<Seq<char>>, int)>
    decreases n,
{
    if n == 0 {
        Some((seq![], 0))
    } else {
        match p_str(b) {
            Some((s, k)) => match p_strs(b.skip(k), (n - 1) as nat) {
                Some((l, m)) => Some((seq![s] + l, k + m)),
                None => None,
            },
            None => None,
        }
    }
}

/// Reads a string list from the front of `b`.
pub open spec fn p_str_list(b: Seq<u8>) -> Option<(Seq<Seq<char>>, int)> {
    match p_u16(b) {
        Some((n, k)) => match p_strs(b.skip(k), n as nat) {
            Some((l, m)) => Some((l, k + m)),
            None => None,
        },
        None => None,
    }
}

/// Appending one string to a list appends its bytes to the encoding.
pub proof fn lemma_enc_str_seq_push(l: Seq<Seq<char>>, s: Seq<char>)
    ensures
        enc_str_seq(l.push(s)) == enc_str_seq(l) + enc_str(s),
    decreases l.len(),
{
    if l.len() == 0 {
        assert(l.push(s)[0] == s);
        assert(l.push(s).drop_first() =~= Seq::<Seq<char>>::empty());
        assert(enc_str_seq(Seq::<Seq<char>>::empty()) == Seq::<u8>::empty());
        assert(enc_str_seq(l.push(s)) =~= enc_str(s));
        assert(enc_str_seq(l) + enc_str(s) =~= enc_str(s));
    } else {
        assert(l.push(s)[0] == l[0]);
        assert(l.push(s).drop_first() =~= l.drop_first().push(s));
        lemma_enc_str_seq_push(l.drop_first(), s);
        assert(enc_str_seq(l.push(s)) =~= enc_str_seq(l) + enc_str(s));
    }
}

/// A string sequence's bytes parse back to it, whatever follows them.
pub proof fn lemma_strs_round_trip(l: Seq<Seq<char>>, rest: Seq<u8>)
    requires
        forall|i: int| 0 <= i < l.len() ==> str_wf(#[trigger] l[i]),
    ensures
        p_strs(enc_str_seq(l) + rest, l.len()) == Some(
            (l, enc_str_seq(l).len() as int),
        ),
    decreases l.len(),
{
    if l.len() == 0 {
        assert(enc_str_seq(l) + rest =~= rest);
        assert(l =~= Seq::<Seq<char>>::empty());
        assert(enc_str_seq(l).len() == 0);
    } else {
        let tail = l.drop_first();
        assert(forall|i: int| 0 <= i < tail.len() ==> str_wf(#[trigger] tail[i]));
        lemma_strs_round_trip(tail, rest);
        let b = enc_str_seq(l) + rest;
        assert(b =~= enc_str(l[0]) + (enc_str_seq(tail) + rest));
        lemma_str_round_trip(l[0], enc_str_seq(tail) + rest);
        let k: int = 2 + 4 * l[0].len() as int;
        assert(b.skip(k) =~= enc_str_seq(tail) + rest);
        assert(seq![l[0]] + tail =~= l);
    }
}

/// Whatever `p_strs` accepts is the `enc_str_seq` bytes of its value.
pub proof fn lemma_p_strs_sound(b: Seq<u8>, n: nat)
    requires
        p_strs(b, n) is Some,
    ensures
        ({
            let (l, m) = p_strs(b, n)->Some_0;
            l.len() == n && 0 <= m <= b.len() && enc_str_seq(l) == b.subrange(0, m)
                && (forall|i: int| 0 <= i < l.len() ==> str_wf(#[trigger] l[i]))
        }),
    decreases n,
{
    let (l, m) = p_strs(b, n)->Some_0;
    if n == 0 {
        assert(enc_str_seq(l) =~= b.subrange(0, 0));
    } else {
        lemma_p_str_sound(b);
        let (s, k) = p_str(b)->Some_0;
        lemma_p_strs_sound(b.skip(k), (n - 1) as nat);
        let (l2, m2) = p_strs(b.skip(k), (n - 1) as nat)->Some_0;
        assert(l == seq![s] + l2);
        assert(l[0] == s);
        assert(l.drop_first() =~= l2);
        assert(b.skip(k).subrange(0, m2) =~= b.subrange(k, k + m2));
        assert(enc_str_seq(l) =~= b.subrange(0, m));
    }
}

/// A string list's bytes parse back to it, whatever follows them.
pub proof fn lemma_str_list_round_trip(l: Seq<Seq<char>>, rest: Seq<u8>)
    requires
        strs_wf(l),
    ensures
        p_str_list(enc_str_list(l) + rest) == Some((l, enc_str_list(l).len() as int)),
{
    let b = enc_str_list(l) + rest;
    assert(b =~= le16(l.len() as u16) + (enc_str_seq(l) + rest));
    lemma_le16_round_trip(l.len() as u16, enc_str_seq(l) + rest);
    lemma_strs_round_trip(l, rest);
    assert(b.skip(2) =~= enc_str_seq(l) + rest);
}

/// Whatever `p_str_list` accepts is the `enc_str_list` bytes of its value.
pub proof fn lemma_p_str_list_sound(b: Seq<u8>)
    requires
        p_str_list(b) is Some,
    ensures
        ({
            let (l, m) = p_str_list(b)->Some_0;
            strs_wf(l) && 2 <= m <= b.len() && enc_str_list(l) == b.subrange(0, m)
        }),
{
    let (l, m) = p_str_list(b)->Some_0;
    lemma_p_u16_sound(b);
    let (n, k) = p_u16(b)->Some_0;
    lemma_p_strs_sound(b.skip(2), n as nat);
    let (l2, m2) = p_strs(b.skip(2), n as nat)->Some_0;
    assert(b.skip(2).subrange(0, m2) =~= b.subrange(2, 2 + m2));
    assert(enc_str_list(l) =~= b.subrange(0, m));
}

/// The wire bytes of an IP address: a version tag, then the address bits.
pub open spec fn enc_ip(ip: IpAddress) -> Seq<u8> {
    match ip {
        IpAddress::V4(o0, o1, o2, o3) => seq![4u8, o0, o1, o2, o3],
        IpAddress::V6(hi, lo) => seq![6u8] + le64(hi) + le64(lo),
    }
}

/// Reads an IP address from the front of `b`.
pub open spec fn p_ip(b: Seq<u8>) -> Option<(IpAddress, int)> {
    if b.len() < 1 {
        None
    } else if b[0] == 4 {
        if b.len() >= 5 {
            Some((IpAddress::V4(b[1], b[2], b[3], b[4]), 5))
        } else {
            None
        }
    } else if b[0] == 6 {
        match p_u64(b.skip(1)) {
            Some((hi, k)) => match p_u64(b.skip(1 + k)) {
                Some((lo, m)) => Some((IpAddress::V6(hi, lo), 1 + k + m)),
                None => None,
            },
            None => None,
        }
    } else {
        None
    }
}

/// An IP address's bytes parse back to it, whatever follows them.
pub proof fn lemma_ip_round_trip(ip: IpAddress, rest: Seq<u8>)
    ensures
        p_ip(enc_ip(ip) + rest) == Some((ip, enc_ip(ip).len() as int)),
{
    let b = enc_ip(ip) + rest;
    match ip {
        IpAddress::V4(o0, o1, o2, o3) => {
            assert(b[0] == 4u8);
        }
        IpAddress::V6(hi, lo) => {
            assert(b[0] == 6u8);
            assert(b.skip(1) =~= le64(hi) + (le64(lo) + rest));
            lemma_le64_round_trip(hi, le64(lo) + rest);
            assert(b.skip(9) =~= le64(lo) + rest);
            lemma_le64_round_trip(lo, rest);
            assert(enc_ip(ip).len() == 17);
        }
    }
}

/// Whatever `p_ip` accepts is the `enc_ip` bytes of its value.
pub proof fn lemma_p_ip_sound(b: Seq<u8>)
    requires
        p_ip(b) is Some,
    ensures
        ({
            let (ip, m) = p_ip(b)->Some_0;
            1 <= m <= b.len() && enc_ip(ip) == b.subrange(0, m)
        }),
{
    let (ip, m) = p_ip(b)->Some_0;
    if b[0] == 4 {
        assert(enc_ip(ip) =~= b.subrange(0, 5));
    } else {
        lemma_p_u64_sound(b.skip(1));
        let (hi, k) = p_u64(b.skip(1))->Some_0;
        lemma_p_u64_sound(b.skip(9));
        let (lo, m2) = p_u64(b.skip(9))->Some_0;
        assert(b.skip(1).subrange(0, 8) =~= b.subrange(1, 9));
        assert(b.skip(9).subrange(0, 8) =~= b.subrange(9, 17));
        assert(enc_ip(ip) =~= b.subrange(0, 17));
    }
}

/// A quote fits the wire format when its ticker does.
pub open spec fn quote_wf(q: QuoteView) -> bool {
    str_wf(q.ticker)
}

/// The wire bytes of a stock quote: ticker, price, volume, timestamp.
pub open spec fn enc_quote(q: QuoteView) -> Seq<u8> {
    enc_str(q.ticker) + le64(q.price as u64) + le32(q.volume) + le64(q.timestamp as u64)
}

/// Reads a stock quote from the front of `b`.
pub open spec fn p_quote(b: Seq<u8>) -> Option<(QuoteView, int)> {
    match p_str(b) {
        Some((t, k1)) => match p_u64(b.skip(k1)) {
            Some((pr, k2)) => match p_u32(b.skip(k1 + k2)) {
                Some((vol, k3)) => match p_u64(b.skip(k1 + k2 + k3)) {
                    Some((ts, k4)) => Some(
                        (
                            QuoteView {
                                ticker: t,
                                price: pr as i64,
                                volume: vol,
                                timestamp: ts as i64,
                            },
                            k1 + k2 + k3 + k4,
                        ),
                    ),
                    None => None,
                },
                None => None,
            },
            None => None,
        },
        None => None,
    }
}

/// Casting a 64-bit unsigned value to signed and back is the identity.
pub proof fn lemma_u64_cast_round_trip(x: u64)
    ensures
        (x as i64) as u64 == x,
{
    assert((x as i64) as u64 == x) by (bit_vector);
}

/// A stock quote's bytes parse back to it, whatever follows them.
#[verifier::rlimit(60)]
pub proof fn lemma_quote_round_trip(q: QuoteView, rest: Seq<u8>)
    requires
        quote_wf(q),
    ensures
        p_quote(enc_quote(q) + rest) == Some((q, enc_quote(q).len() as int)),
        enc_quote(q).len() == 22 + 4 * q.ticker.len(),
{
    let b = enc_quote(q) + rest;
    let k1: int = 2 + 4 * q.ticker.len() as int;
    assert(b =~= enc_str(q.ticker) + (le64(q.price as u64) + le32(q.volume) + le64(
        q.timestamp as u64,
    ) + rest));
    lemma_str_round_trip(
        q.ticker,
        le64(q.price as u64) + le32(q.volume) + le64(q.timestamp as u64) + rest,
    );
    assert(b.skip(k1) =~= le64(q.price as u64) + (le32(q.volume) + le64(q.timestamp as u64)
        + rest));
    lemma_le64_round_trip(q.price as u64, le32(q.volume) + le64(q.timestamp as u64) + rest);
    assert(b.skip(k1 + 8) =~= le32(q.volume) + (le64(q.timestamp as u64) + rest));
    lemma_le32_round_trip(q.volume, le64(q.timestamp as u64) + rest);
    assert(b.skip(k1 + 12) =~= le64(q.timestamp as u64) + rest);
    lemma_le64_round_trip(q.timestamp as u64, rest);
    lemma_i64_cast_round_trip(q.price);
    lemma_i64_cast_round_trip(q.timestamp);
}

/// Whatever `p_quote` accepts is the `enc_quote` bytes of its value.
pub proof fn lemma_p_quote_sound(b: Seq<u8>)
    requires
        p_quote(b) is Some,
    ensures
        ({
            let (q, m) = p_quote(b)->Some_0;
            quote_wf(q) && m == 22 + 4 * q.ticker.len() && m <= b.len() && enc_quote(q)
                == b.subrange(0, m)
        }),
{
    let (q, m) = p_quote(b)->Some_0;
    lemma_p_str_sound(b);
    let (t, k1) = p_str(b)->Some_0;
    lemma_p_u64_sound(b.skip(k1));
    let (pr, k2) = p_u64(b.skip(k1))->Some_0;
    lemma_p_u32_sound(b.skip(k1 + 8));
    let (vol, k3) = p_u32(b.skip(k1 + 8))->Some_0;
    lemma_p_u64_sound(b.skip(k1 + 12));
    let (ts, k4) = p_u64(b.skip(k1 + 12))->Some_0;
    lemma_u64_cast_round_trip(pr);
    lemma_u64_cast_round_trip(ts);
    assert(b.skip(k1).subrange(0, 8) =~= b.subrange(k1, k1 + 8));
    assert(b.skip(k1 + 8).subrange(0, 4) =~= b.subrange(k1 + 8, k1 + 12));
    assert(b.skip(k1 + 12).subrange(0, 8) =~= b.subrange(k1 + 12, k1 + 20));
    assert(enc_quote(q) =~= b.subrange(0, m));
}

/// A request fits the wire format when its ticker list does.
pub open spec fn req_wf(r: RequestView) -> bool {
    match r {
        RequestView::StreamTickers { ticker, .. } => strs_wf(ticker),
        RequestView::Ping => true,
    }
}

/// The wire bytes of a request: a tag byte, then the payload.
pub open spec fn enc_req(r: RequestView) -> Seq<u8> {
    match r {
        RequestView::StreamTickers { ticker, address, port } => seq![0u8] + enc_str_list(ticker)
            + enc_ip(address) + le16(port),
        RequestView::Ping => seq![1u8],
    }
}

/// Reads a request from the front of `b`.
pub open spec fn p_req(b: Seq<u8>) -> Option<(RequestView, int)> {
    if b.len() < 1 {
        None
    } else if b[0] == 0 {
        match p_str_list(b.skip(1)) {
            Some((l, k1)) => match p_ip(b.skip(1 + k1)) {
                Some((ip, k2)) => match p_u16(b.skip(1 + k1 + k2)) {
                    Some((pt, k3)) => Some(
                        (
                            RequestView::StreamTickers { ticker: l, address: ip, port: pt },
                            1 + k1 + k2 + k3,
                        ),
                    ),
                    None => None,
                },
                None => None,
            },
            None => None,
        }
    } else if b[0] == 1 {
        Some((RequestView::Ping, 1))
    } else {
        None
    }
}

/// A request's bytes parse back to it, whatever follows them.
#[verifier::rlimit(60)]
pub proof fn lemma_req_round_trip(r: RequestView, rest: Seq<u8>)
    requires
        req_wf(r),
    ensures
        p_req(enc_req(r) + rest) == Some((r, enc_req(r).len() as int)),
{
    let b = enc_req(r) + rest;
    match r {
        RequestView::StreamTickers { ticker, address, port } => {
            assert(b[0] == 0u8);
            let k1 = enc_str_list(ticker).len() as int;
            let k2 = enc_ip(address).len() as int;
            assert(b.skip(1) =~= enc_str_list(ticker) + (enc_ip(address) + le16(port) + rest));
            lemma_str_list_round_trip(ticker, enc_ip(address) + le16(port) + rest);
            assert(b.skip(1 + k1) =~= enc_ip(address) + (le16(port) + rest));
            lemma_ip_round_trip(address, le16(port) + rest);
            assert(b.skip(1 + k1 + k2) =~= le16(port) + rest);
            lemma_le16_round_trip(port, rest);
        }
        RequestView::Ping => {
            assert(b[0] == 1u8);
        }
    }
}

/// Whatever `p_req` accepts is the `enc_req` bytes of its value.
pub proof fn lemma_p_req_sound(b: Seq<u8>)
    requires
        p_req(b) is Some,
    ensures
        ({
            let (r, m) = p_req(b)->Some_0;
            req_wf(r) && 1 <= m <= b.len() && enc_req(r) == b.subrange(0, m)
        }),
{
    let (r, m) = p_req(b)->Some_0;
    if b[0] == 0 {
        lemma_p_str_list_sound(b.skip(1));
        let (l, k1) = p_str_list(b.skip(1))->Some_0;
        lemma_p_ip_sound(b.skip(1 + k1));
        let (ip, k2) = p_ip(b.skip(1 + k1))->Some_0;
        lemma_p_u16_sound(b.skip(1 + k1 + k2));
        let (pt, k3) = p_u16(b.skip(1 + k1 + k2))->Some_0;
        assert(b.skip(1).subrange(0, k1) =~= b.subrange(1, 1 + k1));
        assert(b.skip(1 + k1).subrange(0, k2) =~= b.subrange(1 + k1, 1 + k1 + k2));
        assert(b.skip(1 + k1 + k2).subrange(0, 2) =~= b.subrange(1 + k1 + k2, 1 + k1 + k2 + 2));
        assert(enc_req(r) =~= b.subrange(0, m));
    } else {
        assert(enc_req(r) =~= b.subrange(0, 1));
    }
}

/// A response fits the wire format when its payload does.
pub open spec fn resp_wf(r: ResponseView) -> bool {
    match r {
        ResponseView::Quote(q) => quote_wf(q),
        ResponseView::Pong => true,
        ResponseView::Error(s) => str_wf(s),
        ResponseView::Okay => true,
    }
}

/// The wire bytes of a response: a tag byte, then the payload.
pub open spec fn enc_resp(r: ResponseView) -> Seq<u8> {
    match r {
        ResponseView::Quote(q) => seq![0u8] + enc_quote(q),
        ResponseView::Pong => seq![1u8],
        ResponseView::Error(s) => seq![2u8] + enc_str(s),
        ResponseView::Okay => seq![3u8],
    }
}

/// Reads a response from the front of `b`.
pub open spec fn p_resp(b: Seq<u8>) -> Option<(ResponseView, int)> {
    if b.len() < 1 {
        None
    } else if b[0] == 0 {
        match p_quote(b.skip(1)) {
            Some((q, k)) => Some((ResponseView::Quote(q), 1 + k)),
            None => None,
        }
    } else if b[0] == 1 {
        Some((ResponseView::Pong, 1))
    } else if b[0] == 2 {
        match p_str(b.skip(1)) {
            Some((s, k)) => Some((ResponseView::Error(s), 1 + k)),
            None => None,
        }
    } else if b[0] == 3 {
        Some((ResponseView::Okay, 1))
    } else {
        None
    }
}

/// A response's bytes parse back to it, whatever follows them.
pub proof fn lemma_resp_round_trip(r: ResponseView, rest: Seq<u8>)
    requires
        resp_wf(r),
    ensures
        p_resp(enc_resp(r) + rest) == Some((r, enc_resp(r).len() as int)),
{
    let b = enc_resp(r) + rest;
    match r {
        ResponseView::Quote(q) => {
            assert(b[0] == 0u8);
            assert(b.skip(1) =~= enc_quote(q) + rest);
            lemma_quote_round_trip(q, rest);
        }
        ResponseView::Pong => {
            assert(b[0] == 1u8);
        }
        ResponseView::Error(s) => {
            assert(b[0] == 2u8);
            assert(b.skip(1) =~= enc_str(s) + rest);
            lemma_str_round_trip(s, rest);
        }
        ResponseView::Okay => {
            assert(b[0] == 3u8);
        }
    }
}

/// Whatever `p_resp` accepts is the `enc_resp` bytes of its value.
pub proof fn lemma_p_resp_sound(b: Seq<u8>)
    requires
        p_resp(b) is Some,
    ensures
        ({
            let (r, m) = p_resp(b)->Some_0;
            resp_wf(r) && 1 <= m <= b.len() && enc_resp(r) == b.subrange(0, m)
        }),
{
    let (r, m) = p_resp(b)->Some_0;
    if b[0] == 0 {
        lemma_p_quote_sound(b.skip(1));
        let (q, k) = p_quote(b.skip(1))->Some_0;
        assert(b.skip(1).subrange(0, k) =~= b.subrange(1, 1 + k));
        assert(enc_resp(r) =~= b.subrange(0, m));
    } else if b[0] == 1 {
        assert(enc_resp(r) =~= b.subrange(0, 1));
    } else if b[0] == 2 {
        lemma_p_str_sound(b.skip(1));
        let (s, k) = p_str(b.skip(1))->Some_0;
        assert(b.skip(1).subrange(0, k) =~= b.subrange(1, 1 + k));
        assert(enc_resp(r) =~= b.subrange(0, m));
    } else {
        assert(enc_resp(r) =~= b.subrange(0, 1));
    }
}

/// Law: the request codec is lossless. The full encoding of any request the
/// wire format can carry parses back to exactly that request, consuming
/// every byte — so decoding an encoded request returns the request itself.
pub proof fn lemma_request_codec_round_trip(r: RequestView)
    requires
        req_wf(r),
    ensures
        p_req(enc_req(r)) == Some((r, enc_req(r).len() as int)),
{
    lemma_req_round_trip(r, Seq::<u8>::empty());
    assert(enc_req(r) + Seq::<u8>::empty() =~= enc_req(r));
}

/// Law: the response codec is lossless, as [`lemma_request_codec_round_trip`]
/// is for requests.
pub proof fn lemma_response_codec_round_trip(r: ResponseView)
    requires
        resp_wf(r),
    ensures
        p_resp(enc_resp(r)) == Some((r, enc_resp(r).len() as int)),
{
    lemma_resp_round_trip(r, Seq::<u8>::empty());
    assert(enc_resp(r) + Seq::<u8>::empty() =~= enc_resp(r));
}

/// Law: the quote codec is lossless, as [`lemma_request_codec_round_trip`]
/// is for requests.
pub proof fn lemma_quote_codec_round_trip(q: QuoteView)
    requires
        quote_wf(q),
    ensures
        p_quote(enc_quote(q)) == Some((q, enc_quote(q).len() as int)),
{
    lemma_quote_round_trip(q, Seq::<u8>::empty());
    assert(enc_quote(q) + Seq::<u8>::empty() =~= enc_quote(q));
}

} // verus!
