//! The executable wire codec, proved against the format in [`crate::wire`].
//!
//! `encode_request` / `encode_response` produce exactly the bytes the format
//! assigns to a value, and fail exactly on values the format cannot carry
//! (a length field overflowed, or the message exceeds the MTU).
//! `decode_request` / `decode_response` accept exactly those byte strings
//! that are the full encoding of some value, and return that value.

use vstd::prelude::*;
use vstd::string::StrSliceExecFns;
use crate::messages::{IpAddress, Request, Response, StockQuote};
use crate::wire::{
    MTU, enc_char, enc_chars, enc_ip, enc_quote, enc_req, enc_resp, enc_str, enc_str_seq, le16, le32, le64, lemma_enc_chars_push, lemma_enc_str_seq_push,
    lemma_req_round_trip, lemma_resp_round_trip, lemma_p_req_sound, lemma_p_resp_sound, p_char,
    p_chars, p_ip, p_quote, p_req, p_resp, p_str, p_str_list, p_strs, p_u16, p_u32, p_u64,
    quote_wf, req_wf, resp_wf, str_wf, strs_wf,
};

verus! {

/// True when `b` is, in full, the wire encoding of some request within the
/// MTU — exactly the bytes [`decode_request`] accepts.
pub open spec fn is_encoded_req(b: Seq<u8>) -> bool {
    exists|v: crate::messages::RequestView|
        req_wf(v) && (#[trigger] enc_req(v)).len() <= MTU && enc_req(v) == b
}

/// True when `b` is, in full, the wire encoding of some response within the
/// MTU — exactly the bytes [`decode_response`] accepts.
pub open spec fn is_encoded_resp(b: Seq<u8>) -> bool {
    exists|v: crate::messages::ResponseView|
        resp_wf(v) && (#[trigger] enc_resp(v)).len() <= MTU && enc_resp(v) == b
}

/// Why a message could not be encoded or decoded.
#[derive(Clone, Copy, PartialEq, Eq, Debug, Structural)]
pub enum WireError {
    /// The bytes are no encoding of a message, or the value does not fit the
    /// wire format's envelope.
    InvalidFormat,
}

/// Relies on `char::from_u32`: it returns `Some` exactly for Unicode scalar
/// values, and the returned character has the given scalar value.
#[verifier::external_body]
fn char_from_u32(v: u32) -> (r: Option<char>)
    ensures
        r is Some <==> vstd::utf8::is_scalar(v),
        r matches Some(c) ==> c == v as char,
{
    char::from_u32(v)
}

/// Relies on `String`'s `FromIterator<char>`: collecting characters yields
/// the string of exactly those characters in order.
#[verifier::external_body]
pub(crate) fn string_from_chars(chars: Vec<char>) -> (s: String)
    ensures
        s@ == chars@,
{
    chars.into_iter().collect()
}

fn put_u16(out: &mut Vec<u8>, v: u16)
    ensures
        final(out)@ == old(out)@ + le16(v),
{
    out.push((v % 256) as u8);
    out.push((v / 256 % 256) as u8);
    proof {
        assert(final(out)@ =~= old(out)@ + le16(v));
    }
}

fn put_u32(out: &mut Vec<u8>, v: u32)
    ensures
        final(out)@ == old(out)@ + le32(v),
{
    out.push((v % 256) as u8);
    out.push((v / 256 % 256) as u8);
    out.push((v / 65536 % 256) as u8);
    out.push((v / 16777216 % 256) as u8);
    proof {
        assert(final(out)@ =~= old(out)@ + le32(v));
    }
}

fn put_u64(out: &mut Vec<u8>, v: u64)
    ensures
        final(out)@ == old(out)@ + le64(v),
{
    out.push((v % 256) as u8);
    out.push((v / 256 % 256) as u8);
    out.push((v / 65536 % 256) as u8);
    out.push((v / 16777216 % 256) as u8);
    out.push((v / 4294967296 % 256) as u8);
    out.push((v / 1099511627776 % 256) as u8);
    out.push((v / 281474976710656 % 256) as u8);
    out.push((v / 72057594037927936 % 256) as u8);
    proof {
        assert(final(out)@ =~= old(out)@ + le64(v));
    }
}

fn put_char(out: &mut Vec<u8>, c: char)
    ensures
        final(out)@ == old(out)@ + enc_char(c),
{
    put_u32(out, c as u32);
}

/// Writes a string's wire bytes, or writes nothing and reports failure when
/// the string is too long for its 16-bit length field.
#[verifier::loop_isolation(false)]
fn put_str(out: &mut Vec<u8>, s: &String) -> (ok: bool)
    ensures
        ok == str_wf(s@),
        ok ==> final(out)@ == old(out)@ + enc_str(s@),
        !ok ==> final(out)@ == old(out)@,
{
    let n = s.as_str().unicode_len();
    if n >= 65536 {
        return false;
    }
    put_u16(out, n as u16);
    let ghost base = out@;
    let mut k: usize = 0;
    while k < n
        invariant
            k <= n,
            n == s@.len(),
            n < 65536,
            out@ == base + enc_chars(s@.take(k as int)),
        decreases n - k,
    {
        let c = s.as_str().get_char(k);
        put_char(out, c);
        proof {
            lemma_enc_chars_push(s@.take(k as int), s@[k as int]);
            assert(s@.take(k as int + 1) =~= s@.take(k as int).push(s@[k as int]));
        }
        k += 1;
    }
    proof {
        assert(s@.take(n as int) =~= s@);
        assert(out@ =~= old(out)@ + enc_str(s@));
    }
    true
}

fn put_ip(out: &mut Vec<u8>, ip: &IpAddress)
    ensures
        final(out)@ == old(out)@ + enc_ip(*ip),
{
    match ip {
        IpAddress::V4(o0, o1, o2, o3) => {
            out.push(4u8);
            out.push(*o0);
            out.push(*o1);
            out.push(*o2);
            out.push(*o3);
            proof {
                assert(final(out)@ =~= old(out)@ + enc_ip(*ip));
            }
        }
        IpAddress::V6(hi, lo) => {
            out.push(6u8);
            put_u64(out, *hi);
            put_u64(out, *lo);
            proof {
                assert(final(out)@ =~= old(out)@ + enc_ip(*ip));
            }
        }
    }
}

/// Writes a quote's wire bytes, or writes nothing and reports failure when
/// its ticker is too long for the format.
fn put_quote(out: &mut Vec<u8>, q: &StockQuote) -> (ok: bool)
    ensures
        ok == quote_wf(q@),
        ok ==> final(out)@ == old(out)@ + enc_quote(q@),
        !ok ==> final(out)@ == old(out)@,
{
    let ok = put_str(out, &q.ticker);
    if !ok {
        return false;
    }
    put_u64(out, q.price as u64);
    put_u32(out, q.volume);
    put_u64(out, q.timestamp as u64);
    proof {
        assert(out@ =~= old(out)@ + enc_quote(q@));
    }
    true
}

/// Encodes a request into its wire bytes.
///
/// Succeeds exactly when the value fits the wire format: every length fits
/// its 16-bit field, and the whole message is within the MTU.
#[verifier::loop_isolation(false)]
pub fn encode_request(req: &Request) -> (r: Result<Vec<u8>, WireError>)
    ensures
        match r {
            Ok(out) => req_wf(req@) && out@ == enc_req(req@) && out@.len() <= MTU,
            Err(e) => e == WireError::InvalidFormat && !(req_wf(req@) && enc_req(req@).len()
                <= MTU),
        },
{
    let mut out: Vec<u8> = Vec::new();
    match req {
        Request::StreamTickers { ticker, address, port } => {
            out.push(0u8);
            let n = ticker.len();
            if n >= 65536 {
                proof {
                    assert(!strs_wf(ticker.deep_view()));
                }
                return Err(WireError::InvalidFormat);
            }
            put_u16(&mut out, n as u16);
            let ghost base = out@;
            let mut k: usize = 0;
            while k < n
                invariant
                    k <= n,
                    n < 65536,
                    n == ticker@.len(),
                    out@ == base + enc_str_seq(ticker.deep_view().take(k as int)),
                    forall|t: int| 0 <= t < k ==> str_wf(#[trigger] ticker.deep_view()[t]),
                decreases n - k,
            {
                let ok = put_str(&mut out, &ticker[k]);
                if !ok {
                    proof {
                        assert(ticker.deep_view()[k as int] == ticker@[k as int]@);
                        assert(!strs_wf(ticker.deep_view()));
                    }
                    return Err(WireError::InvalidFormat);
                }
                proof {
                    lemma_enc_str_seq_push(
                        ticker.deep_view().take(k as int),
                        ticker.deep_view()[k as int],
                    );
                    assert(ticker.deep_view().take(k as int + 1) =~= ticker.deep_view().take(
                        k as int,
                    ).push(ticker.deep_view()[k as int]));
                    assert(ticker.deep_view()[k as int] == ticker@[k as int]@);
                }
                k += 1;
            }
            put_ip(&mut out, address);
            put_u16(&mut out, *port);
            proof {
                assert(ticker.deep_view().take(n as int) =~= ticker.deep_view());
                assert(out@ =~= enc_req(req@));
            }
            if out.len() > MTU {
                return Err(WireError::InvalidFormat);
            }
            Ok(out)
        }
        Request::Ping => {
            out.push(1u8);
            proof {
                assert(out@ =~= enc_req(req@));
            }
            Ok(out)
        }
    }
}

/// Encodes a response into its wire bytes.
///
/// Succeeds exactly when the value fits the wire format: every length fits
/// its 16-bit field, and the whole message is within the MTU.
pub fn encode_response(resp: &Response) -> (r: Result<Vec<u8>, WireError>)
    ensures
        match r {
            Ok(out) => resp_wf(resp@) && out@ == enc_resp(resp@) && out@.len() <= MTU,
            Err(e) => e == WireError::InvalidFormat && !(resp_wf(resp@) && enc_resp(resp@).len()
                <= MTU),
        },
{
    let mut out: Vec<u8> = Vec::new();
    match resp {
        Response::Quote(q) => {
            out.push(0u8);
            let ok = put_quote(&mut out, q);
            if !ok {
                return Err(WireError::InvalidFormat);
            }
            proof {
                assert(out@ =~= enc_resp(resp@));
            }
            if out.len() > MTU {
                return Err(WireError::InvalidFormat);
            }
            Ok(out)
        }
        Response::Pong => {
            out.push(1u8);
            proof {
                assert(out@ =~= enc_resp(resp@));
            }
            Ok(out)
        }
        Response::Error(s) => {
            out.push(2u8);
            let ok = put_str(&mut out, s);
            if !ok {
                return Err(WireError::InvalidFormat);
            }
            proof {
                assert(out@ =~= enc_resp(resp@));
            }
            if out.len() > MTU {
                return Err(WireError::InvalidFormat);
            }
            Ok(out)
        }
        Response::Okay => {
            out.push(3u8);
            proof {
                assert(out@ =~= enc_resp(resp@));
            }
            Ok(out)
        }
    }
}

fn parse_u16(b: &[u8], i: usize) -> (r: Option<(u16, usize)>)
    requires
        i <= b@.len(),
    ensures
        match r {
            Some((v, j)) => p_u16(b@.skip(i as int)) == Some((v, j - i as int)) && i <= j
                <= b@.len(),
            None => p_u16(b@.skip(i as int)) is None,
        },
{
    if b.len() - i >= 2 {
        let v = b[i] as u16 + 256 * (b[i + 1] as u16);
        Some((v, i + 2))
    } else {
        None
    }
}

fn parse_u32(b: &[u8], i: usize) -> (r: Option<(u32, usize)>)
    requires
        i <= b@.len(),
    ensures
        match r {
            Some((v, j)) => p_u32(b@.skip(i as int)) == Some((v, j - i as int)) && i <= j
                <= b@.len(),
            None => p_u32(b@.skip(i as int)) is None,
        },
{
    if b.len() - i >= 4 {
        let v = b[i] as u32 + 256 * (b[i + 1] as u32) + 65536 * (b[i + 2] as u32) + 16777216 * (
        b[i + 3] as u32);
        Some((v, i + 4))
    } else {
        None
    }
}

fn parse_u64(b: &[u8], i: usize) -> (r: Option<(u64, usize)>)
    requires
        i <= b@.len(),
    ensures
        match r {
            Some((v, j)) => p_u64(b@.skip(i as int)) == Some((v, j - i as int)) && i <= j
                <= b@.len(),
            None => p_u64(b@.skip(i as int)) is None,
        },
{
    if b.len() - i >= 8 {
        let v = b[i] as u64 + 256 * (b[i + 1] as u64) + 65536 * (b[i + 2] as u64) + 16777216 * (
        b[i + 3] as u64) + 4294967296 * (b[i + 4] as u64) + 1099511627776 * (b[i + 5] as u64)
            + 281474976710656 * (b[i + 6] as u64) + 72057594037927936 * (b[i + 7] as u64);
        Some((v, i + 8))
    } else {
        None
    }
}

fn parse_char(b: &[u8], i: usize) -> (r: Option<(char, usize)>)
    requires
        i <= b@.len(),
    ensures
        match r {
            Some((c, j)) => p_char(b@.skip(i as int)) == Some((c, j - i as int)) && i <= j
                <= b@.len(),
            None => p_char(b@.skip(i as int)) is None,
        },
{
    match parse_u32(b, i) {
        None => None,
        Some((v, j)) => match char_from_u32(v) {
            None => None,
            Some(c) => Some((c, j)),
        },
    }
}

#[verifier::loop_isolation(false)]
fn parse_string(b: &[u8], i: usize) -> (r: Option<(String, usize)>)
    requires
        i <= b@.len(),
    ensures
        match r {
            Some((s, j)) => p_str(b@.skip(i as int)) == Some((s@, j - i as int)) && i <= j
                <= b@.len(),
            None => p_str(b@.skip(i as int)) is None,
        },
{
    match parse_u16(b, i) {
        None => None,
        Some((n, start)) => {
            proof {
                assert(b@.skip(i as int).skip(2) =~= b@.skip(start as int));
            }
            let mut acc: Vec<char> = Vec::new();
            let mut k: usize = 0;
            let mut pos: usize = start;
            let n_usize = n as usize;
            while k < n_usize
                invariant
                    k <= n_usize,
                    n_usize == n,
                    start == i + 2,
                    start <= pos <= b@.len(),
                    pos == start + 4 * k,
                    acc@.len() == k,
                    p_chars(b@.skip(start as int), n as nat) == (match p_chars(
                        b@.skip(pos as int),
                        (n_usize - k) as nat,
                    ) {
                        Some((s2, m2)) => Some((acc@ + s2, 4 * (k as int) + m2)),
                        None => None::<(Seq<char>, int)>,
                    }),
                decreases n_usize - k,
            {
                match parse_char(b, pos) {
                    None => {
                        return None;
                    }
                    Some((c, j2)) => {
                        proof {
                            assert(b@.skip(pos as int).skip(4) =~= b@.skip(pos as int + 4));
                            let rec = p_chars(b@.skip(pos as int + 4), (n_usize - k - 1) as nat);
                            if rec is Some {
                                let (s3, m3) = rec->Some_0;
                                assert(acc@ + (seq![c] + s3) =~= acc@.push(c) + s3);
                            }
                        }
                        acc.push(c);
                        pos = j2;
                        k += 1;
                    }
                }
            }
            proof {
                assert(p_chars(b@.skip(pos as int), 0) == Some((Seq::<char>::empty(), 0int)));
                assert(acc@ + Seq::<char>::empty() =~= acc@);
            }
            let s = string_from_chars(acc);
            Some((s, pos))
        }
    }
}

#[verifier::loop_isolation(false)]
fn parse_str_list(b: &[u8], i: usize) -> (r: Option<(Vec<String>, usize)>)
    requires
        i <= b@.len(),
    ensures
        match r {
            Some((l, j)) => p_str_list(b@.skip(i as int)) == Some((l.deep_view(), j - i as int))
                && i <= j <= b@.len(),
            None => p_str_list(b@.skip(i as int)) is None,
        },
{
    match parse_u16(b, i) {
        None => None,
        Some((n, start)) => {
            proof {
                assert(b@.skip(i as int).skip(2) =~= b@.skip(start as int));
            }
            let mut acc: Vec<String> = Vec::new();
            let mut k: usize = 0;
            let mut pos: usize = start;
            let n_usize = n as usize;
            while k < n_usize
                invariant
                    k <= n_usize,
                    n_usize == n,
                    start == i + 2,
                    start <= pos <= b@.len(),
                    acc@.len() == k,
                    p_strs(b@.skip(start as int), n as nat) == (match p_strs(
                        b@.skip(pos as int),
                        (n_usize - k) as nat,
                    ) {
                        Some((l2, m2)) => Some((acc.deep_view() + l2, pos - start + m2)),
                        None => None::<(Seq<Seq<char>>, int)>,
                    }),
                decreases n_usize - k,
            {
                match parse_string(b, pos) {
                    None => {
                        return None;
                    }
                    Some((s, j2)) => {
                        proof {
                            assert(b@.skip(pos as int).skip(j2 - pos as int) =~= b@.skip(
                                j2 as int,
                            ));
                            let rec = p_strs(b@.skip(j2 as int), (n_usize - k - 1) as nat);
                            if rec is Some {
                                let (l3, m3) = rec->Some_0;
                                assert(acc.deep_view() + (seq![s@] + l3) =~= acc.deep_view().push(
                                    s@,
                                ) + l3);
                            }
                            let pushed = acc@.push(s);
                            assert(Seq::new(pushed.len(), |t: int| pushed[t].deep_view())
                                =~= acc.deep_view().push(s@));
                        }
                        acc.push(s);
                        pos = j2;
                        k += 1;
                    }
                }
            }
            proof {
                assert(p_strs(b@.skip(pos as int), 0) == Some((Seq::<Seq<char>>::empty(), 0int)));
                assert(acc.deep_view() + Seq::<Seq<char>>::empty() =~= acc.deep_view());
            }
            Some((acc, pos))
        }
    }
}

fn parse_ip(b: &[u8], i: usize) -> (r: Option<(IpAddress, usize)>)
    requires
        i <= b@.len(),
    ensures
        match r {
            Some((ip, j)) => p_ip(b@.skip(i as int)) == Some((ip, j - i as int)) && i <= j
                <= b@.len(),
            None => p_ip(b@.skip(i as int)) is None,
        },
{
    if b.len() - i < 1 {
        return None;
    }
    let tag = b[i];
    if tag == 4 {
        if b.len() - i >= 5 {
            Some((IpAddress::V4(b[i + 1], b[i + 2], b[i + 3], b[i + 4]), i + 5))
        } else {
            None
        }
    } else if tag == 6 {
        proof {
            assert(b@.skip(i as int).skip(1) =~= b@.skip(i as int + 1));
        }
        match parse_u64(b, i + 1) {
            None => None,
            Some((hi, j1)) => {
                proof {
                    assert(b@.skip(i as int).skip(9) =~= b@.skip(i as int + 9));
                }
                match parse_u64(b, j1) {
                    None => None,
                    Some((lo, j2)) => Some((IpAddress::V6(hi, lo), j2)),
                }
            }
        }
    } else {
        None
    }
}

fn parse_quote(b: &[u8], i: usize) -> (r: Option<(StockQuote, usize)>)
    requires
        i <= b@.len(),
    ensures
        match r {
            Some((q, j)) => p_quote(b@.skip(i as int)) == Some((q@, j - i as int)) && i <= j
                <= b@.len(),
            None => p_quote(b@.skip(i as int)) is None,
        },
{
    match parse_string(b, i) {
        None => None,
        Some((ticker, j1)) => {
            proof {
                assert(b@.skip(i as int).skip(j1 - i as int) =~= b@.skip(j1 as int));
            }
            match parse_u64(b, j1) {
                None => None,
                Some((pr, j2)) => {
                    proof {
                        assert(b@.skip(i as int).skip(j2 - i as int) =~= b@.skip(j2 as int));
                    }
                    match parse_u32(b, j2) {
                        None => None,
                        Some((vol, j3)) => {
                            proof {
                                assert(b@.skip(i as int).skip(j3 - i as int) =~= b@.skip(
                                    j3 as int,
                                ));
                            }
                            match parse_u64(b, j3) {
                                None => None,
                                Some((ts, j4)) => {
                                    let price: i64 = #[verifier::truncate] (pr as i64);
                                    let timestamp: i64 = #[verifier::truncate] (ts as i64);
                                    let q = StockQuote { ticker, price, volume: vol, timestamp };
                                    Some((q, j4))
                                }
                            }
                        }
                    }
                }
            }
        }
    }
}

#[verifier::rlimit(60)]
fn parse_req(b: &[u8], i: usize) -> (r: Option<(Request, usize)>)
    requires
        i <= b@.len(),
    ensures
        match r {
            Some((req, j)) => p_req(b@.skip(i as int)) == Some((req@, j - i as int)) && i <= j
                <= b@.len(),
            None => p_req(b@.skip(i as int)) is None,
        },
{
    if b.len() - i < 1 {
        return None;
    }
    let tag = b[i];
    if tag == 0 {
        proof {
            assert(b@.skip(i as int).skip(1) =~= b@.skip(i as int + 1));
        }
        match parse_str_list(b, i + 1) {
            None => None,
            Some((tickers, j1)) => {
                proof {
                    assert(b@.skip(i as int + 1).skip(j1 - i as int - 1) =~= b@.skip(j1 as int));
                }
                match parse_ip(b, j1) {
                    None => None,
                    Some((ip, j2)) => {
                        proof {
                            assert(b@.skip(i as int + 1).skip(j2 - i as int - 1) =~= b@.skip(
                                j2 as int,
                            ));
                        }
                        match parse_u16(b, j2) {
                            None => None,
                            Some((port, j3)) => Some(
                                (Request::StreamTickers { ticker: tickers, address: ip, port }, j3),
                            ),
                        }
                    }
                }
            }
        }
    } else if tag == 1 {
        Some((Request::Ping, i + 1))
    } else {
        None
    }
}

fn parse_resp(b: &[u8], i: usize) -> (r: Option<(Response, usize)>)
    requires
        i <= b@.len(),
    ensures
        match r {
            Some((resp, j)) => p_resp(b@.skip(i as int)) == Some((resp@, j - i as int)) && i <= j
                <= b@.len(),
            None => p_resp(b@.skip(i as int)) is None,
        },
{
    if b.len() - i < 1 {
        return None;
    }
    let tag = b[i];
    if tag == 0 {
        proof {
            assert(b@.skip(i as int).skip(1) =~= b@.skip(i as int + 1));
        }
        match parse_quote(b, i + 1) {
            None => None,
            Some((q, j)) => Some((Response::Quote(q), j)),
        }
    } else if tag == 1 {
        Some((Response::Pong, i + 1))
    } else if tag == 2 {
        proof {
            assert(b@.skip(i as int).skip(1) =~= b@.skip(i as int + 1));
        }
        match parse_string(b, i + 1) {
            None => None,
            Some((s, j)) => Some((Response::Error(s), j)),
        }
    } else if tag == 3 {
        Some((Response::Okay, i + 1))
    } else {
        None
    }
}

/// Decodes a request from its wire bytes.
///
/// Returns `Ok(req)` exactly when the bytes are, in full, the encoding of a
/// request within the MTU; anything else is `InvalidFormat`.
pub fn decode_request(bytes: &[u8]) -> (r: Result<Request, WireError>)
    ensures
        match r {
            Ok(req) => req_wf(req@) && bytes@ == enc_req(req@) && bytes@.len() <= MTU,
            Err(e) => e == WireError::InvalidFormat && forall|v: crate::messages::RequestView|
                req_wf(v) && enc_req(v).len() <= MTU ==> enc_req(v) != bytes@,
        },
{
    if bytes.len() > MTU {
        proof {
            assert forall|v: crate::messages::RequestView|
                req_wf(v) && enc_req(v).len() <= MTU implies enc_req(v) != bytes@ by {
                assert(enc_req(v).len() <= MTU < bytes@.len());
            }
        }
        return Err(WireError::InvalidFormat);
    }
    proof {
        assert(bytes@.skip(0) =~= bytes@);
    }
    match parse_req(bytes, 0) {
        Some((req, j)) => {
            if j == bytes.len() {
                proof {
                    lemma_p_req_sound(bytes@);
                    assert(bytes@.subrange(0, bytes@.len() as int) =~= bytes@);
                }
                Ok(req)
            } else {
                proof {
                    assert forall|v: crate::messages::RequestView|
                        req_wf(v) && enc_req(v).len() <= MTU implies enc_req(v) != bytes@ by {
                        if enc_req(v) == bytes@ {
                            lemma_req_round_trip(v, Seq::<u8>::empty());
                            assert(enc_req(v) + Seq::<u8>::empty() =~= bytes@);
                        }
                    }
                }
                Err(WireError::InvalidFormat)
            }
        }
        None => {
            proof {
                assert forall|v: crate::messages::RequestView|
                    req_wf(v) && enc_req(v).len() <= MTU implies enc_req(v) != bytes@ by {
                    if enc_req(v) == bytes@ {
                        lemma_req_round_trip(v, Seq::<u8>::empty());
                        assert(enc_req(v) + Seq::<u8>::empty() =~= bytes@);
                    }
                }
            }
            Err(WireError::InvalidFormat)
        }
    }
}

/// Decodes a response from its wire bytes.
///
/// Returns `Ok(resp)` exactly when the bytes are, in full, the encoding of a
/// response within the MTU; anything else is `InvalidFormat`.
pub fn decode_response(bytes: &[u8]) -> (r: Result<Response, WireError>)
    ensures
        match r {
            Ok(resp) => resp_wf(resp@) && bytes@ == enc_resp(resp@) && bytes@.len() <= MTU,
            Err(e) => e == WireError::InvalidFormat && forall|v: crate::messages::ResponseView|
                resp_wf(v) && enc_resp(v).len() <= MTU ==> enc_resp(v) != bytes@,
        },
{
    if bytes.len() > MTU {
        proof {
            assert forall|v: crate::messages::ResponseView|
                resp_wf(v) && enc_resp(v).len() <= MTU implies enc_resp(v) != bytes@ by {
                assert(enc_resp(v).len() <= MTU < bytes@.len());
            }
        }
        return Err(WireError::InvalidFormat);
    }
    proof {
        assert(bytes@.skip(0) =~= bytes@);
    }
    match parse_resp(bytes, 0) {
        Some((resp, j)) => {
            if j == bytes.len() {
                proof {
                    lemma_p_resp_sound(bytes@);
                    assert(bytes@.subrange(0, bytes@.len() as int) =~= bytes@);
                }
                Ok(resp)
            } else {
                proof {
                    assert forall|v: crate::messages::ResponseView|
                        resp_wf(v) && enc_resp(v).len() <= MTU implies enc_resp(v) != bytes@ by {
                        if enc_resp(v) == bytes@ {
                            lemma_resp_round_trip(v, Seq::<u8>::empty());
                            assert(enc_resp(v) + Seq::<u8>::empty() =~= bytes@);
                        }
                    }
                }
                Err(WireError::InvalidFormat)
            }
        }
        None => {
            proof {
                assert forall|v: crate::messages::ResponseView|
                    resp_wf(v) && enc_resp(v).len() <= MTU implies enc_resp(v) != bytes@ by {
                    if enc_resp(v) == bytes@ {
                        lemma_resp_round_trip(v, Seq::<u8>::empty());
                        assert(enc_resp(v) + Seq::<u8>::empty() =~= bytes@);
                    }
                }
            }
            Err(WireError::InvalidFormat)
        }
    }
}

} // verus!

