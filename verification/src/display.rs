//! Display strings for addresses and quotes.
//!
//! The client binary prints each received quote; the server logs client
//! addresses. The numeric rendering (decimal integers, centi-unit prices,
//! hexadecimal IPv6 groups) is spelled out here; only the calendar form of
//! a quote's timestamp comes from the chrono crate.

use vstd::prelude::*;
use crate::messages::{ClientAddress, IpAddress, StockQuote};

verus! {

/// The decimal digit character of `d`.
pub open spec fn digit_char(d: int) -> char {
    ((48 + d) as u8) as char
}

/// The decimal digits of `n`, most significant first.
pub open spec fn dec_digits(n: int) -> Seq<char>
    decreases n,
{
    if n < 0 {
        Seq::empty()
    } else if n < 10 {
        seq![digit_char(n)]
    } else {
        dec_digits(n / 10).push(digit_char(n % 10))
    }
}

/// The lowercase hexadecimal digit character of `d`.
pub open spec fn hex_char(d: int) -> char {
    if d < 10 {
        ((48 + d) as u8) as char
    } else {
        ((87 + d) as u8) as char
    }
}

/// The four hexadecimal digits of a 16-bit group, most significant first.
pub open spec fn hex4(n: int) -> Seq<char> {
    seq![
        hex_char(n / 4096 % 16),
        hex_char(n / 256 % 16),
        hex_char(n / 16 % 16),
        hex_char(n % 16),
    ]
}

/// The price string of a centi-unit amount: sign, whole part, a point, and
/// exactly two fractional digits.
pub open spec fn price_chars(p: int) -> Seq<char> {
    let a = if p < 0 {
        -p
    } else {
        p
    };
    let sign: Seq<char> = if p < 0 {
        seq!['-']
    } else {
        Seq::empty()
    };
    sign + dec_digits(a / 100) + seq!['.', digit_char(a / 10 % 10), digit_char(a % 10)]
}

/// The display form of an IP address: dotted quad for IPv4, eight
/// uncompressed lowercase hexadecimal groups for IPv6.
pub open spec fn ip_chars(ip: IpAddress) -> Seq<char> {
    match ip {
        IpAddress::V4(o0, o1, o2, o3) => dec_digits(o0 as int) + seq!['.'] + dec_digits(o1 as int)
            + seq!['.'] + dec_digits(o2 as int) + seq!['.'] + dec_digits(o3 as int),
        IpAddress::V6(hi, lo) => hex4(hi as int / 281474976710656 % 65536) + seq![':'] + hex4(
            hi as int / 4294967296 % 65536,
        ) + seq![':'] + hex4(hi as int / 65536 % 65536) + seq![':'] + hex4(hi as int % 65536)
            + seq![':'] + hex4(lo as int / 281474976710656 % 65536) + seq![':'] + hex4(
            lo as int / 4294967296 % 65536,
        ) + seq![':'] + hex4(lo as int / 65536 % 65536) + seq![':'] + hex4(lo as int % 65536),
    }
}

/// The display form of a client address: `ip:port`.
pub open spec fn address_chars(a: ClientAddress) -> Seq<char> {
    ip_chars(a.ip) + seq![':'] + dec_digits(a.port as int)
}

/// Writes the decimal digits of `n` onto `out`.
#[verifier::loop_isolation(false)]
fn push_dec(out: &mut Vec<char>, n: u64)
    ensures
        final(out)@ == old(out)@ + dec_digits(n as int),
    decreases n,
{
    if n < 10 {
        out.push((48 + n as u8) as char);
        proof {
            assert(final(out)@ =~= old(out)@ + dec_digits(n as int));
        }
    } else {
        push_dec(out, n / 10);
        out.push((48 + (n % 10) as u8) as char);
        proof {
            assert(final(out)@ =~= old(out)@ + dec_digits(n as int));
        }
    }
}

/// Writes the four hexadecimal digits of a 16-bit group onto `out`.
fn push_hex4(out: &mut Vec<char>, n: u16)
    ensures
        final(out)@ == old(out)@ + hex4(n as int),
{
    push_hex_digit(out, ((n / 4096) % 16) as u8);
    push_hex_digit(out, ((n / 256) % 16) as u8);
    push_hex_digit(out, ((n / 16) % 16) as u8);
    push_hex_digit(out, (n % 16) as u8);
    proof {
        assert(final(out)@ =~= old(out)@ + hex4(n as int));
    }
}

/// Writes one hexadecimal digit onto `out`.
fn push_hex_digit(out: &mut Vec<char>, d: u8)
    requires
        d < 16,
    ensures
        final(out)@ == old(out)@ + seq![hex_char(d as int)],
{
    if d < 10 {
        out.push((48 + d) as char);
    } else {
        out.push((87 + d) as char);
    }
    proof {
        assert(final(out)@ =~= old(out)@ + seq![hex_char(d as int)]);
    }
}

impl ClientAddress {
    /// The address as text: `ip:port`.
    pub fn display_string(&self) -> (r: String)
        ensures
            r@ == address_chars(*self),
    {
        let mut out: Vec<char> = Vec::new();
        match self.ip {
            IpAddress::V4(o0, o1, o2, o3) => {
                push_dec(&mut out, o0 as u64);
                out.push('.');
                push_dec(&mut out, o1 as u64);
                out.push('.');
                push_dec(&mut out, o2 as u64);
                out.push('.');
                push_dec(&mut out, o3 as u64);
                proof {
                    assert(out@ =~= ip_chars(self.ip));
                }
            }
            IpAddress::V6(hi, lo) => {
                push_hex4(&mut out, (hi / 281474976710656 % 65536) as u16);
                out.push(':');
                push_hex4(&mut out, (hi / 4294967296 % 65536) as u16);
                out.push(':');
                push_hex4(&mut out, (hi / 65536 % 65536) as u16);
                out.push(':');
                push_hex4(&mut out, (hi % 65536) as u16);
                out.push(':');
                push_hex4(&mut out, (lo / 281474976710656 % 65536) as u16);
                out.push(':');
                push_hex4(&mut out, (lo / 4294967296 % 65536) as u16);
                out.push(':');
                push_hex4(&mut out, (lo / 65536 % 65536) as u16);
                out.push(':');
                push_hex4(&mut out, (lo % 65536) as u16);
                proof {
                    assert(out@ =~= ip_chars(self.ip));
                }
            }
        }
        out.push(':');
        push_dec(&mut out, self.port as u64);
        proof {
            assert(out@ =~= address_chars(*self));
        }
        crate::codec::string_from_chars(out)
    }
}

/// The calendar form chrono gives a valid Unix timestamp; it depends on the
/// timestamp alone.
pub uninterp spec fn utc_display_of(ts: i64) -> Seq<char>;

/// Relies on chrono's `Utc.timestamp_opt` and the `DateTime` display: for a
/// timestamp in chrono's supported range the result is its calendar form,
/// which is a function of the timestamp alone; out of range there is none.
#[verifier::external_body]
fn utc_datetime_string(ts: i64) -> (r: Option<String>)
    ensures
        r matches Some(s) ==> s@ == utc_display_of(ts),
{
    match chrono::TimeZone::timestamp_opt(&chrono::Utc, ts, 0) {
        chrono::MappedLocalTime::Single(dt) => Some(dt.to_string()),
        _ => None,
    }
}

/// The quote display with a calendar time: `ticker: price (volume) time`.
pub open spec fn quote_chars_with_time(q: crate::messages::QuoteView, time: Seq<char>) -> Seq<
    char,
> {
    q.ticker + seq![':', ' '] + price_chars(q.price as int) + seq![' ', '('] + dec_digits(
        q.volume as int,
    ) + seq![')', ' '] + time
}

/// The quote display without a calendar time: `ticker price (volume)`.
pub open spec fn quote_chars_plain(q: crate::messages::QuoteView) -> Seq<char> {
    q.ticker + seq![' '] + price_chars(q.price as int) + seq![' ', '('] + dec_digits(
        q.volume as int,
    ) + seq![')']
}

impl StockQuote {
    /// The quote's display line, given the calendar form of its timestamp —
    /// or none, when the timestamp has no calendar form.
    pub fn display_with_time(&self, time: Option<String>) -> (r: String)
        ensures
            match time {
                Some(t) => r@ == quote_chars_with_time(self@, t@),
                None => r@ == quote_chars_plain(self@),
            },
    {
        let mut out: Vec<char> = Vec::new();
        let mut price: Vec<char> = Vec::new();
        let p = self.price;
        if p < 0 {
            price.push('-');
        }
        let a: u64 = if p < 0 {
            if p == i64::MIN {
                // centi-units never reach this, but the cast must be total
                9223372036854775808u64
            } else {
                (-p) as u64
            }
        } else {
            p as u64
        };
        proof {
            assert(a as int == if p < 0 { -(p as int) } else { p as int }) by {
                if p < 0 && p != i64::MIN {
                    assert((-p) as u64 == -(p as int));
                }
            }
        }
        push_dec(&mut price, a / 100);
        price.push('.');
        price.push((48 + (a / 10 % 10) as u8) as char);
        price.push((48 + (a % 10) as u8) as char);
        proof {
            assert(price@ =~= price_chars(p as int));
        }
        let n = self.ticker.as_str().unicode_len();
        let mut i: usize = 0;
        while i < n
            invariant
                i <= n,
                n == self.ticker@.len(),
                out@ == self.ticker@.take(i as int),
            decreases n - i,
        {
            out.push(self.ticker.as_str().get_char(i));
            proof {
                assert(out@ =~= self.ticker@.take(i as int + 1));
            }
            i += 1;
        }
        proof {
            assert(out@ =~= self.ticker@);
        }
        match time {
            Some(t) => {
                out.push(':');
                out.push(' ');
                let tn = t.as_str().unicode_len();
                push_all(&mut out, &price);
                out.push(' ');
                out.push('(');
                push_dec(&mut out, self.volume as u64);
                out.push(')');
                out.push(' ');
                let ghost base2 = out@;
                let mut j: usize = 0;
                while j < tn
                    invariant
                        j <= tn,
                        tn == t@.len(),
                        out@ == base2 + t@.take(j as int),
                    decreases tn - j,
                {
                    out.push(t.as_str().get_char(j));
                    proof {
                        assert(out@ =~= base2 + t@.take(j as int + 1));
                    }
                    j += 1;
                }
                proof {
                    assert(t@.take(tn as int) =~= t@);
                    assert(out@ =~= quote_chars_with_time(self@, t@));
                }
                crate::codec::string_from_chars(out)
            }
            None => {
                out.push(' ');
                push_all(&mut out, &price);
                out.push(' ');
                out.push('(');
                push_dec(&mut out, self.volume as u64);
                out.push(')');
                proof {
                    assert(out@ =~= quote_chars_plain(self@));
                }
                crate::codec::string_from_chars(out)
            }
        }
    }

    /// The quote as text: `ticker: price (volume) time`, or without the
    /// calendar time when the timestamp is outside chrono's range — which of
    /// the two depends on the chrono call alone.
    pub fn display_string(&self) -> (r: String)
        ensures
            r@ == quote_chars_with_time(self@, utc_display_of(self.timestamp)) || r@
                == quote_chars_plain(self@),
    {
        self.display_with_time(utc_datetime_string(self.timestamp))
    }
}

/// Appends every character of `src` onto `out`.
#[verifier::loop_isolation(false)]
fn push_all(out: &mut Vec<char>, src: &Vec<char>)
    ensures
        final(out)@ == old(out)@ + src@,
{
    let mut i: usize = 0;
    while i < src.len()
        invariant
            i <= src@.len(),
            out@ == old(out)@ + src@.take(i as int),
        decreases src@.len() - i,
    {
        out.push(src[i]);
        proof {
            assert(out@ =~= old(out)@ + src@.take(i as int + 1));
        }
        i += 1;
    }
    proof {
        assert(src@.take(src@.len() as int) =~= src@);
    }
}

} // verus!
