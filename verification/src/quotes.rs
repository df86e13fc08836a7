//! Quote synthesis: random prices and volumes, stamped with the wall clock.
//!
//! The quote generator loop lives in the server binary (it sleeps between
//! passes); it calls [`StockQuote::generate`] for each configured ticker and
//! hands the quote to the tickers router. The ticker list itself is parsed
//! here from the text of the configured file: one ticker per line,
//! surrounding blanks trimmed.

use vstd::prelude::*;
use vstd::string::StrSliceExecFns;
use crate::messages::StockQuote;

verus! {

/// Relies on `rand::random_range` over an integer range: it panics only on
/// an empty range, and returns a value of the range.
#[verifier::external_body]
fn rand_in(lo: u64, hi: u64) -> (r: u64)
    requires
        lo < hi,
    ensures
        lo <= r < hi,
{
    rand::random_range(lo..hi)
}

/// Relies on chrono's `Utc::now` and `DateTime::timestamp`: whole seconds
/// since the Unix epoch of the current wall clock. Nothing can be promised
/// of the clock's reading.
#[verifier::external_body]
fn now_unix_seconds() -> (r: i64) {
    chrono::Utc::now().timestamp()
}

impl StockQuote {
    /// Synthesizes a random quote for the ticker: a price in [1.00, 1000.00)
    /// held as centi-units, a volume in [10, 1000), stamped with the current
    /// wall-clock seconds.
    pub fn generate(ticker: &str) -> (r: StockQuote)
        ensures
            r@.ticker == ticker@,
            100 <= r@.price < 100000,
            10 <= r@.volume < 1000,
    {
        let price_raw = rand_in(100, 100000);
        let volume_raw = rand_in(10, 1000);
        StockQuote {
            ticker: ticker.to_owned(),
            price: price_raw as i64,
            volume: volume_raw as u32,
            timestamp: now_unix_seconds(),
        }
    }
}

/// True for the blank characters trimmed off a ticker line.
pub open spec fn is_line_space(c: char) -> bool {
    c == ' ' || c == '\t' || c == '\r'
}

/// The sequence without its leading blanks.
pub open spec fn trim_front(s: Seq<char>) -> Seq<char>
    decreases s.len(),
{
    if s.len() > 0 && is_line_space(s[0]) {
        trim_front(s.drop_first())
    } else {
        s
    }
}

/// The sequence without its trailing blanks.
pub open spec fn trim_back(s: Seq<char>) -> Seq<char>
    decreases s.len(),
{
    if s.len() > 0 && is_line_space(s[s.len() - 1]) {
        trim_back(s.drop_last())
    } else {
        s
    }
}

/// The sequence without leading and trailing blanks.
pub open spec fn trim_of(s: Seq<char>) -> Seq<char> {
    trim_back(trim_front(s))
}

/// The tickers of the remaining text `s`, given the partial current line
/// `cur` and the lines already collected: lines are separated by newline,
/// each is trimmed, and text after the last newline forms a final line only
/// if it is nonempty.
pub open spec fn tickers_acc(s: Seq<char>, cur: Seq<char>, acc: Seq<Seq<char>>) -> Seq<Seq<char>>
    decreases s.len(),
{
    if s.len() == 0 {
        if cur.len() == 0 {
            acc
        } else {
            acc.push(trim_of(cur))
        }
    } else if s[0] == '\n' {
        tickers_acc(s.drop_first(), Seq::empty(), acc.push(trim_of(cur)))
    } else {
        tickers_acc(s.drop_first(), cur.push(s[0]), acc)
    }
}

/// The tickers of a ticker-list text: one per line, trimmed.
pub open spec fn tickers_of(s: Seq<char>) -> Seq<Seq<char>> {
    tickers_acc(s, Seq::empty(), Seq::empty())
}

/// Dropping `k` leading blanks front-trims to the same result.
proof fn lemma_trim_front_skip(s: Seq<char>, k: int)
    requires
        0 <= k <= s.len(),
        forall|j: int| 0 <= j < k ==> is_line_space(#[trigger] s[j]),
        k < s.len() ==> !is_line_space(s[k]),
    ensures
        trim_front(s) == s.skip(k),
    decreases k,
{
    if k == 0 {
        assert(s.skip(0) =~= s);
    } else {
        assert(is_line_space(s[0]));
        let t = s.drop_first();
        assert(t =~= s.skip(1));
        assert(forall|j: int| 0 <= j < k - 1 ==> is_line_space(#[trigger] t[j]));
        lemma_trim_front_skip(t, k - 1);
        assert(t.skip(k - 1) =~= s.skip(k));
    }
}

/// Dropping `k` trailing blanks back-trims to the same result.
proof fn lemma_trim_back_take(s: Seq<char>, k: int)
    requires
        0 <= k <= s.len(),
        forall|j: int| k <= j < s.len() ==> is_line_space(#[trigger] s[j]),
        k > 0 ==> !is_line_space(s[k - 1]),
    ensures
        trim_back(s) == s.take(k),
    decreases s.len() - k,
{
    if k == s.len() {
        assert(s.take(k) =~= s);
    } else {
        assert(is_line_space(s[s.len() - 1]));
        let t = s.drop_last();
        assert(t =~= s.take(s.len() - 1));
        assert(forall|j: int| k <= j < t.len() ==> is_line_space(#[trigger] t[j]));
        lemma_trim_back_take(t, k);
        assert(t.take(k) =~= s.take(k));
    }
}

/// The characters of `v` without leading and trailing blanks.
#[verifier::loop_isolation(false)]
fn trim_chars(v: &Vec<char>) -> (r: Vec<char>)
    ensures
        r@ == trim_of(v@),
{
    let n = v.len();
    let mut lo: usize = 0;
    while lo < n && is_space_char(v[lo])
        invariant
            lo <= n,
            n == v@.len(),
            forall|j: int| 0 <= j < lo ==> is_line_space(#[trigger] v@[j]),
        decreases n - lo,
    {
        lo += 1;
    }
    let mut hi: usize = n;
    while hi > lo && is_space_char(v[hi - 1])
        invariant
            lo <= hi <= n,
            forall|j: int| hi <= j < n ==> is_line_space(#[trigger] v@[j]),
        decreases hi,
    {
        hi -= 1;
    }
    proof {
        lemma_trim_front_skip(v@, lo as int);
        let mid = v@.skip(lo as int);
        assert(forall|j: int|
            hi - lo <= j < mid.len() ==> is_line_space(#[trigger] mid[j]));
        if hi > lo {
            assert(mid[hi - lo - 1] == v@[hi - 1]);
        }
        lemma_trim_back_take(mid, hi - lo);
    }
    let mut r: Vec<char> = Vec::new();
    let mut i: usize = lo;
    while i < hi
        invariant
            lo <= i <= hi,
            hi <= n,
            n == v@.len(),
            r@ =~= v@.subrange(lo as int, i as int),
        decreases hi - i,
    {
        r.push(v[i]);
        i += 1;
    }
    proof {
        assert(v@.subrange(lo as int, hi as int) =~= v@.skip(lo as int).take(hi - lo as int));
    }
    r
}

/// True for the blank characters trimmed off a ticker line.
fn is_space_char(c: char) -> (r: bool)
    ensures
        r == is_line_space(c),
{
    c == ' ' || c == '\t' || c == '\r'
}

/// The list of tickers the quote generator works from.
pub struct StockQuotesGenerator {
    /// The configured ticker symbols, in file order.
    pub tickers: Vec<String>,
}

impl StockQuotesGenerator {
    /// Parses a ticker-list text: one ticker per line, blanks trimmed. Text
    /// after the last newline forms a final ticker only if it is nonempty.
    #[verifier::loop_isolation(false)]
    pub fn read_from(text: &str) -> (r: StockQuotesGenerator)
        ensures
            r.tickers.deep_view() == tickers_of(text@),
    {
        let n = text.unicode_len();
        let mut out: Vec<String> = Vec::new();
        let mut cur: Vec<char> = Vec::new();
        let mut i: usize = 0;
        proof {
            assert(text@.skip(0) =~= text@);
            assert(out.deep_view() =~= Seq::<Seq<char>>::empty());
            assert(cur@ =~= Seq::<char>::empty());
        }
        while i < n
            invariant
                i <= n,
                n == text@.len(),
                tickers_of(text@) == tickers_acc(text@.skip(i as int), cur@, out.deep_view()),
            decreases n - i,
        {
            let c = text.get_char(i);
            proof {
                assert(text@.skip(i as int)[0] == c);
                assert(text@.skip(i as int).drop_first() =~= text@.skip(i as int + 1));
            }
            if c == '\n' {
                let ghost cur_pre = cur@;
                let trimmed = trim_chars(&cur);
                let line = crate::codec::string_from_chars(trimmed);
                let ghost out_pre = out.deep_view();
                out.push(line);
                cur = Vec::new();
                proof {
                    assert(out.deep_view() =~= out_pre.push(trim_of(cur_pre)));
                    assert(cur@ =~= Seq::<char>::empty());
                }
            } else {
                cur.push(c);
            }
            i += 1;
        }
        proof {
            assert(text@.skip(n as int) =~= Seq::<char>::empty());
        }
        if cur.len() > 0 {
            let trimmed = trim_chars(&cur);
            let line = crate::codec::string_from_chars(trimmed);
            let ghost out_pre = out.deep_view();
            out.push(line);
            proof {
                assert(out.deep_view() =~= out_pre.push(trim_of(cur@)));
            }
        }
        StockQuotesGenerator { tickers: out }
    }

    /// One synthesized quote per configured ticker, in order.
    #[verifier::loop_isolation(false)]
    pub fn generate(&self) -> (r: Vec<StockQuote>)
        ensures
            r@.len() == self.tickers@.len(),
            forall|k: int|
                0 <= k < r@.len() ==> (#[trigger] r@[k])@.ticker == self.tickers@[k]@ && 100
                    <= r@[k]@.price < 100000 && 10 <= r@[k]@.volume < 1000,
    {
        let mut r: Vec<StockQuote> = Vec::new();
        let mut i: usize = 0;
        while i < self.tickers.len()
            invariant
                i <= self.tickers@.len(),
                r@.len() == i,
                forall|k: int|
                    0 <= k < i ==> (#[trigger] r@[k])@.ticker == self.tickers@[k]@ && 100
                        <= r@[k]@.price < 100000 && 10 <= r@[k]@.volume < 1000,
            decreases self.tickers@.len() - i,
        {
            r.push(StockQuote::generate(self.tickers[i].as_str()));
            i += 1;
        }
        r
    }
}

} // verus!
