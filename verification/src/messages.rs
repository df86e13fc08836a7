use vstd::prelude::*;

verus! {

/// An IP address, IPv4 or IPv6, held as plain integers.
///
/// The binaries convert between this and the platform's address types at the
/// socket boundary. An IPv6 address is split into its high and low 64 bits,
/// most significant first.
#[derive(Clone, Copy, PartialEq, Eq, Hash, Debug, Structural)]
pub enum IpAddress {
    /// An IPv4 address as its four octets, in textual order.
    V4(u8, u8, u8, u8),
    /// An IPv6 address as its high and low 64 bits.
    V6(u64, u64),
}

/// The (IP, port) identity of a subscriber, used as a routing key.
///
/// Equality is structural over both fields; its display form is `ip:port`.
#[derive(Clone, Copy, PartialEq, Eq, Hash, Debug, Structural)]
pub struct ClientAddress {
    /// The subscriber's IP address.
    pub ip: IpAddress,
    /// The subscriber's UDP port.
    pub port: u16,
}

impl ClientAddress {
    /// Bundles an IP address and a port into a routing key.
    pub fn new(address: IpAddress, port: u16) -> (r: ClientAddress)
        ensures
            r.ip == address,
            r.port == port,
    {
        ClientAddress { ip: address, port }
    }

    /// The pair handed to the datagram socket's send call.
    pub fn address(&self) -> (r: (IpAddress, u16))
        ensures
            r.0 == self.ip,
            r.1 == self.port,
    {
        (self.ip, self.port)
    }
}

/// A single stock quote update. Immutable once produced.
#[derive(Clone, PartialEq, Eq, Debug)]
pub struct StockQuote {
    /// The ticker symbol of the stock (e.g., "AAPL").
    pub ticker: String,
    /// The price of the stock multiplied by 100, exact.
    pub price: i64,
    /// The volume of shares traded in this update.
    pub volume: u32,
    /// The Unix timestamp (UTC seconds) when the quote was generated.
    pub timestamp: i64,
}

/// The mathematical value of a [`StockQuote`].
pub struct QuoteView {
    /// The ticker symbol as a character sequence.
    pub ticker: Seq<char>,
    /// The price multiplied by 100.
    pub price: i64,
    /// The traded volume.
    pub volume: u32,
    /// Unix timestamp, UTC seconds.
    pub timestamp: i64,
}

impl View for StockQuote {
    type V = QuoteView;

    open spec fn view(&self) -> QuoteView {
        QuoteView {
            ticker: self.ticker@,
            price: self.price,
            volume: self.volume,
            timestamp: self.timestamp,
        }
    }
}

impl StockQuote {
    /// The ticker symbol of the stock.
    pub fn ticker(&self) -> (r: &str)
        ensures
            r@ == self@.ticker,
    {
        self.ticker.as_str()
    }
}

/// A request from a client to the quote streaming server.
#[derive(Debug, PartialEq, Eq)]
pub enum Request {
    /// A request to start streaming quotes for a list of tickers.
    StreamTickers {
        /// The list of ticker symbols to stream.
        ticker: Vec<String>,
        /// The IP address the quotes are to be sent to.
        address: IpAddress,
        /// The UDP port the quotes are to be sent to.
        port: u16,
    },
    /// A simple ping request to check server availability.
    Ping,
}

/// The mathematical value of a [`Request`].
pub enum RequestView {
    /// A subscription request: ticker symbols and the delivery address.
    StreamTickers {
        /// The ticker symbols as character sequences.
        ticker: Seq<Seq<char>>,
        /// The delivery IP address.
        address: IpAddress,
        /// The delivery UDP port.
        port: u16,
    },
    /// A ping.
    Ping,
}

impl View for Request {
    type V = RequestView;

    open spec fn view(&self) -> RequestView {
        match self {
            Request::StreamTickers { ticker, address, port } => RequestView::StreamTickers {
                ticker: ticker.deep_view(),
                address: *address,
                port: *port,
            },
            Request::Ping => RequestView::Ping,
        }
    }
}

/// A response from the quote streaming server to a client.
#[derive(Debug, PartialEq, Eq)]
pub enum Response {
    /// A single stock quote update.
    Quote(StockQuote),
    /// The reply to a ping request.
    Pong,
    /// An error message indicating something went wrong.
    Error(String),
    /// A generic successful response.
    Okay,
}

/// The mathematical value of a [`Response`].
pub enum ResponseView {
    /// A single stock quote update.
    Quote(QuoteView),
    /// The reply to a ping.
    Pong,
    /// An error message.
    Error(Seq<char>),
    /// Success.
    Okay,
}

impl View for Response {
    type V = ResponseView;

    open spec fn view(&self) -> ResponseView {
        match self {
            Response::Quote(q) => ResponseView::Quote(q@),
            Response::Pong => ResponseView::Pong,
            Response::Error(s) => ResponseView::Error(s@),
            Response::Okay => ResponseView::Okay,
        }
    }
}

/// A liveness signal, as exchanged over the datagram endpoint.
#[derive(Debug, PartialEq, Eq, Structural, Clone, Copy)]
pub enum KeepAlive {
    /// A client's "subscription still wanted" signal.
    Ping,
    /// The server's acknowledgement.
    Pong,
}

/// A client command, as accepted by an early revision of the handshake.
///
/// The current handshake speaks [`Request`]; this stays for callers of the
/// older shape.
#[derive(Debug, PartialEq, Eq)]
pub enum Commands {
    /// A request to stream quotes for a list of tickers.
    Stream {
        /// The ticker symbols to stream.
        ticker: Vec<String>,
        /// The IP address the quotes are to be sent to.
        address: IpAddress,
    },
}

} // verus!
