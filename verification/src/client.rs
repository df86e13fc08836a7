//! The client binary's decisions: subscribing, and reading the quote feed.
//!
//! The client connects over TCP, writes one encoded subscription request,
//! and classifies the reply with [`classify_subscribe_response`]. It then
//! pings the server periodically (the encoded ping comes from
//! [`crate::encode_request`]) and reads datagrams in a loop, asking
//! [`UdpResponseReader::on_datagram`] what each one means; a run of
//! malformed datagrams beyond the retry budget gives the feed up.

use vstd::prelude::*;
use crate::codec::{decode_response, is_encoded_resp};
use crate::messages::{Response, ResponseView, StockQuote};
use crate::wire::enc_resp;

verus! {

/// How many malformed datagrams in a row the reader tolerates.
pub const MAX_ATTEMPTS: usize = 10;

/// The outcome of the subscription handshake, read from the server's reply.
pub enum ConnectOutcome {
    /// The server accepted the subscription.
    Subscribed,
    /// The server refused, with this message.
    Refused(String),
    /// The server answered with something other than `Okay` or an error.
    Unexpected,
    /// The reply was no response at all.
    InvalidResponse,
}

/// Classifies the bytes the server wrote back during the handshake.
pub fn classify_subscribe_response(bytes: &[u8]) -> (r: ConnectOutcome)
    ensures
        match r {
            ConnectOutcome::Subscribed => bytes@ == enc_resp(ResponseView::Okay),
            ConnectOutcome::Refused(msg) => bytes@ == enc_resp(ResponseView::Error(msg@)),
            ConnectOutcome::Unexpected => (exists|q: crate::messages::QuoteView|
                bytes@ == #[trigger] enc_resp(ResponseView::Quote(q))) || bytes@ == enc_resp(
                ResponseView::Pong,
            ),
            ConnectOutcome::InvalidResponse => !is_encoded_resp(bytes@),
        },
{
    match decode_response(bytes) {
        Ok(resp) => match resp {
            Response::Okay => ConnectOutcome::Subscribed,
            Response::Error(msg) => ConnectOutcome::Refused(msg),
            Response::Quote(q) => {
                proof {
                    assert(bytes@ == enc_resp(ResponseView::Quote(q@)));
                }
                ConnectOutcome::Unexpected
            }
            Response::Pong => ConnectOutcome::Unexpected,
        },
        Err(_) => ConnectOutcome::InvalidResponse,
    }
}

/// What the client does with one datagram from the quote feed.
pub enum UdpReadAction {
    /// A quote arrived: show it.
    ShowQuote(StockQuote),
    /// A pong or an `Okay`: nothing to do.
    Silent,
    /// The server reported an error: show the message.
    ShowError(String),
    /// The datagram was malformed; the retry budget allows reading on.
    Retry,
    /// The datagram was malformed and the retry budget is spent: stop.
    GiveUp,
}

/// The datagram reader's retry bookkeeping: a well-formed response resets
/// the budget, each malformed datagram spends one attempt.
pub struct UdpResponseReader {
    /// Malformed datagrams seen since the last well-formed response.
    pub attempts: usize,
}

impl UdpResponseReader {
    /// A fresh reader with a full retry budget.
    pub fn new() -> (r: UdpResponseReader)
        ensures
            r.attempts == 0,
    {
        UdpResponseReader { attempts: 0 }
    }

    /// Decides what one received datagram means, and keeps the retry count.
    pub fn on_datagram(&mut self, bytes: &[u8]) -> (r: UdpReadAction)
        requires
            old(self).attempts <= MAX_ATTEMPTS,
        ensures
            match r {
                UdpReadAction::ShowQuote(q) => bytes@ == enc_resp(ResponseView::Quote(q@))
                    && final(self).attempts == 0,
                UdpReadAction::Silent => (bytes@ == enc_resp(ResponseView::Pong) || bytes@
                    == enc_resp(ResponseView::Okay)) && final(self).attempts == 0,
                UdpReadAction::ShowError(msg) => bytes@ == enc_resp(ResponseView::Error(msg@))
                    && final(self).attempts == 0,
                UdpReadAction::Retry => !is_encoded_resp(bytes@) && old(self).attempts
                    < MAX_ATTEMPTS && final(self).attempts == old(self).attempts + 1,
                UdpReadAction::GiveUp => !is_encoded_resp(bytes@) && old(self).attempts
                    == MAX_ATTEMPTS && *final(self) == *old(self),
            },
    {
        match decode_response(bytes) {
            Ok(resp) => {
                self.attempts = 0;
                match resp {
                    Response::Quote(q) => UdpReadAction::ShowQuote(q),
                    Response::Pong => UdpReadAction::Silent,
                    Response::Okay => UdpReadAction::Silent,
                    Response::Error(msg) => UdpReadAction::ShowError(msg),
                }
            }
            Err(_) => {
                if self.attempts < MAX_ATTEMPTS {
                    self.attempts = self.attempts + 1;
                    UdpReadAction::Retry
                } else {
                    UdpReadAction::GiveUp
                }
            }
        }
    }
}

} // verus!
