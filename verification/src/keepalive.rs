//! The keep-alive listener's decision: what to do with one datagram.
//!
//! The server binary owns the UDP socket. For every received datagram it
//! calls [`keep_alive_action`], sends the returned reply bytes (if any), and
//! on a ping forwards a liveness signal into the monitoring router for the
//! datagram's source address.

use vstd::prelude::*;
use crate::codec::{decode_request, encode_response, is_encoded_req};
use crate::messages::{Request, RequestView, Response, ResponseView};
use crate::wire::{enc_req, enc_resp};

verus! {

/// What the keep-alive listener does with one received datagram.
pub enum KeepAliveAction {
    /// The datagram was a ping: send these pong bytes back to the sender,
    /// then forward a liveness signal for it into the monitoring router.
    ReplyPong(Vec<u8>),
    /// The datagram decoded to something other than a ping: send these
    /// error bytes back to the sender.
    ReplyError(Vec<u8>),
    /// The datagram was no request at all: log and stay silent.
    NoReply,
}

/// Decides the keep-alive listener's reply to one datagram.
///
/// A ping gets a pong and a liveness forward; any other well-formed request
/// gets the fixed error reply; malformed bytes get no reply.
pub fn keep_alive_action(datagram: &[u8]) -> (r: KeepAliveAction)
    ensures
        match r {
            KeepAliveAction::ReplyPong(reply) => datagram@ == enc_req(RequestView::Ping)
                && reply@ == enc_resp(ResponseView::Pong),
            KeepAliveAction::ReplyError(reply) => is_encoded_req(datagram@) && datagram@
                != enc_req(RequestView::Ping) && reply@ == enc_resp(
                ResponseView::Error("Invalid request. Expected PING"@),
            ),
            KeepAliveAction::NoReply => !is_encoded_req(datagram@),
        },
{
    match decode_request(datagram) {
        Ok(req) => match req {
            Request::Ping => {
                let reply = match encode_response(&Response::Pong) {
                    Ok(b) => b,
                    Err(_) => {
                        proof {
                            assert(enc_resp(ResponseView::Pong) =~= seq![1u8]);
                        }
                        Vec::new()
                    }
                };
                KeepAliveAction::ReplyPong(reply)
            }
            Request::StreamTickers { .. } => {
                let msg = "Invalid request. Expected PING";
                let reply = match encode_response(&Response::Error(msg.to_owned())) {
                    Ok(b) => b,
                    Err(_) => {
                        proof {
                            reveal_strlit("Invalid request. Expected PING");
                            crate::wire::lemma_str_round_trip(msg@, Seq::<u8>::empty());
                            assert(enc_resp(ResponseView::Error(msg@)).len() == 123);
                        }
                        Vec::new()
                    }
                };
                proof {
                    assert(datagram@ != enc_req(RequestView::Ping)) by {
                        assert(datagram@[0] == 0u8);
                        assert(enc_req(RequestView::Ping)[0] == 1u8);
                    }
                }
                KeepAliveAction::ReplyError(reply)
            }
        },
        Err(_) => KeepAliveAction::NoReply,
    }
}

} // verus!
