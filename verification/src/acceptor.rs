//! The connection acceptor's decisions: handshake parsing and registration.
//!
//! The server binary reads one request from an accepted TCP stream and asks
//! [`subscription_decision`] what to do. On an accepted subscription it
//! allocates the two delivery channels, registers the client in both routers
//! through [`register_client`], spawns the streamer with the receivers, and
//! writes the encoded `Okay` back. When a streamer later returns its client
//! address, the supervisor clears both tables through [`evict_client`].

use vstd::prelude::*;
use crate::codec::{decode_request, encode_response, is_encoded_req};
use crate::messages::{ClientAddress, Request, RequestView, Response, ResponseView, StockQuote};
use crate::monitoring_router::MonitoringRouter;
use crate::tickers_router::TickersRouter;
use crate::wire::{enc_req, enc_resp};

verus! {

/// What the acceptor does with the bytes read from a fresh TCP connection.
pub enum SubscriptionDecision {
    /// The bytes are no request: write these error bytes and close.
    Reject(Vec<u8>),
    /// A ping does not belong on the handshake transport: write these error
    /// bytes and close.
    RejectPing(Vec<u8>),
    /// A well-formed subscription: register the client and reply `Okay`.
    Accept {
        /// The tickers the client asked for.
        ticker: Vec<String>,
        /// Where the quote datagrams are to go.
        client: ClientAddress,
    },
}

/// Decides the handshake outcome for the bytes read from one connection.
pub fn subscription_decision(bytes: &[u8]) -> (r: SubscriptionDecision)
    ensures
        match r {
            SubscriptionDecision::Reject(reply) => !is_encoded_req(bytes@) && reply@ == enc_resp(
                ResponseView::Error("Invalid request"@),
            ),
            SubscriptionDecision::RejectPing(reply) => bytes@ == enc_req(RequestView::Ping)
                && reply@ == enc_resp(ResponseView::Error("Unexpected request"@)),
            SubscriptionDecision::Accept { ticker, client } => bytes@ == enc_req(
                RequestView::StreamTickers {
                    ticker: ticker.deep_view(),
                    address: client.ip,
                    port: client.port,
                },
            ),
        },
{
    match decode_request(bytes) {
        Ok(req) => match req {
            Request::StreamTickers { ticker, address, port } => {
                let client = ClientAddress::new(address, port);
                SubscriptionDecision::Accept { ticker, client }
            }
            Request::Ping => {
                let msg = "Unexpected request";
                let reply = match encode_response(&Response::Error(msg.to_owned())) {
                    Ok(b) => b,
                    Err(_) => {
                        proof {
                            reveal_strlit("Unexpected request");
                            crate::wire::lemma_str_round_trip(msg@, Seq::<u8>::empty());
                        }
                        Vec::new()
                    }
                };
                SubscriptionDecision::RejectPing(reply)
            }
        },
        Err(_) => {
            let msg = "Invalid request";
            let reply = match encode_response(&Response::Error(msg.to_owned())) {
                Ok(b) => b,
                Err(_) => {
                    proof {
                        reveal_strlit("Invalid request");
                        crate::wire::lemma_str_round_trip(msg@, Seq::<u8>::empty());
                    }
                    Vec::new()
                }
            };
            SubscriptionDecision::Reject(reply)
        }
    }
}

/// Registers a fresh subscription in both routers: the client joins every
/// requested ticker's bucket with the quote channel, and gets the liveness
/// channel in the monitoring table (replacing any prior one). No other
/// client's routes change.
pub fn register_client(
    tickers_router: &mut TickersRouter,
    monitoring_router: &mut MonitoringRouter,
    ticker: &Vec<String>,
    quote_tx: &crossbeam_channel::Sender<StockQuote>,
    monitoring_tx: crossbeam_channel::Sender<()>,
    client: ClientAddress,
)
    requires
        old(tickers_router).wf(),
        old(monitoring_router).wf(),
    ensures
        final(tickers_router).wf(),
        final(monitoring_router).wf(),
        forall|u: Seq<char>|
            final(tickers_router).subscribers(u) == (if ticker.deep_view().contains(u) {
                old(tickers_router).subscribers(u).insert(client)
            } else {
                old(tickers_router).subscribers(u)
            }),
        final(monitoring_router).has_route(client),
        forall|c: ClientAddress|
            c != client ==> final(tickers_router).client_tickers_of(c) == old(
                tickers_router,
            ).client_tickers_of(c) && final(monitoring_router).has_route(c) == old(
                monitoring_router,
            ).has_route(c),
{
    tickers_router.add_routes(ticker, quote_tx, client);
    monitoring_router.add_route(client, monitoring_tx);
}

/// Clears a finished client out of both routers: afterwards it is in no
/// ticker's subscriber set, has no reverse entry, and no liveness route.
/// Every other client's routes are untouched.
pub fn evict_client(
    tickers_router: &mut TickersRouter,
    monitoring_router: &mut MonitoringRouter,
    address: ClientAddress,
)
    requires
        old(tickers_router).wf(),
        old(monitoring_router).wf(),
    ensures
        final(tickers_router).wf(),
        final(monitoring_router).wf(),
        !final(tickers_router).has_client(address),
        forall|u: Seq<char>| !final(tickers_router).subscribers(u).contains(address),
        !final(monitoring_router).has_route(address),
        forall|u: Seq<char>, c: ClientAddress|
            c != address ==> final(tickers_router).subscribers(u).contains(c) == old(
                tickers_router,
            ).subscribers(u).contains(c),
        forall|c: ClientAddress|
            c != address ==> final(tickers_router).has_client(c) == old(
                tickers_router,
            ).has_client(c) && final(tickers_router).client_tickers_of(c) == old(
                tickers_router,
            ).client_tickers_of(c) && final(monitoring_router).has_route(c) == old(
                monitoring_router,
            ).has_route(c),
{
    let mut gone: Vec<ClientAddress> = Vec::new();
    gone.push(address);
    proof {
        assert forall|c: ClientAddress| gone@.contains(c) == (c == address) by {
            if gone@.contains(c) {
                let k = choose|k: int| 0 <= k < gone@.len() && gone@[k] == c;
            }
            assert(gone@[0] == address);
        }
    }
    tickers_router.delete_clients(&gone);
    monitoring_router.delete(&address);
    proof {
        assert forall|c: ClientAddress|
            c != address implies final(tickers_router).client_tickers_of(c) == old(
            tickers_router,
        ).client_tickers_of(c) by {
            if final(tickers_router).has_client(c) {
            } else {
                assert(!old(tickers_router).has_client(c));
                crate::tickers_router::lemma_no_client_no_tickers(*final(tickers_router), c);
                crate::tickers_router::lemma_no_client_no_tickers(*old(tickers_router), c);
            }
        }
    }
}

} // verus!
