//! A small pub/sub quote-streaming service core.
//!
//! A stateful server accepts subscription requests over TCP, then fans out
//! periodically generated stock quotes to subscribed clients over UDP.
//! Clients keep their subscription alive by pinging the UDP endpoint; when a
//! client stops pinging, its subscription is torn down.
//!
//! This crate holds the verified core: the wire codec for `Request`,
//! `Response` and `StockQuote`, the subscription and liveness routing tables,
//! the per-client streamer's decision logic, and the cancellation tokens that
//! drive cooperative shutdown. The unverified binaries own the sockets and
//! threads and call into this crate for every decision.

mod acceptor;
mod cancel;
mod channels;
mod client;
mod codec;
mod display;
mod keepalive;
mod log_level;
mod messages;
mod monitoring_router;
mod quotes;
mod streamer;
mod tickers_router;
mod wire;

pub use acceptor::SubscriptionDecision;
pub use acceptor::evict_client;
pub use acceptor::register_client;
pub use acceptor::subscription_decision;
pub use cancel::CancellationToken;
pub use cancel::ServerCancellationToken;
pub use client::ConnectOutcome;
pub use client::MAX_ATTEMPTS;
pub use client::UdpReadAction;
pub use client::UdpResponseReader;
pub use client::classify_subscribe_response;
pub use codec::WireError;
pub use codec::decode_request;
pub use codec::decode_response;
pub use codec::encode_request;
pub use codec::encode_response;
pub use codec::is_encoded_req;
pub use codec::is_encoded_resp;
pub use display::address_chars;
pub use display::price_chars;
pub use display::quote_chars_plain;
pub use display::quote_chars_with_time;
pub use display::utc_display_of;
pub use keepalive::KeepAliveAction;
pub use keepalive::keep_alive_action;
pub use log_level::LogLevel;
pub use messages::ClientAddress;
pub use messages::Commands;
pub use messages::IpAddress;
pub use messages::KeepAlive;
pub use messages::QuoteView;
pub use messages::Request;
pub use messages::RequestView;
pub use messages::Response;
pub use messages::ResponseView;
pub use messages::StockQuote;
pub use monitoring_router::MonitoringRouter;
pub use quotes::StockQuotesGenerator;
pub use quotes::tickers_of;
pub use quotes::trim_of;
pub use streamer::CLIENT_TIMEOUT_MILLIS;
pub use streamer::PerClientStreamer;
pub use streamer::StreamerAction;
pub use streamer::StreamerEvent;
pub use streamer::elapsed_millis;
pub use streamer::lemma_cancel_stops_streamer;
pub use streamer::last_ping_after;
pub use streamer::lemma_no_timeout_in_run;
pub use streamer::lemma_liveness_precedence;
pub use streamer::tick_exits;
pub use tickers_router::TickersRouter;
pub use tickers_router::evicted_by;
pub use tickers_router::lemma_no_client_no_tickers;
pub use tickers_router::lemma_no_leak;
pub use tickers_router::lemma_route_consistency;
pub use wire::MTU;
pub use wire::enc_quote;
pub use wire::enc_req;
pub use wire::enc_resp;
pub use wire::lemma_quote_codec_round_trip;
pub use wire::lemma_request_codec_round_trip;
pub use wire::lemma_response_codec_round_trip;
pub use wire::p_quote;
pub use wire::p_req;
pub use wire::p_resp;
pub use wire::quote_wf;
pub use wire::req_wf;
pub use wire::resp_wf;
