//! The per-client streamer's decisions.
//!
//! The streamer thread in the server binary multiplexes three event sources
//! with a priority-biased select — liveness signals first, then quotes, then
//! a ~100 ms timer tick — and asks [`PerClientStreamer::step`] what each
//! event means. The thread performs the returned action (sending a datagram
//! is I/O and stays outside this crate); when the action says to exit, the
//! thread returns the client's address so the supervisor can evict its
//! routes.

use vstd::prelude::*;
use crate::codec::encode_response;
use crate::messages::{ClientAddress, Response, ResponseView, StockQuote};
use crate::wire::{MTU, enc_resp, resp_wf};

verus! {

/// Milliseconds of ping silence after which a client's streamer exits.
pub const CLIENT_TIMEOUT_MILLIS: u64 = 5000;

/// The timeout bookkeeping of one client's streamer.
pub struct PerClientStreamer {
    /// The subscriber this streamer serves.
    pub address: ClientAddress,
    /// Monotonic milliseconds of the most recent liveness signal (or of the
    /// streamer's start).
    pub last_ping_at: u64,
}

/// One event from the streamer's select.
pub enum StreamerEvent {
    /// A liveness signal arrived from the keep-alive listener.
    PingReceived,
    /// The liveness channel closed: its sender side is gone.
    PingClosed,
    /// A quote arrived for this client.
    Quote(StockQuote),
    /// The quote channel closed: its sender side is gone.
    QuoteClosed,
    /// Nothing arrived within the timer interval.
    Tick,
}

/// What the streamer thread does next.
#[derive(PartialEq, Eq, Debug)]
pub enum StreamerAction {
    /// Keep looping.
    Proceed,
    /// Send these bytes as a datagram to the client, then keep looping. A
    /// failed send ends only this streamer; the client is gone.
    SendDatagram(Vec<u8>),
    /// Exit and raise the global cancellation flag: a closed in-process
    /// channel or an unencodable quote means the server side is broken.
    ExitCancelAll,
    /// Exit; only this client is affected.
    ExitClient,
}

/// Milliseconds elapsed from `last` to `now`, clamped at zero.
pub open spec fn elapsed_millis(last: u64, now: u64) -> u64 {
    if now >= last {
        (now - last) as u64
    } else {
        0
    }
}

/// The streamer's decision on a timer tick: exit when cancelled, exit when
/// the client has been silent past the timeout, keep looping otherwise.
pub open spec fn tick_exits(s: PerClientStreamer, now_millis: u64, cancelled: bool) -> bool {
    cancelled || elapsed_millis(s.last_ping_at, now_millis) > CLIENT_TIMEOUT_MILLIS
}

impl PerClientStreamer {
    /// A fresh streamer for `address`: the silence clock starts now.
    pub fn new(address: ClientAddress, now_millis: u64) -> (r: PerClientStreamer)
        ensures
            r.address == address,
            r.last_ping_at == now_millis,
    {
        PerClientStreamer { address, last_ping_at: now_millis }
    }

    /// Decides what one event means, and refreshes the silence clock on a
    /// liveness signal. Liveness events must be polled before quote events
    /// by the caller's select, so that under heavy quote traffic a
    /// still-alive client is not timed out.
    pub fn step(&mut self, event: StreamerEvent, now_millis: u64, cancelled: bool) -> (r:
        StreamerAction)
        ensures
            final(self).address == old(self).address,
            match event {
                StreamerEvent::PingReceived => r == StreamerAction::Proceed && final(self).last_ping_at == now_millis,
                StreamerEvent::PingClosed => r == StreamerAction::ExitCancelAll && *final(self)
                    == *old(self),
                StreamerEvent::Quote(q) => final(self).last_ping_at == old(self).last_ping_at && (
                match r {
                    StreamerAction::SendDatagram(bytes) => bytes@ == enc_resp(
                        ResponseView::Quote(q@),
                    ) && resp_wf(ResponseView::Quote(q@)) && enc_resp(
                        ResponseView::Quote(q@),
                    ).len() <= MTU,
                    StreamerAction::ExitCancelAll => !(resp_wf(ResponseView::Quote(q@))
                        && enc_resp(ResponseView::Quote(q@)).len() <= MTU),
                    _ => false,
                }),
                StreamerEvent::QuoteClosed => r == StreamerAction::ExitCancelAll && *final(self)
                    == *old(self),
                StreamerEvent::Tick => *final(self) == *old(self) && r == (if tick_exits(
                    *old(self),
                    now_millis,
                    cancelled,
                ) {
                    StreamerAction::ExitClient
                } else {
                    StreamerAction::Proceed
                }),
            },
    {
        match event {
            StreamerEvent::PingReceived => {
                self.last_ping_at = now_millis;
                StreamerAction::Proceed
            }
            StreamerEvent::PingClosed => StreamerAction::ExitCancelAll,
            StreamerEvent::Quote(q) => {
                match encode_response(&Response::Quote(q)) {
                    Ok(bytes) => StreamerAction::SendDatagram(bytes),
                    Err(_) => StreamerAction::ExitCancelAll,
                }
            }
            StreamerEvent::QuoteClosed => StreamerAction::ExitCancelAll,
            StreamerEvent::Tick => {
                let elapsed = if now_millis >= self.last_ping_at {
                    now_millis - self.last_ping_at
                } else {
                    0
                };
                if cancelled || elapsed > CLIENT_TIMEOUT_MILLIS {
                    StreamerAction::ExitClient
                } else {
                    StreamerAction::Proceed
                }
            }
        }
    }
}

/// Law: liveness precedence. A streamer that saw a liveness signal within
/// the last half timeout never exits on a timer tick while the server is
/// not shutting down — the timeout fires only after a full
/// `CLIENT_TIMEOUT_MILLIS` of silence, and a ping refreshes the clock
/// (`step` on `PingReceived` sets `last_ping_at` to the ping's time). So a
/// client that pings at least once in every half-timeout window is never
/// timed out, however many quotes are flowing.
pub proof fn lemma_liveness_precedence(s: PerClientStreamer, now_millis: u64)
    requires
        elapsed_millis(s.last_ping_at, now_millis) <= CLIENT_TIMEOUT_MILLIS / 2,
    ensures
        !tick_exits(s, now_millis, false),
{
}

/// The silence clock after a whole run of timestamped events, starting
/// from `last0`: a liveness signal sets it to the signal's time, every
/// other event leaves it alone — exactly as `step` evolves `last_ping_at`.
pub open spec fn last_ping_after(last0: u64, events: Seq<(StreamerEvent, u64)>) -> u64
    decreases events.len(),
{
    if events.len() == 0 {
        last0
    } else {
        if events.last().0 is PingReceived {
            events.last().1
        } else {
            last_ping_after(last0, events.drop_last())
        }
    }
}

/// Law: liveness precedence over whole runs. Take any sequence of
/// timestamped events in which every event happens within half a timeout of
/// the latest liveness signal before it (or of the start) — that is, the
/// client pinged at least once in every half-timeout window. Then no tick
/// anywhere in the run exits on timeout while the server is not shutting
/// down.
pub proof fn lemma_no_timeout_in_run(
    s0: PerClientStreamer,
    events: Seq<(StreamerEvent, u64)>,
    i: int,
)
    requires
        0 <= i < events.len(),
        forall|j: int|
            0 <= j < events.len() ==> elapsed_millis(
                last_ping_after(s0.last_ping_at, events.take(j)),
                (#[trigger] events[j]).1,
            ) <= CLIENT_TIMEOUT_MILLIS / 2,
    ensures
        !tick_exits(
            PerClientStreamer {
                address: s0.address,
                last_ping_at: last_ping_after(s0.last_ping_at, events.take(i)),
            },
            events[i].1,
            false,
        ),
{
    lemma_liveness_precedence(
        PerClientStreamer {
            address: s0.address,
            last_ping_at: last_ping_after(s0.last_ping_at, events.take(i)),
        },
        events[i].1,
    );
}

/// Law: bounded shutdown reaction. Once the cancellation flag is raised,
/// the very next timer tick makes the streamer exit, whatever its silence
/// clock says; the thread is then bounded only by its select interval.
pub proof fn lemma_cancel_stops_streamer(s: PerClientStreamer, now_millis: u64)
    ensures
        tick_exits(s, now_millis, true),
{
}

} // verus!
