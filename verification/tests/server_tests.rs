use quote_streaming::{
    ClientAddress, IpAddress, KeepAliveAction, MonitoringRouter, PerClientStreamer, Request,
    Response, ServerCancellationToken, StockQuote, StreamerAction, StreamerEvent,
    SubscriptionDecision, TickersRouter, decode_response, encode_request, evict_client,
    keep_alive_action, register_client, subscription_decision,
};

#[test]
fn test_cancel() {
    let mut token = ServerCancellationToken::default();
    token.cancel();
    assert!(token.is_cancelled());
}

#[test]
fn cancel_is_idempotent() {
    let mut token = ServerCancellationToken::new();
    assert!(!token.is_cancelled());
    token.cancel();
    token.cancel();
    assert!(token.is_cancelled());
}

#[test]
fn ping_gets_pong_and_liveness_forward() {
    let ping = encode_request(&Request::Ping).unwrap();
    match keep_alive_action(&ping) {
        KeepAliveAction::ReplyPong(reply) => {
            assert_eq!(decode_response(&reply).unwrap(), Response::Pong);
        }
        _ => panic!("a ping must be answered with a pong"),
    }
}

#[test]
fn non_ping_request_on_udp_gets_error() {
    let req = Request::StreamTickers {
        ticker: vec!["AAPL".to_string()],
        address: IpAddress::V4(127, 0, 0, 1),
        port: 5153,
    };
    let bytes = encode_request(&req).unwrap();
    match keep_alive_action(&bytes) {
        KeepAliveAction::ReplyError(reply) => {
            assert_eq!(
                decode_response(&reply).unwrap(),
                Response::Error("Invalid request. Expected PING".to_string())
            );
        }
        _ => panic!("a stream request on the datagram endpoint must be refused"),
    }
}

#[test]
fn malformed_datagram_gets_no_reply() {
    let garbage = vec![42u8, 42, 42];
    assert!(matches!(keep_alive_action(&garbage), KeepAliveAction::NoReply));
}

#[test]
fn invalid_request_on_tcp_is_rejected() {
    let garbage: Vec<u8> = vec![17, 254, 3, 9, 1, 0, 0, 2, 250, 99, 5, 6, 7, 8, 200, 201];
    match subscription_decision(&garbage) {
        SubscriptionDecision::Reject(reply) => {
            assert_eq!(
                decode_response(&reply).unwrap(),
                Response::Error("Invalid request".to_string())
            );
        }
        _ => panic!("garbage must be rejected"),
    }
}

#[test]
fn ping_on_tcp_is_unexpected() {
    let ping = encode_request(&Request::Ping).unwrap();
    match subscription_decision(&ping) {
        SubscriptionDecision::RejectPing(reply) => {
            assert_eq!(
                decode_response(&reply).unwrap(),
                Response::Error("Unexpected request".to_string())
            );
        }
        _ => panic!("a ping on the handshake transport must be refused"),
    }
}

#[test]
fn stream_request_is_accepted_with_its_fields() {
    let req = Request::StreamTickers {
        ticker: vec!["AAPL".to_string(), "GOOG".to_string()],
        address: IpAddress::V4(127, 0, 0, 1),
        port: 5153,
    };
    let bytes = encode_request(&req).unwrap();
    match subscription_decision(&bytes) {
        SubscriptionDecision::Accept { ticker, client } => {
            assert_eq!(ticker, vec!["AAPL".to_string(), "GOOG".to_string()]);
            assert_eq!(client, ClientAddress::new(IpAddress::V4(127, 0, 0, 1), 5153));
        }
        _ => panic!("a well-formed subscription must be accepted"),
    }
}

#[test]
fn register_then_evict_clears_both_routers() {
    let mut tickers = TickersRouter::new();
    let mut monitoring = MonitoringRouter::new();
    let (quote_tx, quote_rx) = crossbeam_channel::unbounded::<StockQuote>();
    let (monitoring_tx, monitoring_rx) = crossbeam_channel::unbounded::<()>();
    let client = ClientAddress::new(IpAddress::V4(127, 0, 0, 1), 5153);

    register_client(
        &mut tickers,
        &mut monitoring,
        &vec!["AAPL".to_string()],
        &quote_tx,
        monitoring_tx,
        client,
    );
    monitoring.send_ping(&client);
    assert!(monitoring_rx.try_recv().is_ok());

    evict_client(&mut tickers, &mut monitoring, client);
    let q = StockQuote { ticker: "AAPL".to_string(), price: 100, volume: 10, timestamp: 1 };
    tickers.send_quote(&q);
    assert!(quote_rx.try_recv().is_err());
    monitoring.send_ping(&client);
    assert!(monitoring_rx.try_recv().is_err());
}

#[test]
fn streamer_refreshes_clock_on_ping() {
    let client = ClientAddress::new(IpAddress::V4(127, 0, 0, 1), 5153);
    let mut s = PerClientStreamer::new(client, 1000);
    assert_eq!(s.step(StreamerEvent::PingReceived, 4000, false), StreamerAction::Proceed);
    assert_eq!(s.last_ping_at, 4000);
    // a tick 5 s after start but within 5 s of the ping does not exit
    assert_eq!(s.step(StreamerEvent::Tick, 6100, false), StreamerAction::Proceed);
}

#[test]
fn streamer_times_out_after_silence() {
    let client = ClientAddress::new(IpAddress::V4(127, 0, 0, 1), 5153);
    let mut s = PerClientStreamer::new(client, 1000);
    assert_eq!(s.step(StreamerEvent::Tick, 6000, false), StreamerAction::Proceed);
    assert_eq!(s.step(StreamerEvent::Tick, 6001, false), StreamerAction::ExitClient);
}

#[test]
fn streamer_exits_on_cancellation() {
    let client = ClientAddress::new(IpAddress::V4(127, 0, 0, 1), 5153);
    let mut s = PerClientStreamer::new(client, 1000);
    assert_eq!(s.step(StreamerEvent::Tick, 1001, true), StreamerAction::ExitClient);
}

#[test]
fn streamer_exits_when_channels_close() {
    let client = ClientAddress::new(IpAddress::V4(127, 0, 0, 1), 5153);
    let mut s = PerClientStreamer::new(client, 0);
    assert_eq!(s.step(StreamerEvent::PingClosed, 1, false), StreamerAction::ExitCancelAll);
    assert_eq!(s.step(StreamerEvent::QuoteClosed, 2, false), StreamerAction::ExitCancelAll);
}

#[test]
fn streamer_encodes_quote_datagram() {
    let client = ClientAddress::new(IpAddress::V4(127, 0, 0, 1), 5153);
    let mut s = PerClientStreamer::new(client, 0);
    let q = StockQuote { ticker: "AAPL".to_string(), price: 4200, volume: 17, timestamp: 99 };
    match s.step(StreamerEvent::Quote(q.clone()), 1, false) {
        StreamerAction::SendDatagram(bytes) => {
            assert_eq!(decode_response(&bytes).unwrap(), Response::Quote(q));
        }
        other => panic!("a quote must become a datagram, got {:?}", other),
    }
}
