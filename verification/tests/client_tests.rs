use quote_streaming::{
    CancellationToken, ClientAddress, ConnectOutcome, IpAddress, LogLevel, Response, StockQuote,
    StockQuotesGenerator, UdpReadAction, UdpResponseReader, classify_subscribe_response,
    encode_response,
};

#[test]
fn client_token_cancel_sticks() {
    let mut token = CancellationToken::default();
    assert!(!token.is_cancelled());
    token.cancel();
    token.cancel();
    assert!(token.is_cancelled());
}

#[test]
fn subscribe_okay_means_subscribed() {
    let bytes = encode_response(&Response::Okay).unwrap();
    assert!(matches!(classify_subscribe_response(&bytes), ConnectOutcome::Subscribed));
}

#[test]
fn subscribe_error_carries_message() {
    let bytes = encode_response(&Response::Error("no".to_string())).unwrap();
    match classify_subscribe_response(&bytes) {
        ConnectOutcome::Refused(msg) => assert_eq!(msg, "no"),
        _ => panic!("an error reply must refuse the subscription"),
    }
}

#[test]
fn subscribe_pong_is_unexpected() {
    let bytes = encode_response(&Response::Pong).unwrap();
    assert!(matches!(classify_subscribe_response(&bytes), ConnectOutcome::Unexpected));
}

#[test]
fn subscribe_garbage_is_invalid() {
    let garbage = vec![200u8, 100, 50];
    assert!(matches!(classify_subscribe_response(&garbage), ConnectOutcome::InvalidResponse));
}

#[test]
fn reader_shows_quotes_and_errors() {
    let mut reader = UdpResponseReader::new();
    let q = StockQuote { ticker: "AAPL".to_string(), price: 101, volume: 11, timestamp: 7 };
    let bytes = encode_response(&Response::Quote(q.clone())).unwrap();
    match reader.on_datagram(&bytes) {
        UdpReadAction::ShowQuote(got) => assert_eq!(got, q),
        _ => panic!("a quote datagram must be shown"),
    }
    let bytes = encode_response(&Response::Error("oops".to_string())).unwrap();
    match reader.on_datagram(&bytes) {
        UdpReadAction::ShowError(msg) => assert_eq!(msg, "oops"),
        _ => panic!("an error datagram must be shown"),
    }
    let bytes = encode_response(&Response::Pong).unwrap();
    assert!(matches!(reader.on_datagram(&bytes), UdpReadAction::Silent));
}

#[test]
fn reader_gives_up_after_max_attempts() {
    let mut reader = UdpResponseReader::new();
    let garbage = vec![250u8, 250, 250];
    for _ in 0..10 {
        assert!(matches!(reader.on_datagram(&garbage), UdpReadAction::Retry));
    }
    assert!(matches!(reader.on_datagram(&garbage), UdpReadAction::GiveUp));
}

#[test]
fn reader_resets_attempts_on_good_datagram() {
    let mut reader = UdpResponseReader::new();
    let garbage = vec![250u8, 250, 250];
    for _ in 0..9 {
        assert!(matches!(reader.on_datagram(&garbage), UdpReadAction::Retry));
    }
    let bytes = encode_response(&Response::Pong).unwrap();
    assert!(matches!(reader.on_datagram(&bytes), UdpReadAction::Silent));
    for _ in 0..10 {
        assert!(matches!(reader.on_datagram(&garbage), UdpReadAction::Retry));
    }
    assert!(matches!(reader.on_datagram(&garbage), UdpReadAction::GiveUp));
}

#[test]
fn test_read_from() {
    let tickers = "AAPL\nMSFT\nGOOGL";
    let generator = StockQuotesGenerator::read_from(tickers);
    assert_eq!(generator.tickers, vec!["AAPL", "MSFT", "GOOGL"]);
}

#[test]
fn read_from_trims_and_keeps_inner_empties() {
    let generator = StockQuotesGenerator::read_from("  AAPL \n\n\tMSFT\r\n");
    assert_eq!(generator.tickers, vec!["AAPL", "", "MSFT"]);
}

#[test]
fn test_generate() {
    let generator = StockQuotesGenerator {
        tickers: vec!["AAPL".to_string(), "MSFT".to_string(), "GOOGL".to_string()],
    };
    let quotes = generator.generate();
    assert_eq!(quotes.len(), 3);
}

#[test]
fn test_generate_quote() {
    let quote_1 = StockQuote::generate("AAPL");
    assert_eq!(quote_1.ticker, "AAPL");
    assert!(quote_1.price >= 100);
    assert!(quote_1.volume >= 10);
    assert!(quote_1.timestamp > 0);

    let quote_2 = StockQuote::generate("MSFT");
    assert_ne!(quote_1.ticker, quote_2.ticker);
}

#[test]
fn address_displays_as_ip_and_port() {
    let a = ClientAddress::new(IpAddress::V4(127, 0, 0, 1), 5152);
    assert_eq!(a.display_string(), "127.0.0.1:5152");
    let b = ClientAddress::new(IpAddress::V6(0x20010db800000000, 1), 443);
    assert_eq!(b.display_string(), "2001:0db8:0000:0000:0000:0000:0000:0001:443");
}

#[test]
fn quote_displays_price_volume_and_time() {
    let q = StockQuote { ticker: "AAPL".to_string(), price: 12345, volume: 100, timestamp: 0 };
    assert_eq!(q.display_string(), "AAPL: 123.45 (100) 1970-01-01 00:00:00 UTC");
    let neg = StockQuote { ticker: "X".to_string(), price: -5, volume: 1, timestamp: 0 };
    assert_eq!(neg.display_string(), "X: -0.05 (1) 1970-01-01 00:00:00 UTC");
}

#[test]
fn quote_display_without_time() {
    let q = StockQuote { ticker: "GOOG".to_string(), price: 99999, volume: 2, timestamp: 0 };
    assert_eq!(q.display_with_time(None), "GOOG 999.99 (2)");
}

#[test]
fn log_levels_have_their_names() {
    assert_eq!(LogLevel::Trace.as_str(), "trace");
    assert_eq!(LogLevel::Debug.as_str(), "debug");
    assert_eq!(LogLevel::Info.as_str(), "info");
    assert_eq!(LogLevel::Warn.as_str(), "warn");
    assert_eq!(LogLevel::Error.as_str(), "error");
}
