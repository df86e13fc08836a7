use quote_streaming::{
    IpAddress, Request, Response, StockQuote, WireError, decode_request, decode_response,
    encode_request, encode_response,
};

fn sample_quote() -> StockQuote {
    StockQuote { ticker: "AAPL".to_string(), price: 12345, volume: 100, timestamp: 1700000000 }
}

#[test]
fn request_round_trip_stream_tickers_v4() {
    let req = Request::StreamTickers {
        ticker: vec!["AAPL".to_string(), "GOOG".to_string()],
        address: IpAddress::V4(127, 0, 0, 1),
        port: 5153,
    };
    let bytes = encode_request(&req).unwrap();
    assert_eq!(decode_request(&bytes).unwrap(), req);
}

#[test]
fn request_round_trip_stream_tickers_v6() {
    let req = Request::StreamTickers {
        ticker: vec!["MSFT".to_string()],
        address: IpAddress::V6(0x20010db8_00000000, 0x00000000_00000001),
        port: 65535,
    };
    let bytes = encode_request(&req).unwrap();
    assert_eq!(decode_request(&bytes).unwrap(), req);
}

#[test]
fn request_round_trip_ping() {
    let bytes = encode_request(&Request::Ping).unwrap();
    assert_eq!(bytes, vec![1u8]);
    assert_eq!(decode_request(&bytes).unwrap(), Request::Ping);
}

#[test]
fn request_round_trip_non_ascii_ticker() {
    let req = Request::StreamTickers {
        ticker: vec!["Ticker with spaces and ünïcodé \u{1F4C8}".to_string()],
        address: IpAddress::V4(10, 0, 0, 7),
        port: 1,
    };
    let bytes = encode_request(&req).unwrap();
    assert_eq!(decode_request(&bytes).unwrap(), req);
}

#[test]
fn response_round_trip_all_variants() {
    for resp in [
        Response::Quote(sample_quote()),
        Response::Pong,
        Response::Error("something went wrong".to_string()),
        Response::Okay,
    ] {
        let bytes = encode_response(&resp).unwrap();
        assert_eq!(decode_response(&bytes).unwrap(), resp);
    }
}

#[test]
fn response_quote_exact_bytes() {
    let q = StockQuote { ticker: "A".to_string(), price: 1, volume: 2, timestamp: 3 };
    let bytes = encode_response(&Response::Quote(q)).unwrap();
    let expected = vec![
        0u8, // tag: quote
        1, 0, // ticker length
        65, 0, 0, 0, // 'A'
        1, 0, 0, 0, 0, 0, 0, 0, // price
        2, 0, 0, 0, // volume
        3, 0, 0, 0, 0, 0, 0, 0, // timestamp
    ];
    assert_eq!(bytes, expected);
}

#[test]
fn response_round_trip_negative_price() {
    let q = StockQuote { ticker: "X".to_string(), price: -250, volume: 1, timestamp: -10 };
    let resp = Response::Quote(q);
    let bytes = encode_response(&resp).unwrap();
    assert_eq!(decode_response(&bytes).unwrap(), resp);
}

#[test]
fn port_is_little_endian() {
    let req = Request::StreamTickers {
        ticker: vec![],
        address: IpAddress::V4(1, 2, 3, 4),
        port: 5153,
    };
    let bytes = encode_request(&req).unwrap();
    // ... tag, empty list, tag 4 + four octets, then the port 0x1421
    let n = bytes.len();
    assert_eq!(bytes[n - 2], 0x21);
    assert_eq!(bytes[n - 1], 0x14);
}

#[test]
fn decode_rejects_garbage() {
    let garbage: Vec<u8> = vec![9, 77, 3, 200, 12, 0, 255, 14, 1, 1, 2, 3, 5, 8, 13, 21];
    assert_eq!(decode_request(&garbage), Err(WireError::InvalidFormat));
    assert_eq!(decode_response(&garbage), Err(WireError::InvalidFormat));
}

#[test]
fn decode_rejects_empty() {
    let empty: Vec<u8> = vec![];
    assert_eq!(decode_request(&empty), Err(WireError::InvalidFormat));
    assert_eq!(decode_response(&empty), Err(WireError::InvalidFormat));
}

#[test]
fn decode_rejects_trailing_bytes() {
    let mut bytes = encode_request(&Request::Ping).unwrap();
    bytes.push(0);
    assert_eq!(decode_request(&bytes), Err(WireError::InvalidFormat));
}

#[test]
fn decode_rejects_truncated() {
    let req = Request::StreamTickers {
        ticker: vec!["AAPL".to_string()],
        address: IpAddress::V4(127, 0, 0, 1),
        port: 5153,
    };
    let bytes = encode_request(&req).unwrap();
    let truncated = &bytes[..bytes.len() - 1];
    assert_eq!(decode_request(truncated), Err(WireError::InvalidFormat));
}

#[test]
fn decode_rejects_oversized() {
    let bytes = vec![1u8; 1025];
    assert_eq!(decode_request(&bytes), Err(WireError::InvalidFormat));
}

#[test]
fn encode_rejects_message_over_mtu() {
    let long_ticker = "T".repeat(300);
    let req = Request::StreamTickers {
        ticker: vec![long_ticker],
        address: IpAddress::V4(127, 0, 0, 1),
        port: 5153,
    };
    assert_eq!(encode_request(&req), Err(WireError::InvalidFormat));
    let resp = Response::Error("e".repeat(300));
    assert_eq!(encode_response(&resp), Err(WireError::InvalidFormat));
}

#[test]
fn decode_rejects_invalid_char_scalar() {
    // a string of one character whose scalar value is a surrogate
    let bytes = vec![
        2u8, // tag: error response
        1, 0, // one character
        0x00, 0xD8, 0, 0, // 0xD800, no Unicode scalar
    ];
    assert_eq!(decode_response(&bytes), Err(WireError::InvalidFormat));
}
