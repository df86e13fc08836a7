use quote_streaming::{
    ClientAddress, IpAddress, MonitoringRouter, StockQuote, TickersRouter,
};

fn addr(last_octet: u8, port: u16) -> ClientAddress {
    ClientAddress::new(IpAddress::V4(127, 0, 0, last_octet), port)
}

fn quote(ticker: &str) -> StockQuote {
    StockQuote { ticker: ticker.to_string(), price: 100, volume: 10, timestamp: 1 }
}

#[test]
fn single_subscriber_receives_quote() {
    let mut router = TickersRouter::new();
    let (tx, rx) = crossbeam_channel::unbounded::<StockQuote>();
    let client = addr(1, 5153);
    router.add_routes(&vec!["AAPL".to_string()], &tx, client);
    router.send_quote(&quote("AAPL"));
    let got = rx.try_recv().unwrap();
    assert_eq!(got.ticker(), "AAPL");
    assert!(rx.try_recv().is_err());
}

#[test]
fn two_subscribers_overlapping_tickers() {
    let mut router = TickersRouter::new();
    let (tx_a, rx_a) = crossbeam_channel::unbounded::<StockQuote>();
    let (tx_b, rx_b) = crossbeam_channel::unbounded::<StockQuote>();
    let a = addr(1, 5153);
    let b = addr(2, 5154);
    router.add_routes(&vec!["AAPL".to_string(), "GOOG".to_string()], &tx_a, a);
    router.add_routes(&vec!["GOOG".to_string()], &tx_b, b);

    router.send_quote(&quote("GOOG"));
    assert_eq!(rx_a.try_recv().unwrap().ticker(), "GOOG");
    assert!(rx_a.try_recv().is_err());
    assert_eq!(rx_b.try_recv().unwrap().ticker(), "GOOG");
    assert!(rx_b.try_recv().is_err());

    router.send_quote(&quote("AAPL"));
    assert_eq!(rx_a.try_recv().unwrap().ticker(), "AAPL");
    assert!(rx_a.try_recv().is_err());
    assert!(rx_b.try_recv().is_err());
}

#[test]
fn quote_for_unknown_ticker_goes_nowhere() {
    let mut router = TickersRouter::new();
    let (tx, rx) = crossbeam_channel::unbounded::<StockQuote>();
    router.add_routes(&vec!["AAPL".to_string()], &tx, addr(1, 5153));
    router.send_quote(&quote("MSFT"));
    assert!(rx.try_recv().is_err());
}

#[test]
fn deleted_client_never_enqueued_again() {
    let mut router = TickersRouter::new();
    let (tx, rx) = crossbeam_channel::unbounded::<StockQuote>();
    let client = addr(1, 5153);
    router.add_routes(&vec!["AAPL".to_string()], &tx, client);
    router.delete_clients(&vec![client]);
    router.send_quote(&quote("AAPL"));
    assert!(rx.try_recv().is_err());
}

#[test]
fn dead_receiver_is_evicted_on_send() {
    let mut router = TickersRouter::new();
    let (tx, rx) = crossbeam_channel::unbounded::<StockQuote>();
    router.add_routes(&vec!["AAPL".to_string()], &tx, addr(1, 5153));
    assert_eq!(router.get_tickers_with_subscribers(), vec!["AAPL".to_string()]);
    drop(rx);
    router.send_quote(&quote("AAPL"));
    assert!(router.get_tickers_with_subscribers().is_empty());
}

#[test]
fn duplicate_subscription_replaces_channel() {
    let mut router = TickersRouter::new();
    let (tx1, rx1) = crossbeam_channel::unbounded::<StockQuote>();
    let (tx2, rx2) = crossbeam_channel::unbounded::<StockQuote>();
    let client = addr(1, 5153);
    router.add_routes(&vec!["AAPL".to_string()], &tx1, client);
    router.add_routes(&vec!["AAPL".to_string()], &tx2, client);
    router.send_quote(&quote("AAPL"));
    assert!(rx1.try_recv().is_err());
    assert_eq!(rx2.try_recv().unwrap().ticker(), "AAPL");
}

#[test]
fn tickers_with_subscribers_lists_only_nonempty() {
    let mut router = TickersRouter::new();
    let (tx, _rx) = crossbeam_channel::unbounded::<StockQuote>();
    router.add_routes(&vec!["AAPL".to_string()], &tx, addr(1, 5153));
    let listed = router.get_tickers_with_subscribers();
    assert_eq!(listed, vec!["AAPL".to_string()]);
}

#[test]
fn resubscription_routes_only_new_tickers() {
    // route consistency across add and delete: after a delete and a
    // narrower re-subscription, only the re-subscribed ticker delivers
    let mut router = TickersRouter::new();
    let (tx1, _rx1) = crossbeam_channel::unbounded::<StockQuote>();
    let client = addr(1, 5153);
    router.add_routes(&vec!["AAPL".to_string(), "GOOG".to_string()], &tx1, client);
    router.delete_clients(&vec![client]);
    let (tx2, rx2) = crossbeam_channel::unbounded::<StockQuote>();
    router.add_routes(&vec!["GOOG".to_string()], &tx2, client);
    router.send_quote(&quote("AAPL"));
    assert!(rx2.try_recv().is_err());
    router.send_quote(&quote("GOOG"));
    assert_eq!(rx2.try_recv().unwrap().ticker(), "GOOG");
}

#[test]
fn monitoring_ping_reaches_streamer() {
    let mut router = MonitoringRouter::new();
    let (tx, rx) = crossbeam_channel::unbounded::<()>();
    let client = addr(1, 5153);
    router.add_route(client, tx);
    router.send_ping(&client);
    assert!(rx.try_recv().is_ok());
}

#[test]
fn monitoring_ping_for_unknown_client_is_noop() {
    let mut router = MonitoringRouter::new();
    router.send_ping(&addr(9, 1));
}

#[test]
fn monitoring_delete_stops_pings() {
    let mut router = MonitoringRouter::new();
    let (tx, rx) = crossbeam_channel::unbounded::<()>();
    let client = addr(1, 5153);
    router.add_route(client, tx);
    router.delete(&client);
    router.send_ping(&client);
    assert!(rx.try_recv().is_err());
}

#[test]
fn monitoring_last_subscription_wins() {
    let mut router = MonitoringRouter::new();
    let (tx1, rx1) = crossbeam_channel::unbounded::<()>();
    let (tx2, rx2) = crossbeam_channel::unbounded::<()>();
    let client = addr(1, 5153);
    router.add_route(client, tx1);
    router.add_route(client, tx2);
    router.send_ping(&client);
    assert!(rx1.try_recv().is_err());
    assert!(rx2.try_recv().is_ok());
}

#[test]
fn monitoring_dead_receiver_is_evicted() {
    let mut router = MonitoringRouter::new();
    let (tx, rx) = crossbeam_channel::unbounded::<()>();
    let client = addr(1, 5153);
    router.add_route(client, tx);
    drop(rx);
    router.send_ping(&client);
    router.send_ping(&client);
}
