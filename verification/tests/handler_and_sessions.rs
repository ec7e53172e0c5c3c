use exchanges::events::SymbolEventBuffer;
use exchanges::handler::{BookTickerHandler, Cursor, MAX_NUM_PARAMS};
use exchanges::sessions::{TradeObserver, NUM_SESSION};
use exchanges::stream::SubscribeRequest as StreamRequest;
use exchanges::ticker::SubscribeRequest;

fn strings(v: &[&str]) -> Vec<String> {
    v.iter().map(|s| s.to_string()).collect()
}

fn ticker_parts(r: &SubscribeRequest) -> (bool, String, Vec<String>) {
    match r {
        SubscribeRequest::Subscribe(i) => (true, i.id.clone(), i.params.clone()),
        SubscribeRequest::Unsubscribe(i) => (false, i.id.clone(), i.params.clone()),
    }
}

fn stream_parts(r: &StreamRequest) -> (bool, u64, Vec<String>) {
    match r {
        StreamRequest::Subscribe(i) => (true, i.id, i.params.clone()),
        StreamRequest::Unsubscribe(i) => (false, i.id, i.params.clone()),
    }
}

#[test]
fn handler_opens_sockets_every_five_requests() {
    let mut h = BookTickerHandler::new();
    assert_eq!(h.cursor(), Cursor { socket: 0, param: 0 });
    assert!(h.needs_new_socket(0));
    h.socket_opened(0);
    let mut sockets: usize = 1;
    for k in 0..MAX_NUM_PARAMS {
        assert!(!h.needs_new_socket(sockets));
        let syms = vec![format!("s{}", k)];
        let (sub, id, params) = ticker_parts(&h.subscribe_request(&syms));
        assert!(sub);
        assert_eq!(id, k.to_string());
        assert_eq!(params, vec![format!("s{}@bookTicker", k)]);
        h.record_subscription(&syms);
    }
    assert_eq!(h.cursor(), Cursor { socket: 0, param: 5 });
    assert!(h.needs_new_socket(sockets));
    h.socket_opened(sockets);
    sockets += 1;
    assert_eq!(sockets, 2);
    assert_eq!(h.cursor(), Cursor { socket: 1, param: 0 });
    assert!(!h.needs_new_socket(2));
}

#[test]
fn handler_unsubscribes_by_cursor() {
    let mut h = BookTickerHandler::new();
    h.socket_opened(0);
    h.record_subscription(&strings(&["a", "b"]));
    h.record_subscription(&strings(&["c"]));
    let reqs = h.unsubscribe_requests(&strings(&["c", "a", "x", "b", "a"]));
    assert_eq!(reqs.len(), 2);
    assert_eq!(reqs[0].0, Cursor { socket: 0, param: 1 });
    let (sub, id, params) = ticker_parts(&reqs[0].1);
    assert!(!sub);
    assert_eq!(id, "1");
    assert_eq!(params, strings(&["c@bookTicker"]));
    assert_eq!(reqs[1].0, Cursor { socket: 0, param: 0 });
    let (_, id, params) = ticker_parts(&reqs[1].1);
    assert_eq!(id, "0");
    assert_eq!(params, strings(&["a@bookTicker", "b@bookTicker"]));
    // nothing left to unsubscribe
    assert!(h.unsubscribe_requests(&strings(&["a", "b", "c"])).is_empty());
    // the cursor is untouched by unsubscriptions
    assert_eq!(h.cursor(), Cursor { socket: 0, param: 2 });
}

#[test]
fn handler_resubscription_moves_the_cursor_of_a_symbol() {
    let mut h = BookTickerHandler::new();
    h.socket_opened(0);
    h.record_subscription(&strings(&["a"]));
    h.record_subscription(&strings(&["a"]));
    let reqs = h.unsubscribe_requests(&strings(&["a"]));
    assert_eq!(reqs.len(), 1);
    assert_eq!(reqs[0].0, Cursor { socket: 0, param: 1 });
}

#[test]
fn sessions_fill_up_then_balance() {
    let mut obs = TradeObserver::new();
    assert_eq!(obs.num_sessions(), 0);
    for k in 0..NUM_SESSION {
        assert_eq!(obs.add_symbol(&format!("S{}", k)), k);
    }
    assert_eq!(obs.num_sessions(), NUM_SESSION);
    // all sessions hold one symbol: the first gets the next one
    assert_eq!(obs.add_symbol(&"X".to_string()), 0);
    // now session 1 is the first with the fewest
    assert_eq!(obs.add_symbol(&"Y".to_string()), 1);
    assert_eq!(obs.num_sessions(), NUM_SESSION);
    assert_eq!(obs.get_symbol_index(&"X".to_string()), Some((0, 1)));
    assert_eq!(obs.get_symbol_index(&"Y".to_string()), Some((1, 1)));
    assert_eq!(obs.get_symbol_index(&"S3".to_string()), Some((3, 0)));
    assert_eq!(obs.get_symbol_index(&"Z".to_string()), None);
}

#[test]
fn sessions_accept_only_trading_new_symbols() {
    let mut obs = TradeObserver::new();
    obs.add_symbol(&"BTCUSDT".to_string());
    assert!(!obs.accept_added_symbol(&"BTCUSDT".to_string(), "TRADING"));
    assert!(obs.accept_added_symbol(&"ETHUSDT".to_string(), "TRADING"));
    assert!(!obs.accept_added_symbol(&"ETHUSDT".to_string(), "BREAK"));
    assert!(!obs.accept_added_symbol(&"ETHUSDT".to_string(), "trading"));
}

#[test]
fn sessions_subscribe_groups_lowercased_params() {
    let mut obs = TradeObserver::new();
    let reqs = obs.subscribe(&strings(&["BTCUSDT", "EthUsdt"]));
    assert_eq!(reqs.len(), 2);
    assert_eq!(stream_parts(&reqs[0]), (true, 0, strings(&["btcusdt@bookTicker"])));
    assert_eq!(stream_parts(&reqs[1]), (true, 1, strings(&["ethusdt@bookTicker"])));
    assert_eq!(obs.num_sessions(), 2);
}

#[test]
fn sessions_subscribe_past_the_limit_groups_by_session() {
    let mut obs = TradeObserver::new();
    let first: Vec<String> = (0..NUM_SESSION).map(|k| format!("A{}", k)).collect();
    obs.subscribe(&first);
    let reqs = obs.subscribe(&strings(&["B", "C", "D"]));
    // B joins 0, C joins 1, D joins 2
    assert_eq!(reqs.len(), 3);
    assert_eq!(stream_parts(&reqs[0]), (true, 0, strings(&["b@bookTicker"])));
    assert_eq!(stream_parts(&reqs[1]), (true, 1, strings(&["c@bookTicker"])));
    assert_eq!(stream_parts(&reqs[2]), (true, 2, strings(&["d@bookTicker"])));
}

#[test]
fn sessions_unsubscribe_skips_unknown_symbols() {
    let mut obs = TradeObserver::new();
    obs.subscribe(&strings(&["A", "B"]));
    let reqs = obs.unsubscribe(&strings(&["B", "Q", "A", "B"]));
    assert_eq!(reqs.len(), 2);
    assert_eq!(stream_parts(&reqs[0]), (false, 1, strings(&["b@bookTicker"])));
    assert_eq!(stream_parts(&reqs[1]), (false, 0, strings(&["a@bookTicker"])));
    assert_eq!(obs.get_symbol_index(&"A".to_string()), None);
    assert_eq!(obs.get_symbol_index(&"B".to_string()), None);
    // the sessions stay, emptied
    assert_eq!(obs.num_sessions(), 2);
}

#[test]
fn event_buffer_keeps_each_symbol_once_until_flushed() {
    let mut buf = SymbolEventBuffer::new();
    buf.note_added("BTCUSDT".to_string());
    buf.note_added("ETHUSDT".to_string());
    buf.note_added("BTCUSDT".to_string());
    buf.note_removed("XRPUSDT".to_string());
    buf.note_removed("XRPUSDT".to_string());
    let (add, del) = buf.flush();
    assert_eq!(add, strings(&["BTCUSDT", "ETHUSDT"]));
    assert_eq!(del, strings(&["XRPUSDT"]));
    let (add, del) = buf.flush();
    assert!(add.is_empty());
    assert!(del.is_empty());
    buf.note_added("BTCUSDT".to_string());
    let (add, _) = buf.flush();
    assert_eq!(add, strings(&["BTCUSDT"]));
}
