use exchanges::book::SubscriptionBook;
use exchanges::observer::{chunk_symbols, TradeObserver, CHUNK_SIZE};
use exchanges::ticker::{book_ticker_param, book_ticker_params, SubscribeRequest};

fn strings(v: &[&str]) -> Vec<String> {
    v.iter().map(|s| s.to_string()).collect()
}

fn parts(r: &SubscribeRequest) -> (bool, String, Vec<String>) {
    match r {
        SubscribeRequest::Subscribe(i) => (true, i.id.clone(), i.params.clone()),
        SubscribeRequest::Unsubscribe(i) => (false, i.id.clone(), i.params.clone()),
    }
}

#[test]
fn ticker_param_appends_suffix() {
    assert_eq!(book_ticker_param("btcusdt"), "btcusdt@bookTicker");
    assert_eq!(book_ticker_param(""), "@bookTicker");
    assert_eq!(
        book_ticker_params(&strings(&["a", "b"])),
        strings(&["a@bookTicker", "b@bookTicker"])
    );
}

#[test]
fn book_subscribes_groups_with_increasing_ids() {
    let mut book = SubscriptionBook::new();
    assert_eq!(book.len(), 0);
    assert_eq!(book.len_socket(), 0);
    let first = strings(&["btcusdt", "ethusdt"]);
    let (sub, id, params) = parts(&book.subscribe_request(&first));
    assert!(sub);
    assert_eq!(id, "0");
    assert_eq!(params, strings(&["btcusdt@bookTicker", "ethusdt@bookTicker"]));
    book.record_subscription(&first);
    let second = strings(&["xrpusdt"]);
    let (_, id, _) = parts(&book.subscribe_request(&second));
    assert_eq!(id, "1");
    book.record_subscription(&second);
    assert_eq!(book.len(), 3);
    assert_eq!(book.len_socket(), 2);
    assert!(book.has_symbol("ethusdt"));
    assert!(book.has_symbol("xrpusdt"));
    assert!(!book.has_symbol("dogeusdt"));
}

#[test]
fn book_unsubscribes_under_the_holding_group() {
    let mut book = SubscriptionBook::new();
    book.record_subscription(&strings(&["a", "b"]));
    book.record_subscription(&strings(&["c"]));
    let reqs = book.unsubscribe_requests(&strings(&["c", "zz", "a"]));
    assert_eq!(reqs.len(), 2);
    let (sub, id, params) = parts(&reqs[0]);
    assert!(!sub);
    assert_eq!(id, "1");
    assert_eq!(params, strings(&["c@bookTicker"]));
    let (_, id, params) = parts(&reqs[1]);
    assert_eq!(id, "0");
    assert_eq!(params, strings(&["a@bookTicker"]));
    book.record_unsubscription(&strings(&["c", "zz", "a"]));
    assert_eq!(book.len_socket(), 1);
    assert_eq!(book.len(), 1);
    assert!(book.has_symbol("b"));
    assert!(!book.has_symbol("a"));
    assert!(!book.has_symbol("c"));
    // ids keep counting after removals
    let (_, id, _) = parts(&book.subscribe_request(&strings(&["d"])));
    assert_eq!(id, "2");
}

#[test]
fn chunks_of_ten() {
    let symbols: Vec<String> = (0..23).map(|i| format!("s{}", i)).collect();
    let chunks = chunk_symbols(&symbols);
    assert_eq!(CHUNK_SIZE, 10);
    assert_eq!(chunks.len(), 3);
    assert_eq!(chunks[0], symbols[0..10].to_vec());
    assert_eq!(chunks[1], symbols[10..20].to_vec());
    assert_eq!(chunks[2], symbols[20..23].to_vec());
    assert!(chunk_symbols(&Vec::new()).is_empty());
    assert_eq!(chunk_symbols(&symbols[0..10].to_vec()).len(), 1);
}

#[test]
fn observer_opens_a_socket_then_fills_it() {
    let mut obs = TradeObserver::new();
    assert_eq!(obs.num_sockets(), 0);
    assert_eq!(obs.get_socket(), None);
    let chunk = strings(&["a", "b"]);
    let (target, req) = obs.plan_chunk(&chunk);
    assert_eq!(target, None);
    let (sub, id, params) = parts(&req);
    assert!(sub);
    assert_eq!(id, "0");
    assert_eq!(params, strings(&["a@bookTicker", "b@bookTicker"]));
    obs.commit_chunk(target, &chunk);
    assert_eq!(obs.num_sockets(), 1);
    assert_eq!(obs.get_socket(), Some(0));
    let chunk2 = strings(&["c"]);
    let (target, req) = obs.plan_chunk(&chunk2);
    assert_eq!(target, Some(0));
    assert_eq!(parts(&req).1, "1");
    obs.commit_chunk(target, &chunk2);
    assert!(obs.holds("c"));
    assert!(!obs.holds("d"));
}

#[test]
fn observer_skips_held_and_repeated_symbols() {
    let mut obs = TradeObserver::new();
    let chunk = strings(&["a", "b"]);
    let (target, _) = obs.plan_chunk(&chunk);
    obs.commit_chunk(target, &chunk);
    let fresh = obs.fresh(&strings(&["b", "c", "a", "c", "d"]));
    assert_eq!(fresh, strings(&["c", "d"]));
}

#[test]
fn observer_opens_a_new_socket_after_ten_groups() {
    let mut obs = TradeObserver::new();
    for k in 0..10 {
        let chunk = vec![format!("s{}", k)];
        let (target, _) = obs.plan_chunk(&chunk);
        obs.commit_chunk(target, &chunk);
    }
    assert_eq!(obs.num_sockets(), 1);
    assert_eq!(obs.get_socket(), None);
    let chunk = strings(&["t"]);
    let (target, req) = obs.plan_chunk(&chunk);
    assert_eq!(target, None);
    assert_eq!(parts(&req).1, "0");
    obs.commit_chunk(target, &chunk);
    assert_eq!(obs.num_sockets(), 2);
    assert_eq!(obs.get_socket(), Some(1));
}

#[test]
fn observer_opens_a_new_socket_at_a_hundred_symbols() {
    let mut obs = TradeObserver::new();
    let symbols: Vec<String> = (0..100).map(|i| format!("s{}", i)).collect();
    for chunk in chunk_symbols(&symbols) {
        let (target, _) = obs.plan_chunk(&chunk);
        obs.commit_chunk(target, &chunk);
    }
    assert_eq!(obs.num_sockets(), 1);
    assert_eq!(obs.get_socket(), None);
    let mut obs2 = TradeObserver::new();
    let symbols: Vec<String> = (0..99).map(|i| format!("s{}", i)).collect();
    let (target, _) = obs2.plan_chunk(&symbols);
    obs2.commit_chunk(target, &symbols);
    assert_eq!(obs2.get_socket(), Some(0));
}
