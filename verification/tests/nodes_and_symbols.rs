use exchanges::nodes::{
    merge_events, Exchanges, NodeDIffTaker, NodeFilter, NodeIDManager, NodeIndexer,
    ObservationBalancer, RegisterStep, TradeObserverControlEvent,
};
use exchanges::symbols::SymbolUpdateEvent;

fn strings(v: &[&str]) -> Vec<String> {
    v.iter().map(|s| s.to_string()).collect()
}

fn sorted(mut v: Vec<String>) -> Vec<String> {
    v.sort();
    v
}

fn event_key(e: &TradeObserverControlEvent) -> (bool, Exchanges, String) {
    match e {
        TradeObserverControlEvent::SymbolAdd(x, s) => (true, **x, s.clone()),
        TradeObserverControlEvent::SymbolDel(x, s) => (false, **x, s.clone()),
    }
}

fn keys(v: &[TradeObserverControlEvent]) -> Vec<(bool, String)> {
    let mut k: Vec<(bool, String)> = v
        .iter()
        .map(|e| {
            let (add, x, s) = event_key(e);
            assert_eq!(x, Exchanges::Binance);
            (add, s)
        })
        .collect();
    k.sort();
    k
}

#[test]
fn exchange_names_round_trip() {
    assert_eq!(Exchanges::Binance.as_str_name(), "Binance");
    assert_eq!(Exchanges::from_str_name("Binance"), Some(Exchanges::Binance));
    assert_eq!(Exchanges::from_str_name("binance"), None);
    assert_eq!(Exchanges::from_str_name(""), None);
}

#[test]
fn symbol_diff_adds_missing_and_removes_stale() {
    let taker = NodeDIffTaker::new();
    let db = strings(&["BTC", "ETH", "XRP", "ETH"]);
    let nodes = strings(&["ETH", "DOGE", "DOGE"]);
    let diff = taker.get_symbol_diff(Exchanges::Binance, &db, &nodes);
    assert_eq!(
        keys(&diff),
        vec![
            (false, "DOGE".to_string()),
            (true, "BTC".to_string()),
            (true, "XRP".to_string())
        ]
    );
    assert!(taker.get_symbol_diff(Exchanges::Binance, &db, &db).is_empty());
}

#[test]
fn nodes_by_exchange_keep_matching_names() {
    let indexer = NodeIndexer::new();
    assert_eq!(indexer.chname(), "node_index");
    let entries = vec![
        ("n1".to_string(), Some("Binance".to_string())),
        ("n2".to_string(), None),
        ("n3".to_string(), Some("Kraken".to_string())),
        ("n4".to_string(), Some("Binance".to_string())),
    ];
    assert_eq!(
        indexer.get_nodes_by_exchange(&entries, Exchanges::Binance),
        strings(&["n1", "n4"])
    );
}

#[test]
fn handled_symbols_are_each_nodes_list_deduplicated() {
    let filter = NodeFilter::new();
    let lists = vec![
        Some(strings(&["A", "B", "A"])),
        None,
        Some(strings(&["C", "A"])),
    ];
    assert_eq!(
        filter.get_handling_symbol_at_exchange(&lists),
        strings(&["A", "B", "C", "A"])
    );
    assert!(filter.get_handling_symbol_at_exchange(&Vec::new()).is_empty());
}

#[test]
fn overflowed_nodes_hold_more_than_the_average() {
    let filter = NodeFilter::new();
    let items = vec![
        ("n1".to_string(), Some(3)),
        ("n2".to_string(), Some(2)),
        ("n3".to_string(), None),
        ("n4".to_string(), Some(5)),
    ];
    assert_eq!(filter.get_overflowed_nodes(&items, 2), strings(&["n1", "n4"]));
    assert!(filter.get_overflowed_nodes(&items, 5).is_empty());
}

#[test]
fn balancer_average_and_events() {
    let b = ObservationBalancer::new();
    assert_eq!(b.calc_num_average_symbols(10, 3), 3);
    assert_eq!(b.calc_num_average_symbols(2, 4), 0);
    let tails = vec![strings(&["X", "Y"]), strings(&["Y"])];
    let events = b.get_event_to_balancing(Exchanges::Binance, &tails);
    assert_eq!(
        keys(&events),
        vec![
            (false, "X".to_string()),
            (false, "Y".to_string()),
            (true, "X".to_string()),
            (true, "Y".to_string())
        ]
    );
    assert!(b.get_event_to_balancing(Exchanges::Binance, &Vec::new()).is_empty());
}

#[test]
fn merged_events_are_a_union() {
    let a = vec![
        TradeObserverControlEvent::SymbolAdd(Box::new(Exchanges::Binance), "A".to_string()),
        TradeObserverControlEvent::SymbolDel(Box::new(Exchanges::Binance), "B".to_string()),
    ];
    let b = vec![
        TradeObserverControlEvent::SymbolAdd(Box::new(Exchanges::Binance), "A".to_string()),
        TradeObserverControlEvent::SymbolAdd(Box::new(Exchanges::Binance), "B".to_string()),
    ];
    let m = merge_events(&a, &b);
    assert_eq!(
        keys(&m),
        vec![
            (false, "B".to_string()),
            (true, "A".to_string()),
            (true, "B".to_string())
        ]
    );
    let c = a[1].clone_event();
    assert_eq!(event_key(&c), (false, Exchanges::Binance, "B".to_string()));
}

#[test]
fn register_steps() {
    let m = NodeIDManager::new();
    assert_eq!(m.register_step(Some(1)), RegisterStep::Registered);
    assert_eq!(m.register_step(Some(0)), RegisterStep::Regenerate);
    assert_eq!(m.register_step(None), RegisterStep::RetryLater);
    assert_eq!(m.unregist_exchange("Binance"), Some(Exchanges::Binance));
    assert_eq!(m.unregist_exchange("Bitmex"), None);
}

#[test]
fn symbol_update_is_two_set_differences() {
    let ev = SymbolUpdateEvent::new(
        strings(&["BTC", "ETH", "ADA", "ADA"]),
        strings(&["ETH", "XRP", "XRP"]),
    );
    assert_eq!(sorted(ev.to_add.clone()), strings(&["ADA", "BTC"]));
    assert_eq!(ev.to_remove, strings(&["XRP"]));
    let same = SymbolUpdateEvent::new(strings(&["A"]), strings(&["A"]));
    assert!(same.to_add.is_empty());
    assert!(same.to_remove.is_empty());
}
