use exchanges::history::{
    batch_progress, fetch_params, fetch_query, fetch_step, first_trade_param, first_trade_progress,
    is_fetchable, may_attempt, minutes_between, refresh_selection, FetchStep, HistFetcherParam,
    LatestTradeTime, RoundRobin, TradeDates, MAX_FETCH_ATTEMPTS, NUM_OBJECTS_TO_FETCH,
    WINDOW_MILLIS,
};

fn strings(v: &[&str]) -> Vec<String> {
    v.iter().map(|s| s.to_string()).collect()
}

fn trade(symbol: &str, open: i64, close: i64) -> LatestTradeTime<i64> {
    LatestTradeTime { symbol: symbol.to_string(), open_time: open, close_time: close }
}

#[test]
fn minutes_round_toward_zero() {
    assert_eq!(minutes_between(0, 60_000), 1);
    assert_eq!(minutes_between(0, 119_999), 1);
    assert_eq!(minutes_between(0, 59_999), 0);
    assert_eq!(minutes_between(60_000, 0), -1);
    assert_eq!(minutes_between(119_999, 0), -1);
    assert_eq!(minutes_between(i64::MIN, i64::MAX), (u64::MAX / 60_000) as i64);
}

#[test]
fn query_writes_whole_seconds_and_limit() {
    let q = fetch_query(&"BTCUSDT".to_string(), 1_600_000_000_123, Some(1_600_000_600_999));
    assert_eq!(q.symbol, "BTCUSDT");
    assert_eq!(q.interval, "1m");
    assert_eq!(q.start_time, "1600000000000");
    assert_eq!(q.end_time, Some("1600000600000".to_string()));
    assert_eq!(q.limit, "10");
    let open = fetch_query(&"ETHUSDT".to_string(), -1, None);
    assert_eq!(open.start_time, "-1000");
    assert_eq!(open.end_time, None);
    assert_eq!(open.limit, "1");
}

#[test]
fn fetch_steps_follow_the_status() {
    assert_eq!(fetch_step(200, &None, 5), FetchStep::Parse);
    assert_eq!(fetch_step(204, &None, 5), FetchStep::Parse);
    assert_eq!(fetch_step(500, &None, 5), FetchStep::Retry);
    assert_eq!(fetch_step(404, &Some(Some("7".to_string())), 5), FetchStep::Retry);
    assert_eq!(fetch_step(429, &None, 5), FetchStep::Wait(5));
    assert_eq!(fetch_step(418, &Some(Some("12".to_string())), 5), FetchStep::Wait(12));
    assert_eq!(fetch_step(429, &Some(Some("0".to_string())), 5), FetchStep::Wait(5));
    assert_eq!(fetch_step(429, &Some(Some("-3".to_string())), 5), FetchStep::Wait(5));
    assert_eq!(fetch_step(429, &Some(Some("soon".to_string())), 5), FetchStep::Wait(5));
    assert_eq!(fetch_step(429, &Some(None), 5), FetchStep::Wait(5));
    // a non-positive default is used as it is, without its sign
    assert_eq!(fetch_step(429, &None, -4), FetchStep::Wait(4));
}

#[test]
fn attempts_are_bounded() {
    assert_eq!(MAX_FETCH_ATTEMPTS, 20);
    assert!(may_attempt(0));
    assert!(may_attempt(19));
    assert!(!may_attempt(20));
}

#[test]
fn only_short_periods_are_fetched() {
    let p = |start: i64, end: Option<i64>| HistFetcherParam {
        symbol: "A".to_string(),
        num_symbols: 1,
        entire_data_len: 1,
        start_time: start,
        end_time: end,
    };
    assert_eq!(NUM_OBJECTS_TO_FETCH, 1000);
    assert!(is_fetchable(&p(0, None)));
    assert!(is_fetchable(&p(0, Some(1000 * 60_000))));
    assert!(!is_fetchable(&p(0, Some(1001 * 60_000))));
    assert!(is_fetchable(&p(10, Some(0))));
}

#[test]
fn periods_split_into_windows() {
    assert_eq!(WINDOW_MILLIS, 60_000_000);
    let end = 2 * WINDOW_MILLIS + 5 * 60_000;
    let params = fetch_params(&"BTC".to_string(), 3, 0, end);
    assert_eq!(params.len(), 3);
    assert_eq!(params[0].start_time, 0);
    assert_eq!(params[0].end_time, Some(WINDOW_MILLIS));
    assert_eq!(params[1].start_time, WINDOW_MILLIS);
    assert_eq!(params[1].end_time, Some(2 * WINDOW_MILLIS));
    assert_eq!(params[2].start_time, 2 * WINDOW_MILLIS);
    assert_eq!(params[2].end_time, Some(end));
    for p in &params {
        assert_eq!(p.symbol, "BTC");
        assert_eq!(p.num_symbols, 3);
        // 2005 minutes: two full requests and one for the rest
        assert_eq!(p.entire_data_len, 3);
    }
    assert!(fetch_params(&"BTC".to_string(), 1, 10, 10).is_empty());
    let exact = fetch_params(&"BTC".to_string(), 1, 0, WINDOW_MILLIS);
    assert_eq!(exact.len(), 1);
    assert_eq!(exact[0].entire_data_len, 1);
}

#[test]
fn first_trade_requests_and_progress() {
    let p = first_trade_param(&"ETH".to_string());
    assert_eq!(p.symbol, "ETH");
    assert_eq!((p.num_symbols, p.entire_data_len, p.start_time, p.end_time), (1, 1, 0, None));
    let prog = first_trade_progress(7, 3);
    assert_eq!(prog.symbol, "Currency Trade Date Fetch");
    assert_eq!(
        (prog.num_symbols, prog.cur_symbol_num, prog.num_objects, prog.cur_object_num),
        (7, 0, 7, 3)
    );
    let b = batch_progress("XRP".to_string(), 4, 9);
    assert_eq!(b.symbol, "XRP");
    assert_eq!((b.num_symbols, b.cur_symbol_num, b.num_objects, b.cur_object_num), (4, 1, 9, 1));
}

#[test]
fn trade_dates_record_and_select() {
    let mut dates = TradeDates::new();
    assert_eq!(dates.len(), 0);
    dates.insert(&trade("BTC", 10, 20));
    dates.insert(&trade("ETH", 30, 40));
    dates.insert(&trade("BTC", 11, 21));
    assert_eq!(dates.len(), 2);
    assert_eq!(dates.get("BTC"), Some((11, 21)));
    assert_eq!(dates.get("XRP"), None);
    assert_eq!(
        dates.symbols_to_fetch(&strings(&["XRP", "BTC", "ADA", "ETH"])),
        strings(&["XRP", "ADA"])
    );
    dates.merge_first_trades(&vec![trade("XRP", 1, 2), trade("ETH", 3, 4), trade("XRP", 5, 6)]);
    assert_eq!(dates.get("XRP"), Some((5, 6)));
    assert_eq!(dates.get("ETH"), Some((3, 4)));
    assert_eq!(dates.get("BTC"), Some((11, 21)));
    let entries = dates.entries();
    let flat: Vec<(String, i64, i64)> =
        entries.iter().map(|t| (t.symbol.clone(), t.open_time, t.close_time)).collect();
    assert_eq!(
        flat,
        vec![
            ("BTC".to_string(), 11, 21),
            ("ETH".to_string(), 3, 4),
            ("XRP".to_string(), 5, 6)
        ]
    );
}

#[test]
fn refresh_selection_cases() {
    let e = refresh_selection(&Vec::new()).unwrap_err();
    assert_eq!(e.field, "symbol");
    assert_eq!(refresh_selection(&strings(&["all", "BTC"])).unwrap(), None);
    assert_eq!(
        refresh_selection(&strings(&["BTC", "all"])).unwrap(),
        Some(strings(&["BTC", "all"]))
    );
}

#[test]
fn round_robin_cycles() {
    let mut rr = RoundRobin::new(3);
    let got: Vec<usize> = (0..7).map(|_| rr.next()).collect();
    assert_eq!(got, vec![0, 1, 2, 0, 1, 2, 0]);
    let mut one = RoundRobin::new(1);
    assert_eq!(one.next(), 0);
    assert_eq!(one.next(), 0);
}

#[test]
fn fetch_plan_covers_each_known_symbol() {
    let mut dates = TradeDates::new();
    dates.insert(&trade("BTC", 0, 5));
    dates.insert(&trade("ETH", WINDOW_MILLIS, 7));
    let end = WINDOW_MILLIS + 60_000;
    let plan = dates.fetch_plan(2, end);
    let flat: Vec<(String, i64, Option<i64>, i64, i64)> = plan
        .iter()
        .map(|p| (p.symbol.clone(), p.start_time, p.end_time, p.entire_data_len, p.num_symbols))
        .collect();
    assert_eq!(
        flat,
        vec![
            ("BTC".to_string(), 0, Some(WINDOW_MILLIS), 2, 2),
            ("BTC".to_string(), WINDOW_MILLIS, Some(end), 2, 2),
            ("ETH".to_string(), WINDOW_MILLIS, Some(end), 1, 2),
        ]
    );
    let c = plan[0].clone_param();
    assert_eq!((c.symbol, c.start_time, c.end_time), ("BTC".to_string(), 0, Some(WINDOW_MILLIS)));
    assert!(TradeDates::new().fetch_plan(1, end).is_empty());
}
