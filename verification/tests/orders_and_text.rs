use exchanges::orders::{ExecutionType, OrderType, OrderTypeParseFailed, Side, TradeType};
use exchanges::text::{i64_to_decimal, parse_i64, u64_to_decimal};
use exchanges::ticker::{book_ticker_param, SubscribeRequest, SubscribeRequestInner};

#[test]
fn side_parses_ignoring_case() {
    assert_eq!(Side::from_text("buy").unwrap(), Side::Buy);
    assert_eq!(Side::from_text("SELL").unwrap(), Side::Sell);
    assert_eq!(Side::from_text("Buy").unwrap(), Side::Buy);
    let e = Side::from_text("hold").unwrap_err();
    assert_eq!(e.value, "hold");
    let parsed: Side = "sElL".parse().unwrap();
    assert_eq!(parsed, Side::Sell);
}

#[test]
fn execution_type_parses_ignoring_case() {
    assert_eq!(ExecutionType::from_text("NEW").unwrap(), ExecutionType::New);
    assert_eq!(ExecutionType::from_text("canceled").unwrap(), ExecutionType::Canceled);
    assert_eq!(ExecutionType::from_text("Replaced").unwrap(), ExecutionType::Replaced);
    assert_eq!(ExecutionType::from_text("rejected").unwrap(), ExecutionType::Rejected);
    assert_eq!(ExecutionType::from_text("trade").unwrap(), ExecutionType::Trade);
    assert_eq!(ExecutionType::from_text("expired").unwrap(), ExecutionType::Expired);
    let e = ExecutionType::from_text("CANCELLED").unwrap_err();
    assert_eq!(e.value, "CANCELLED");
}

#[test]
fn order_type_parses_exact_names_only() {
    assert_eq!(OrderType::from_text("LIMIT").unwrap(), OrderType::Limit);
    assert_eq!(OrderType::from_text("MARKET").unwrap(), OrderType::Market);
    assert_eq!(OrderType::from_text("STOP_LOSS").unwrap(), OrderType::StopLoss);
    assert_eq!(OrderType::from_text("STOP_LOSS_LIMIT").unwrap(), OrderType::StopLossLimit);
    assert_eq!(OrderType::from_text("TAKE_PROFIT").unwrap(), OrderType::TakeProfit);
    assert_eq!(OrderType::from_text("TAKE_PROFIT_LIMIT").unwrap(), OrderType::TakeProfitLimit);
    assert_eq!(OrderType::from_text("LIMIT_MAKER").unwrap(), OrderType::LimitMaker);
    let e = OrderType::from_text("limit").unwrap_err();
    assert_eq!(e.value, "limit");
    assert_eq!(e.message(), "Failed to parse order type: limit");
}

#[test]
fn order_type_parse_failure_message() {
    let e = OrderTypeParseFailed::new("OCO");
    assert_eq!(e.value, "OCO");
    assert_eq!(e.message(), "Failed to parse order type: OCO");
}

#[test]
fn decimal_rendering() {
    assert_eq!(u64_to_decimal(0), "0");
    assert_eq!(u64_to_decimal(7), "7");
    assert_eq!(u64_to_decimal(1234567890), "1234567890");
    assert_eq!(u64_to_decimal(u64::MAX), u64::MAX.to_string());
    assert_eq!(i64_to_decimal(-42), "-42");
    assert_eq!(i64_to_decimal(i64::MIN), i64::MIN.to_string());
    assert_eq!(i64_to_decimal(i64::MAX), i64::MAX.to_string());
}

#[test]
fn decimal_parsing_matches_from_str_radix() {
    for text in [
        "0", "42", "+42", "-42", "", "+", "-", "12a", " 1", "9223372036854775807",
        "9223372036854775808", "-9223372036854775808", "-9223372036854775809", "007",
    ] {
        assert_eq!(parse_i64(text), i64::from_str_radix(text, 10).ok(), "text {:?}", text);
    }
}

#[test]
fn request_bodies_keep_id_and_params() {
    let inner = SubscribeRequestInner {
        id: "7".to_string(),
        params: vec![book_ticker_param("btcusdt"), book_ticker_param("ethusdt")],
    };
    match inner.into_subscribe() {
        SubscribeRequest::Subscribe(i) => {
            assert_eq!(i.id, "7");
            assert_eq!(i.params, vec!["btcusdt@bookTicker", "ethusdt@bookTicker"]);
        }
        _ => panic!("expected a subscription"),
    }
    match inner.into_unsubscribe() {
        SubscribeRequest::Unsubscribe(i) => {
            assert_eq!(i.id, "7");
            assert_eq!(i.params, vec!["btcusdt@bookTicker", "ethusdt@bookTicker"]);
        }
        _ => panic!("expected an unsubscription"),
    }
}

#[test]
fn trade_type_from_maker_flag() {
    assert_eq!(TradeType::from(true), TradeType::Sell);
    assert_eq!(TradeType::from(false), TradeType::Buy);
    let t: TradeType = false.into();
    assert_eq!(t, TradeType::Buy);
}

fn report(exec_type: ExecutionType, price: f64, qty: f64) -> exchanges::stream::ExecutionReport<f64, i64> {
    exchanges::stream::ExecutionReport {
        symbol: "BTCUSDT".to_string(),
        order_id: 1,
        client_order_id: "c".to_string(),
        side: Side::Buy,
        exec_type,
        order_status: exchanges::orders::OrderStatus::Filled,
        reject_reason: "NONE".to_string(),
        executed_qty: qty,
        acc_qty: qty,
        price,
        commission_amount: 0.0,
        commission_asset: None,
        trade_time: 0,
        trade_id: 7,
    }
}

#[test]
fn fills_keep_trades_in_order() {
    let reports = vec![
        report(ExecutionType::New, 1.0, 0.0),
        report(ExecutionType::Trade, 2.0, 0.5),
        report(ExecutionType::Canceled, 3.0, 0.0),
        report(ExecutionType::Trade, 4.0, 1.5),
    ];
    let fills = exchanges::stream::trade_fills(reports);
    assert_eq!(fills, vec![(2.0, 0.5), (4.0, 1.5)]);
    assert!(exchanges::stream::trade_fills::<f64, i64>(Vec::new()).is_empty());
}
