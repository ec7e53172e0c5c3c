//! Messages of Binance's user data stream and of its stream control
//! protocol. Times and amounts are type parameters: the raw messages carry
//! them as received, and a reader of the stream casts them.
use vstd::prelude::*;

use crate::orders::{ExecutionType, OrderStatus, OrderType, Side};

verus! {

/// A balance of one asset after an account update.
#[derive(Debug, Clone)]
pub struct ChangedAsset<FloatType> {
    pub asset: String,
    pub free_amount: FloatType,
    pub locked_amount: FloatType,
}

/// The `outboundAccountPosition` event: balances that changed.
#[derive(Debug, Clone)]
pub struct AccountUpdate<DT, FT> {
    pub event_time: DT,
    pub account_update_time: DT,
    pub updated_balance: Vec<ChangedAsset<FT>>,
}

/// The `balanceUpdate` event: a deposit, withdrawal or transfer.
#[derive(Debug, Clone)]
pub struct BalanceUpdate<DT, FT> {
    pub event_time: DT,
    pub asset: String,
    pub balance_delta: FT,
    pub clear_time: DT,
}

/// The `executionReport` event: an order changed.
#[derive(Debug, Clone)]
pub struct ExecutionReport<FloatType, DateTimeType> {
    pub symbol: String,
    pub order_id: u64,
    pub client_order_id: String,
    pub side: Side,
    pub exec_type: ExecutionType,
    pub order_status: OrderStatus,
    pub reject_reason: String,
    pub executed_qty: FloatType,
    pub acc_qty: FloatType,
    pub price: FloatType,
    pub commission_amount: FloatType,
    pub commission_asset: Option<String>,
    pub trade_time: DateTimeType,
    pub trade_id: i64,
}

/// The fills of the reports that record a trade, in order: the price and
/// the executed quantity of each.
pub open spec fn fills_of<FT, DT>(reports: Seq<ExecutionReport<FT, DT>>) -> Seq<(FT, FT)>
    decreases reports.len(),
{
    if reports.len() == 0 {
        seq![]
    } else {
        let r = reports[0];
        let rest = fills_of(reports.drop_first());
        if r.exec_type == ExecutionType::Trade {
            seq![(r.price, r.executed_qty)] + rest
        } else {
            rest
        }
    }
}

/// The fills of an order's execution reports: the price and executed
/// quantity of each report that records a trade, in order.
pub fn trade_fills<FT, DT>(reports: Vec<ExecutionReport<FT, DT>>) -> (r: Vec<(FT, FT)>)
    ensures
        r@ == fills_of(reports@),
{
    let ghost all = reports@;
    let mut v = reports;
    let mut out: Vec<(FT, FT)> = Vec::new();
    while v.len() > 0
        invariant
            out@ + fills_of(v@) =~= fills_of(all),
        decreases v.len(),
    {
        let ghost before = v@;
        let ghost o = out@;
        let r = v.remove(0);
        proof {
            assert(before.drop_first() =~= v@);
        }
        let ExecutionReport { exec_type, price, executed_qty, .. } = r;
        if exec_type == ExecutionType::Trade {
            out.push((price, executed_qty));
            proof {
                assert(out@ + fills_of(v@) =~= o + fills_of(before));
            }
        }
    }
    out
}

/// A position as the stream reports it.
#[derive(Debug, Clone)]
pub struct Position<FloatType, DateTimeType> {
    pub symbol: String,
    pub order_id: u64,
    pub client_order_id: String,
    pub side: Side,
    pub exec_type: OrderType,
    pub order_status: OrderStatus,
    pub reject_reason: String,
    pub executed_qty: FloatType,
    pub acc_qty: FloatType,
    pub price: FloatType,
    pub commission_amount: FloatType,
    pub commission_asset: Option<String>,
    pub trade_time: DateTimeType,
    pub trade_id: i64,
}

/// The events of the user data stream, told apart by their `e` field.
#[derive(Debug, Clone)]
pub enum UserStreamEvents<DT, FT> {
    OutboundAccountPosition(AccountUpdate<DT, FT>),
    BalanceUpdate(BalanceUpdate<DT, FT>),
    ExecutionReport(ExecutionReport<DT, FT>),
}

/// The answer of the stream server to a control request.
#[derive(Debug, Clone)]
pub struct StreamResult {
    pub id: u64,
    pub result: Option<Vec<String>>,
}

/// The listen key of a user data stream.
#[derive(Debug, Clone)]
pub struct ListenKey {
    pub listen_key: String,
}

/// A listen key with the public API key it was issued for.
#[derive(Debug, Clone)]
pub struct ListenKeyPair {
    pub listen_key: String,
    pub pub_key: String,
}

impl ListenKeyPair {
    pub fn new(listen_key: String, pub_key: String) -> (r: Self)
        ensures
            r.listen_key == listen_key,
            r.pub_key == pub_key,
    {
        ListenKeyPair { listen_key, pub_key }
    }
}

/// The body of a subscription control request on the market streams.
#[derive(Debug, Clone)]
pub struct SubscribeRequestInner {
    pub id: u64,
    pub params: Vec<String>,
}

/// A control request on the market streams: its `method` tells which.
#[derive(Debug, Clone)]
pub enum SubscribeRequest {
    Subscribe(SubscribeRequestInner),
    Unsubscribe(SubscribeRequestInner),
}

/// Whether an execution report records a trade.
pub open spec fn trade_report<FT, DT>() -> spec_fn(ExecutionReport<FT, DT>) -> bool {
    |r: ExecutionReport<FT, DT>| r.exec_type == ExecutionType::Trade
}

/// Each report as its price and last executed quantity.
pub open spec fn price_and_executed<FT, DT>(reports: Seq<ExecutionReport<FT, DT>>) -> Seq<(FT, FT)> {
    reports.map_values(|r: ExecutionReport<FT, DT>| (r.price, r.executed_qty))
}

/// The fills of an order are its TRADE reports and nothing else, in order,
/// each as the report's price and last executed quantity (not the
/// cumulative one).
pub proof fn law_fills_are_trades<FT, DT>(reports: Seq<ExecutionReport<FT, DT>>)
    ensures
        fills_of(reports) == price_and_executed(reports.filter(trade_report())),
    decreases reports.len(),
{
    let pred = trade_report::<FT, DT>();
    if reports.len() == 0 {
        reveal(Seq::filter);
        assert(reports.filter(pred) =~= reports);
        assert(price_and_executed(reports.filter(pred)) =~= Seq::<(FT, FT)>::empty());
    } else {
        let rest = reports.drop_first();
        law_fills_are_trades(rest);
        let head = seq![reports[0]];
        assert(reports =~= head + rest);
        Seq::filter_distributes_over_add(head, rest, pred);
        reveal_with_fuel(Seq::filter, 2);
        assert(head.drop_last() =~= Seq::<ExecutionReport<FT, DT>>::empty());
        assert(head.drop_last().filter(pred) =~= Seq::<ExecutionReport<FT, DT>>::empty());
        assert(head.last() == reports[0]);
        if pred(reports[0]) {
            assert(head.filter(pred) =~= head);
            assert(price_and_executed(head + rest.filter(pred)) =~= seq![(reports[0].price, reports[0].executed_qty)]
                + price_and_executed(rest.filter(pred)));
        } else {
            assert(head.filter(pred) =~= Seq::<ExecutionReport<FT, DT>>::empty());
            assert(Seq::<ExecutionReport<FT, DT>>::empty() + rest.filter(pred) =~= rest.filter(pred));
        }
    }
}

} // verus!
