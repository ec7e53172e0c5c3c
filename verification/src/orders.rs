//! Order vocabulary of Binance's user data stream: sides, order types,
//! execution types and order statuses, and their parsing from text.
use vstd::prelude::*;

verus! {

/// The text that `str::to_uppercase` gives for `s` (Unicode case mapping).
pub uninterp spec fn spec_to_uppercase(s: Seq<char>) -> Seq<char>;

/// The text that `str::to_lowercase` gives for `s` (Unicode case mapping).
pub uninterp spec fn spec_to_lowercase(s: Seq<char>) -> Seq<char>;

/// Calls `str::to_uppercase`. Its result is named `spec_to_uppercase`, a
/// function of the text alone; nothing more is claimed of it.
#[verifier::external_body]
pub(crate) fn to_uppercase(s: &str) -> (r: String)
    ensures
        r@ == spec_to_uppercase(s@),
{
    s.to_uppercase()
}

/// Calls `str::to_lowercase`. Its result is named `spec_to_lowercase`, a
/// function of the text alone; nothing more is claimed of it.
#[verifier::external_body]
pub(crate) fn to_lowercase(s: &str) -> (r: String)
    ensures
        r@ == spec_to_lowercase(s@),
{
    s.to_lowercase()
}

/// A text that could not be read as a value of the expected kind.
#[derive(Debug, Clone)]
pub struct ParseError {
    pub value: String,
}

impl ParseError {
    pub fn new(value: String) -> (r: Self)
        ensures
            r.value@ == value@,
    {
        ParseError { value }
    }
}

/// The side of an order.
#[derive(Debug, Clone, Copy, PartialEq, Eq, Structural)]
pub enum Side {
    Buy,
    Sell,
}

/// The side named by a lowercased text, if any.
pub open spec fn spec_side(lower: Seq<char>) -> Option<Side> {
    if lower == "buy"@ {
        Some(Side::Buy)
    } else if lower == "sell"@ {
        Some(Side::Sell)
    } else {
        None
    }
}

impl Side {
    /// Reads a side, ignoring case: `buy` or `sell`.
    pub fn from_text(s: &str) -> (r: Result<Side, ParseError>)
        ensures
            spec_side(spec_to_lowercase(s@)) matches Some(v) ==> r == Ok::<Side, ParseError>(v),
            spec_side(spec_to_lowercase(s@)) is None ==> (r matches Err(e) && e.value@ == s@),
    {
        let lower = to_lowercase(s);
        if lower == String::from_str("buy") {
            Ok(Side::Buy)
        } else if lower == String::from_str("sell") {
            Ok(Side::Sell)
        } else {
            Err(ParseError::new(String::from_str(s)))
        }
    }
}

impl core::str::FromStr for Side {
    type Err = ParseError;

    fn from_str(s: &str) -> (r: Result<Side, ParseError>)
        ensures
            spec_side(spec_to_lowercase(s@)) matches Some(v) ==> r == Ok::<Side, ParseError>(v),
            spec_side(spec_to_lowercase(s@)) is None ==> (r matches Err(e) && e.value@ == s@),
    {
        Side::from_text(s)
    }
}

/// How an order is executed on the exchange.
#[derive(Debug, Clone, Copy, PartialEq, Eq, Structural)]
pub enum OrderType {
    Limit,
    Market,
    StopLoss,
    StopLossLimit,
    TakeProfit,
    TakeProfitLimit,
    LimitMaker,
}

/// The order type named exactly by a text, if any.
pub open spec fn spec_order_type(s: Seq<char>) -> Option<OrderType> {
    if s == "LIMIT"@ {
        Some(OrderType::Limit)
    } else if s == "MARKET"@ {
        Some(OrderType::Market)
    } else if s == "STOP_LOSS"@ {
        Some(OrderType::StopLoss)
    } else if s == "STOP_LOSS_LIMIT"@ {
        Some(OrderType::StopLossLimit)
    } else if s == "TAKE_PROFIT"@ {
        Some(OrderType::TakeProfit)
    } else if s == "TAKE_PROFIT_LIMIT"@ {
        Some(OrderType::TakeProfitLimit)
    } else if s == "LIMIT_MAKER"@ {
        Some(OrderType::LimitMaker)
    } else {
        None
    }
}

/// The error of reading an order type: it holds the text that was read.
#[derive(Debug, Clone)]
pub struct OrderTypeParseFailed {
    pub value: String,
}

impl OrderTypeParseFailed {
    pub fn new(value: &str) -> (r: Self)
        ensures
            r.value@ == value@,
    {
        OrderTypeParseFailed { value: String::from_str(value) }
    }

    /// The message of the error.
    pub fn message(&self) -> (r: String)
        ensures
            r@ == "Failed to parse order type: "@ + self.value@,
    {
        let s = String::from_str("Failed to parse order type: ");
        s.concat(self.value.as_str())
    }
}

impl OrderType {
    /// Reads an order type from its exact upper-case name.
    pub fn from_text(s: &str) -> (r: Result<OrderType, OrderTypeParseFailed>)
        ensures
            spec_order_type(s@) matches Some(v) ==> r == Ok::<OrderType, OrderTypeParseFailed>(v),
            spec_order_type(s@) is None ==> (r matches Err(e) && e.value@ == s@),
    {
        let t = String::from_str(s);
        if t == String::from_str("LIMIT") {
            Ok(OrderType::Limit)
        } else if t == String::from_str("MARKET") {
            Ok(OrderType::Market)
        } else if t == String::from_str("STOP_LOSS") {
            Ok(OrderType::StopLoss)
        } else if t == String::from_str("STOP_LOSS_LIMIT") {
            Ok(OrderType::StopLossLimit)
        } else if t == String::from_str("TAKE_PROFIT") {
            Ok(OrderType::TakeProfit)
        } else if t == String::from_str("TAKE_PROFIT_LIMIT") {
            Ok(OrderType::TakeProfitLimit)
        } else if t == String::from_str("LIMIT_MAKER") {
            Ok(OrderType::LimitMaker)
        } else {
            Err(OrderTypeParseFailed::new(s))
        }
    }
}

impl core::str::FromStr for OrderType {
    type Err = OrderTypeParseFailed;

    fn from_str(s: &str) -> (r: Result<OrderType, OrderTypeParseFailed>)
        ensures
            spec_order_type(s@) matches Some(v) ==> r == Ok::<OrderType, OrderTypeParseFailed>(v),
            spec_order_type(s@) is None ==> (r matches Err(e) && e.value@ == s@),
    {
        OrderType::from_text(s)
    }
}

/// What happened to an order in an execution report.
#[derive(Debug, Clone, Copy, PartialEq, Eq, Structural)]
pub enum ExecutionType {
    New,
    Canceled,
    Replaced,
    Rejected,
    Trade,
    Expired,
}

/// The execution type named by an uppercased text, if any.
pub open spec fn spec_execution_type(upper: Seq<char>) -> Option<ExecutionType> {
    if upper == "NEW"@ {
        Some(ExecutionType::New)
    } else if upper == "CANCELED"@ {
        Some(ExecutionType::Canceled)
    } else if upper == "REPLACED"@ {
        Some(ExecutionType::Replaced)
    } else if upper == "REJECTED"@ {
        Some(ExecutionType::Rejected)
    } else if upper == "TRADE"@ {
        Some(ExecutionType::Trade)
    } else if upper == "EXPIRED"@ {
        Some(ExecutionType::Expired)
    } else {
        None
    }
}

impl ExecutionType {
    /// Reads an execution type, ignoring case.
    pub fn from_text(s: &str) -> (r: Result<ExecutionType, ParseError>)
        ensures
            spec_execution_type(spec_to_uppercase(s@)) matches Some(v) ==> r
                == Ok::<ExecutionType, ParseError>(v),
            spec_execution_type(spec_to_uppercase(s@)) is None ==> (r matches Err(e) && e.value@
                == s@),
    {
        let u = to_uppercase(s);
        if u == String::from_str("NEW") {
            Ok(ExecutionType::New)
        } else if u == String::from_str("CANCELED") {
            Ok(ExecutionType::Canceled)
        } else if u == String::from_str("REPLACED") {
            Ok(ExecutionType::Replaced)
        } else if u == String::from_str("REJECTED") {
            Ok(ExecutionType::Rejected)
        } else if u == String::from_str("TRADE") {
            Ok(ExecutionType::Trade)
        } else if u == String::from_str("EXPIRED") {
            Ok(ExecutionType::Expired)
        } else {
            Err(ParseError::new(String::from_str(s)))
        }
    }
}

impl core::str::FromStr for ExecutionType {
    type Err = ParseError;

    fn from_str(s: &str) -> (r: Result<ExecutionType, ParseError>)
        ensures
            spec_execution_type(spec_to_uppercase(s@)) matches Some(v) ==> r
                == Ok::<ExecutionType, ParseError>(v),
            spec_execution_type(spec_to_uppercase(s@)) is None ==> (r matches Err(e) && e.value@
                == s@),
    {
        ExecutionType::from_text(s)
    }
}

/// The status of an order, as the user data stream reports it.
#[derive(Debug, Clone, Copy, PartialEq, Eq, Structural)]
pub enum OrderStatus {
    New,
    PartiallyFilled,
    Filled,
    Canceled,
    PendingCancel,
    Rejected,
    Expired,
}

/// The side of a trade, told by whether the buyer was the market maker.
#[derive(Debug, Clone, Copy, PartialEq, Eq, Structural)]
pub enum TradeType {
    /// The buyer was the market maker.
    Sell,
    /// The seller was the market maker.
    Buy,
}

impl From<bool> for TradeType {
    fn from(is_sell: bool) -> (r: TradeType) {
        if is_sell {
            TradeType::Sell
        } else {
            TradeType::Buy
        }
    }
}

impl vstd::std_specs::convert::FromSpecImpl<bool> for TradeType {
    open spec fn obeys_from_spec() -> bool {
        true
    }

    open spec fn from_spec(is_sell: bool) -> TradeType {
        if is_sell {
            TradeType::Sell
        } else {
            TradeType::Buy
        }
    }
}

} // verus!
