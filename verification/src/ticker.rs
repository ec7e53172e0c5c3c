//! Messages of the book ticker observer: the subscription requests it sends
//! on a market stream socket, and the payloads it receives.
use vstd::prelude::*;

use crate::text::{copy_strings, string_views};

verus! {

/// The name of the book ticker stream of a symbol.
pub open spec fn ticker_param(symbol: Seq<char>) -> Seq<char> {
    symbol + "@bookTicker"@
}

/// The stream names of a sequence of symbols, in the same order.
pub open spec fn ticker_params(symbols: Seq<Seq<char>>) -> Seq<Seq<char>> {
    symbols.map_values(|s: Seq<char>| ticker_param(s))
}

/// Builds the book ticker stream name of a symbol: `<symbol>@bookTicker`.
pub fn book_ticker_param(symbol: &str) -> (r: String)
    ensures
        r@ == ticker_param(symbol@),
{
    let s = String::from_str(symbol);
    s.concat("@bookTicker")
}

/// Builds the stream names of `symbols`, one for each, in order.
pub fn book_ticker_params(symbols: &Vec<String>) -> (r: Vec<String>)
    ensures
        string_views(r@) == ticker_params(string_views(symbols@)),
{
    let mut out: Vec<String> = Vec::new();
    let mut i: usize = 0;
    while i < symbols.len()
        invariant
            i <= symbols.len(),
            out@.len() == i,
            forall|k: int| 0 <= k < i ==> (#[trigger] out@[k])@ == ticker_param(symbols@[k]@),
        decreases symbols.len() - i,
    {
        let p = book_ticker_param(symbols[i].as_str());
        out.push(p);
        i = i + 1;
    }
    proof {
        assert(string_views(out@) =~= ticker_params(string_views(symbols@)));
    }
    out
}

/// The body of a subscription control request: an identifier echoed back
/// by the server and the stream names it applies to.
#[derive(Debug, Clone)]
pub struct SubscribeRequestInner {
    pub id: String,
    pub params: Vec<String>,
}

/// A subscription control request; its variant gives the `method`.
#[derive(Debug, Clone)]
pub enum SubscribeRequest {
    Subscribe(SubscribeRequestInner),
    Unsubscribe(SubscribeRequestInner),
}

impl SubscribeRequestInner {
    /// A `SUBSCRIBE` request with this body.
    pub fn into_subscribe(&self) -> (r: SubscribeRequest)
        ensures
            r matches SubscribeRequest::Subscribe(inner) && inner.id@ == self.id@ && inner.params@
                == self.params@,
    {
        SubscribeRequest::Subscribe(
            SubscribeRequestInner { id: self.id.clone(), params: copy_strings(&self.params) },
        )
    }

    /// An `UNSUBSCRIBE` request with this body.
    pub fn into_unsubscribe(&self) -> (r: SubscribeRequest)
        ensures
            r matches SubscribeRequest::Unsubscribe(inner) && inner.id@ == self.id@
                && inner.params@ == self.params@,
    {
        SubscribeRequest::Unsubscribe(
            SubscribeRequestInner { id: self.id.clone(), params: copy_strings(&self.params) },
        )
    }
}

/// The best bid and ask of a symbol. Prices and quantities are a type
/// parameter: the socket delivers them as text.
#[derive(Debug, Clone)]
pub struct BookTicker<PT> {
    pub id: u64,
    pub symbol: String,
    pub bid_price: PT,
    pub bid_qty: PT,
    pub ask_price: PT,
    pub ask_qty: PT,
}

/// An error answer of the stream server.
#[derive(Debug, Clone)]
pub struct Error {
    pub code: u64,
    pub msg: String,
    pub id: Option<String>,
}

} // verus!
