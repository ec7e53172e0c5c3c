//! Decision logic of a Binance market-data backend: subscription books for
//! book ticker streams, symbol sessions, node balancing and kline fetch
//! planning, each with its contract.
use vstd::prelude::*;

pub mod book;
pub mod events;
pub mod handler;
pub mod history;
pub mod nodes;
pub mod observer;
pub mod orders;
pub mod sessions;
pub mod stream;
pub mod symbols;
pub mod text;
pub mod ticker;

verus! {

} // verus!
