//! A price-time-priority limit order book for one instrument, with a
//! best-price cache and bulk cancellation, verified with Verus.
use vstd::prelude::*;

pub mod types;
pub mod cache;
pub mod level;
pub mod side;
pub mod book;
pub mod mass_cancel;
pub mod matching;
pub mod laws;

verus! {

} // verus!
