//! The best-price cache: the last computed best bid and best ask, and
//! whether they are still current.
use vstd::prelude::*;
use crate::types::Price;

verus! {

/// Encodes an optional price as stored in the cache: zero stands for none.
pub open spec fn stored_price(p: Option<Price>) -> Price {
    match p {
        Some(v) => v,
        None => 0,
    }
}

/// Decodes a stored price: zero reads as none.
pub open spec fn read_price(v: Price) -> Option<Price> {
    if v > 0 { Some(v) } else { None }
}

/// Best bid and best ask as last refreshed, with a validity flag.
#[derive(Debug)]
pub struct PriceLevelCache {
    pub best_bid_price: Price,
    pub best_ask_price: Price,
    pub cache_valid: bool,
}

impl PriceLevelCache {
    /// An invalid cache holding no prices.
    pub fn new() -> (r: PriceLevelCache)
        ensures
            r.best_bid_price == 0,
            r.best_ask_price == 0,
            !r.cache_valid,
    {
        PriceLevelCache { best_bid_price: 0, best_ask_price: 0, cache_valid: false }
    }

    /// Marks the stored prices as stale.
    pub fn invalidate(&mut self)
        ensures
            !final(self).cache_valid,
            final(self).best_bid_price == old(self).best_bid_price,
            final(self).best_ask_price == old(self).best_ask_price,
    {
        self.cache_valid = false;
    }

    /// The stored best bid, when the cache is valid and holds one.
    pub fn get_cached_best_bid(&self) -> (r: Option<Price>)
        ensures
            r == (if self.cache_valid { read_price(self.best_bid_price) } else { None }),
    {
        if self.cache_valid {
            let price = self.best_bid_price;
            if price > 0 { Some(price) } else { None }
        } else {
            None
        }
    }

    /// The stored best ask, when the cache is valid and holds one.
    pub fn get_cached_best_ask(&self) -> (r: Option<Price>)
        ensures
            r == (if self.cache_valid { read_price(self.best_ask_price) } else { None }),
    {
        if self.cache_valid {
            let price = self.best_ask_price;
            if price > 0 { Some(price) } else { None }
        } else {
            None
        }
    }

    /// Stores both best prices (zero for none) and marks the cache valid.
    pub fn update_best_prices(&mut self, best_bid: Option<Price>, best_ask: Option<Price>)
        ensures
            final(self).best_bid_price == stored_price(best_bid),
            final(self).best_ask_price == stored_price(best_ask),
            final(self).cache_valid,
    {
        match best_bid {
            Some(bid) => { self.best_bid_price = bid; },
            None => { self.best_bid_price = 0; },
        }
        match best_ask {
            Some(ask) => { self.best_ask_price = ask; },
            None => { self.best_ask_price = 0; },
        }
        self.cache_valid = true;
    }
}

impl Default for PriceLevelCache {
    fn default() -> (r: PriceLevelCache)
        ensures
            r.best_bid_price == 0,
            r.best_ask_price == 0,
            !r.cache_valid,
    {
        PriceLevelCache::new()
    }
}

} // verus!
