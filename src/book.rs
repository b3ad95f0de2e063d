//! The order book: both sides, the best-price cache, order entry and
//! single-order cancellation.
use vstd::prelude::*;
use crate::cache::{PriceLevelCache, stored_price};
use crate::level::ids_of;
use crate::side::{
    SideIndex, LevelView, flat, best_price, inserted, removed, other_order, level_wf, side_wf,
    lemma_no_dup_filter, lemma_flat_inserted, lemma_flat_sides,
};
use crate::types::{Order, OrderId, Price, Quantity, Side, TimeInForce, UserId};

verus! {

broadcast use vstd::seq_lib::group_seq_properties;

/// Self-trade prevention mode; the policy itself lives outside the book.
#[derive(Clone, Copy, Debug, PartialEq, Eq, Structural)]
pub enum STPMode {
    Disabled,
    CancelTaker,
    CancelMaker,
    CancelBoth,
}

/// Why an order was refused or could not be found.
#[derive(Clone, Copy, Debug, PartialEq, Eq, Structural)]
pub enum OrderError {
    /// Zero quantity or zero price.
    InvalidInput,
    /// An order with this id is already resting.
    DuplicateOrderId,
    /// No resting order has this id.
    NotFound,
    /// A post-only order would take liquidity.
    WouldCross,
    /// A fill-or-kill order cannot be filled in full.
    FokUnfillable,
    /// A good-till-date order whose expiry is already past.
    Expired,
    /// The arrival sequence is exhausted.
    Internal,
}

/// Ids stay distinct when an order with a new id is put among them.
pub proof fn lemma_no_dup_insert(f: Seq<Order>, pos: int, o: Order)
    requires
        0 <= pos <= f.len(),
        ids_of(f).no_duplicates(),
        !ids_of(f).contains(o.id),
    ensures
        ids_of(f.insert(pos, o)).no_duplicates(),
{
    let g = f.insert(pos, o);
    assert forall|i: int, j: int| 0 <= i < j < ids_of(g).len() implies
        #[trigger] ids_of(g)[i] != #[trigger] ids_of(g)[j] by {
        let fi = if i < pos { i } else { i - 1 };
        let fj = if j < pos { j } else { j - 1 };
        if i == pos {
            assert(ids_of(f)[fj] == ids_of(g)[j]);
        } else if j == pos {
            assert(ids_of(f)[fi] == ids_of(g)[i]);
        } else {
            assert(ids_of(f)[fi] == ids_of(g)[i]);
            assert(ids_of(f)[fj] == ids_of(g)[j]);
        }
    }
}

/// Ids of two runs stay distinct when each run is filtered.
pub proof fn lemma_no_dup_filter_both(
    x: Seq<Order>,
    y: Seq<Order>,
    p: spec_fn(Order) -> bool,
    q: spec_fn(Order) -> bool,
)
    requires
        ids_of(x + y).no_duplicates(),
    ensures
        ids_of(x.filter(p) + y.filter(q)).no_duplicates(),
{
    assert(ids_of(x) =~= ids_of(x + y).take(x.len() as int));
    assert(ids_of(y) =~= ids_of(x + y).skip(x.len() as int));
    lemma_no_dup_filter(x, p);
    lemma_no_dup_filter(y, q);
    let a = x.filter(p);
    let b = y.filter(q);
    let g = a + b;
    assert forall|i: int, j: int| 0 <= i < j < ids_of(g).len() implies
        #[trigger] ids_of(g)[i] != #[trigger] ids_of(g)[j] by {
        if j < a.len() {
            assert(ids_of(a)[i] == ids_of(g)[i] && ids_of(a)[j] == ids_of(g)[j]);
        } else if i >= a.len() {
            assert(ids_of(b)[i - a.len()] == ids_of(g)[i] && ids_of(b)[j - a.len()] == ids_of(g)[j]);
        } else {
            x.lemma_filter_contains_rev(p, a[i]);
            y.lemma_filter_contains_rev(q, b[j - a.len()]);
            let ki = choose|k: int| 0 <= k < x.len() && x[k] == a[i];
            let kj = choose|k: int| 0 <= k < y.len() && y[k] == b[j - a.len()];
            assert(ids_of(x + y)[ki] == a[i].id);
            assert(ids_of(x + y)[x.len() + kj] == b[j - a.len()].id);
        }
    }
}

/// Keeps every order.
pub open spec fn any_order() -> spec_fn(Order) -> bool {
    |o: Order| true
}

/// Keeping every order keeps the sequence.
pub proof fn lemma_filter_all_any(s: Seq<Order>)
    ensures
        s.filter(any_order()) == s,
{
    crate::side::lemma_filter_all(s, any_order());
}

/// An id is among the ids of two runs when it is among those of either.
pub proof fn lemma_ids_concat(x: Seq<Order>, y: Seq<Order>, id: OrderId)
    ensures
        ids_of(x + y).contains(id) <==> (ids_of(x).contains(id) || ids_of(y).contains(id)),
{
    assert(ids_of(x + y) =~= ids_of(x) + ids_of(y));
    if ids_of(x).contains(id) {
        let k = choose|k: int| 0 <= k < ids_of(x).len() && ids_of(x)[k] == id;
        assert(ids_of(x + y)[k] == id);
    }
    if ids_of(y).contains(id) {
        let k = choose|k: int| 0 <= k < ids_of(y).len() && ids_of(y)[k] == id;
        assert(ids_of(x + y)[x.len() + k] == id);
    }
    if ids_of(x + y).contains(id) {
        let k = choose|k: int| 0 <= k < ids_of(x + y).len() && ids_of(x + y)[k] == id;
        if k < x.len() {
            assert(ids_of(x)[k] == id);
        } else {
            assert(ids_of(y)[k - x.len()] == id);
        }
    }
}

/// The order that entry builds from its arguments.
pub open spec fn entry_order(
    id: OrderId,
    side: Side,
    price: Price,
    quantity: Quantity,
    hidden: Quantity,
    tif: TimeInForce,
    user: Option<UserId>,
    post_only: bool,
    seq: u64,
) -> Order {
    Order {
        id,
        side,
        price,
        remaining_quantity: quantity,
        hidden_quantity: hidden,
        tif,
        user,
        post_only,
        arrival_seq: seq,
    }
}

/// A limit order book for one instrument.
#[derive(Debug)]
pub struct OrderBook {
    pub symbol: String,
    pub bids: SideIndex,
    pub asks: SideIndex,
    pub cache: PriceLevelCache,
    pub stp_mode: STPMode,
    /// Arrival sequence number of the next accepted order.
    pub next_seq: u64,
    /// The current time, as the caller last set it; good-till-date orders
    /// that expire before it are refused.
    pub now: u64,
}

/// Is `tif` a good-till-date whose expiry is before `now`?
pub open spec fn expired(tif: TimeInForce, now: u64) -> bool {
    match tif {
        TimeInForce::Gtd(e) => e < now,
        _ => false,
    }
}

/// Exec form of `expired`.
pub fn is_expired(tif: TimeInForce, now: u64) -> (r: bool)
    ensures
        r == expired(tif, now),
{
    match tif {
        TimeInForce::Gtd(e) => e < now,
        _ => false,
    }
}

impl OrderBook {
    /// Every resting order: bids level by level, then asks.
    pub open spec fn orders(&self) -> Seq<Order> {
        flat(self.bids@) + flat(self.asks@)
    }

    /// The levels of one side.
    pub open spec fn side_view(&self, side: Side) -> Seq<LevelView> {
        match side {
            Side::Buy => self.bids@,
            Side::Sell => self.asks@,
        }
    }

    /// When the cache is valid it holds both current best prices.
    pub open spec fn cache_wf(&self) -> bool {
        self.cache.cache_valid ==> {
            &&& self.cache.best_bid_price == stored_price(best_price(Side::Buy, self.bids@))
            &&& self.cache.best_ask_price == stored_price(best_price(Side::Sell, self.asks@))
        }
    }

    pub open spec fn wf(&self) -> bool {
        &&& self.bids.side == Side::Buy
        &&& self.asks.side == Side::Sell
        &&& self.bids.wf()
        &&& self.asks.wf()
        &&& ids_of(self.orders()).no_duplicates()
        &&& self.cache_wf()
    }

    /// The order `id` rests on `side` at `price`.
    pub open spec fn located(&self, id: OrderId, side: Side, price: Price) -> bool {
        exists|k: int| 0 <= k < flat(self.side_view(side)).len()
            && (#[trigger] flat(self.side_view(side))[k]).id == id
            && flat(self.side_view(side))[k].price == price
    }

    /// Does `o` cross the opposite side as it stands?
    pub open spec fn crosses(&self, side: Side, price: Price) -> bool {
        match side {
            Side::Buy => match best_price(Side::Sell, self.asks@) {
                Some(a) => a <= price,
                None => false,
            },
            Side::Sell => match best_price(Side::Buy, self.bids@) {
                Some(b) => b >= price,
                None => false,
            },
        }
    }

    /// What entry of an order answers: invalid input first, then a taken
    /// id, then an expired good-till-date order, then a cross, then an
    /// exhausted sequence.
    pub open spec fn entry_outcome(
        &self,
        id: OrderId,
        price: Price,
        quantity: Quantity,
        side: Side,
        tif: TimeInForce,
    ) -> Result<(), OrderError> {
        if price == 0 || quantity == 0 {
            Err(OrderError::InvalidInput)
        } else if ids_of(self.orders()).contains(id) {
            Err(OrderError::DuplicateOrderId)
        } else if expired(tif, self.now) {
            Err(OrderError::Expired)
        } else if self.crosses(side, price) {
            Err(OrderError::WouldCross)
        } else if self.next_seq == u64::MAX {
            Err(OrderError::Internal)
        } else {
            Ok(())
        }
    }

    /// The book after `o` rests on its side.
    pub open spec fn rested(&self, o: Order, other: &OrderBook) -> bool {
        match o.side {
            Side::Buy => other.bids@ == inserted(self.bids@, o) && other.asks@ == self.asks@,
            Side::Sell => other.asks@ == inserted(self.asks@, o) && other.bids@ == self.bids@,
        }
    }

    /// An empty book for `symbol`.
    pub fn new(symbol: String) -> (r: OrderBook)
        ensures
            r.wf(),
            r.symbol@ == symbol@,
            r.bids@ == Seq::<LevelView>::empty(),
            r.asks@ == Seq::<LevelView>::empty(),
            r.stp_mode == STPMode::Disabled,
    {
        let r = OrderBook {
            symbol,
            bids: SideIndex::new(Side::Buy),
            asks: SideIndex::new(Side::Sell),
            cache: PriceLevelCache::new(),
            stp_mode: STPMode::Disabled,
            next_seq: 0,
            now: 0,
        };
        assert(r.orders() =~= Seq::<Order>::empty());
        assert(ids_of(r.orders()) =~= Seq::<OrderId>::empty());
        r
    }

    /// Sets the current time against which expiries are checked.
    pub fn set_time(&mut self, now: u64)
        requires
            old(self).wf(),
        ensures
            final(self).wf(),
            final(self).now == now,
            final(self).bids@ == old(self).bids@,
            final(self).asks@ == old(self).asks@,
            final(self).next_seq == old(self).next_seq,
            final(self).stp_mode == old(self).stp_mode,
    {
        self.now = now;
    }

    /// Sets the self-trade prevention mode.
    pub fn set_stp_mode(&mut self, mode: STPMode)
        requires
            old(self).wf(),
        ensures
            final(self).wf(),
            final(self).stp_mode == mode,
            final(self).bids@ == old(self).bids@,
            final(self).asks@ == old(self).asks@,
    {
        self.stp_mode = mode;
    }

    /// Highest bid; read from the cache when it is valid.
    pub fn best_bid(&self) -> (r: Option<Price>)
        requires
            self.wf(),
        ensures
            r == best_price(Side::Buy, self.bids@),
    {
        match self.cache.get_cached_best_bid() {
            Some(p) => {
                proof {
                    if self.bids@.len() > 0 {
                        assert(level_wf(Side::Buy, self.bids@[self.bids@.len() - 1]));
                    }
                }
                Some(p)
            },
            None => {
                proof {
                    if self.cache.cache_valid && self.bids@.len() > 0 {
                        assert(level_wf(Side::Buy, self.bids@[self.bids@.len() - 1]));
                    }
                }
                self.bids.best()
            },
        }
    }

    /// Lowest ask; read from the cache when it is valid.
    pub fn best_ask(&self) -> (r: Option<Price>)
        requires
            self.wf(),
        ensures
            r == best_price(Side::Sell, self.asks@),
    {
        match self.cache.get_cached_best_ask() {
            Some(p) => {
                proof {
                    if self.asks@.len() > 0 {
                        assert(level_wf(Side::Sell, self.asks@[0]));
                    }
                }
                Some(p)
            },
            None => {
                proof {
                    if self.cache.cache_valid && self.asks@.len() > 0 {
                        assert(level_wf(Side::Sell, self.asks@[0]));
                    }
                }
                self.asks.best()
            },
        }
    }

    /// Stores the current best prices in the cache.
    pub fn refresh_cache(&mut self)
        requires
            old(self).bids.side == Side::Buy,
            old(self).asks.side == Side::Sell,
        ensures
            final(self).cache.cache_valid,
            final(self).cache_wf(),
            final(self).bids == old(self).bids,
            final(self).asks == old(self).asks,
            final(self).symbol == old(self).symbol,
            final(self).stp_mode == old(self).stp_mode,
            final(self).next_seq == old(self).next_seq,
    {
        let b = self.bids.best();
        let a = self.asks.best();
        self.cache.update_best_prices(b, a);
    }

    /// Directory lookup: the side and price of the resting order `id`.
    pub fn order_location(&self, id: OrderId) -> (r: Option<(Side, Price)>)
        requires
            self.wf(),
        ensures
            r is None <==> !ids_of(self.orders()).contains(id),
            r matches Some(loc) ==> self.located(id, loc.0, loc.1),
    {
        proof {
            lemma_ids_concat(flat(self.bids@), flat(self.asks@), id);
        }
        match self.bids.locate(id) {
            Some(p) => {
                proof {
                    let k = choose|k: int| 0 <= k < flat(self.bids@).len()
                        && (#[trigger] flat(self.bids@)[k]).id == id && flat(self.bids@)[k].price == p;
                    assert(self.side_view(Side::Buy) == self.bids@);
                    assert(flat(self.side_view(Side::Buy))[k].id == id);
                    assert(flat(self.side_view(Side::Buy))[k].price == p);
                    assert(self.located(id, Side::Buy, p));
                }
                Some((Side::Buy, p))
            },
            None => match self.asks.locate(id) {
                Some(p) => {
                    proof {
                        let k = choose|k: int| 0 <= k < flat(self.asks@).len()
                            && (#[trigger] flat(self.asks@)[k]).id == id && flat(self.asks@)[k].price == p;
                        assert(self.side_view(Side::Sell) == self.asks@);
                        assert(flat(self.side_view(Side::Sell))[k].id == id);
                        assert(flat(self.side_view(Side::Sell))[k].price == p);
                    assert(self.located(id, Side::Sell, p));
                    }
                    Some((Side::Sell, p))
                },
                None => None,
            },
        }
    }

    /// Rests `o`, whose id is new, on its side.
    pub fn rest_order(&mut self, o: Order)
        requires
            old(self).wf(),
            !ids_of(old(self).orders()).contains(o.id),
            o.price > 0,
            o.remaining_quantity > 0,
        ensures
            final(self).wf(),
            old(self).rested(o, final(self)),
            exists|pos: int| 0 <= pos <= old(self).orders().len()
                && final(self).orders() == #[trigger] old(self).orders().insert(pos, o),
            final(self).next_seq == old(self).next_seq,
            final(self).stp_mode == old(self).stp_mode,
    {
        let ghost fb = flat(self.bids@);
        let ghost fa = flat(self.asks@);
        proof {
            lemma_ids_concat(fb, fa, o.id);
        }
        match o.side {
            Side::Buy => {
                proof {
                    lemma_flat_inserted(Side::Buy, self.bids@, o);
                }
                self.bids.insert(o);
                proof {
                    let pos = choose|pos: int| 0 <= pos <= fb.len() && flat(self.bids@) == #[trigger] fb.insert(pos, o);
                    assert(self.orders() =~= (fb + fa).insert(pos, o));
                    lemma_no_dup_insert(fb + fa, pos, o);
                }
            },
            Side::Sell => {
                proof {
                    lemma_flat_inserted(Side::Sell, self.asks@, o);
                }
                self.asks.insert(o);
                proof {
                    let pos = choose|pos: int| 0 <= pos <= fa.len() && flat(self.asks@) == #[trigger] fa.insert(pos, o);
                    assert(self.orders() =~= (fb + fa).insert(fb.len() + pos, o));
                    lemma_no_dup_insert(fb + fa, fb.len() + pos, o);
                }
            },
        }
        self.refresh_cache();
    }

    /// Validates an order and rests it on its side.
    fn submit(
        &mut self,
        id: OrderId,
        price: Price,
        quantity: Quantity,
        hidden: Quantity,
        side: Side,
        tif: TimeInForce,
        user: Option<UserId>,
        post_only: bool,
    ) -> (r: Result<(), OrderError>)
        requires
            old(self).wf(),
        ensures
            final(self).wf(),
            r == old(self).entry_outcome(id, price, quantity, side, tif),
            r is Ok ==> old(self).rested(
                entry_order(id, side, price, quantity, hidden, tif, user, post_only, old(self).next_seq),
                final(self),
            ),
            r is Ok ==> final(self).next_seq == old(self).next_seq + 1,
            r is Err ==> final(self).bids@ == old(self).bids@ && final(self).asks@ == old(self).asks@,
    {
        if price == 0 || quantity == 0 {
            return Err(OrderError::InvalidInput);
        }
        if self.order_location(id).is_some() {
            return Err(OrderError::DuplicateOrderId);
        }
        if is_expired(tif, self.now) {
            return Err(OrderError::Expired);
        }
        let crosses = match side {
            Side::Buy => match self.asks.best() {
                Some(a) => a <= price,
                None => false,
            },
            Side::Sell => match self.bids.best() {
                Some(b) => b >= price,
                None => false,
            },
        };
        if crosses {
            return Err(OrderError::WouldCross);
        }
        if self.next_seq == u64::MAX {
            return Err(OrderError::Internal);
        }
        let o = Order {
            id,
            side,
            price,
            remaining_quantity: quantity,
            hidden_quantity: hidden,
            tif,
            user,
            post_only,
            arrival_seq: self.next_seq,
        };
        self.rest_order(o);
        self.next_seq = self.next_seq + 1;
        self.refresh_cache();
        Ok(())
    }

    /// Enters a post-only order: refused with `WouldCross` if it would take
    /// liquidity, never partly rested.
    pub fn add_post_only_order(
        &mut self,
        id: OrderId,
        price: Price,
        quantity: Quantity,
        side: Side,
        tif: TimeInForce,
        user: Option<UserId>,
    ) -> (r: Result<(), OrderError>)
        requires
            old(self).wf(),
        ensures
            final(self).wf(),
            r == old(self).entry_outcome(id, price, quantity, side, tif),
            r is Ok ==> old(self).rested(
                entry_order(id, side, price, quantity, 0, tif, user, true, old(self).next_seq),
                final(self),
            ),
            r is Err ==> final(self).bids@ == old(self).bids@ && final(self).asks@ == old(self).asks@,
    {
        self.submit(id, price, quantity, 0, side, tif, user, true)
    }

    /// Cancels the resting order `id` and returns it.
    #[verifier::rlimit(40)]
    pub fn cancel_order(&mut self, id: OrderId) -> (r: Result<Order, OrderError>)
        requires
            old(self).wf(),
        ensures
            final(self).wf(),
            r is Err <==> !ids_of(old(self).orders()).contains(id),
            r is Err ==> r == Err::<Order, OrderError>(OrderError::NotFound),
            r is Err ==> final(self).bids@ == old(self).bids@ && final(self).asks@ == old(self).asks@,
            r matches Ok(o) ==> {
                &&& o.id == id
                &&& old(self).orders().contains(o)
                &&& final(self).side_view(o.side) == removed(old(self).side_view(o.side), id, o.price)
                &&& final(self).side_view(o.side.opposite_spec()) == old(self).side_view(o.side.opposite_spec())
            },
    {
        let ghost fb = flat(self.bids@);
        let ghost fa = flat(self.asks@);
        match self.order_location(id) {
            None => Err(OrderError::NotFound),
            Some((side, price)) => {
                let removed_order = match side {
                    Side::Buy => self.bids.remove_order(id, price),
                    Side::Sell => self.asks.remove_order(id, price),
                };
                proof {
                    lemma_filter_all_any(fa);
                    lemma_filter_all_any(fb);
                    match side {
                        Side::Buy => {
                            lemma_no_dup_filter_both(fb, fa, other_order(id, price), any_order());
                            lemma_flat_sides(Side::Buy, old(self).bids@);
                        },
                        Side::Sell => {
                            lemma_no_dup_filter_both(fb, fa, any_order(), other_order(id, price));
                            lemma_flat_sides(Side::Sell, old(self).asks@);
                        },
                    }
                }
                match removed_order {
                    Some(o) => {
                        proof {
                            let k = choose|k: int| 0 <= k < flat(old(self).side_view(side)).len()
                                && flat(old(self).side_view(side))[k] == o;
                            match side {
                                Side::Buy => { assert((fb + fa)[k] == o); },
                                Side::Sell => { assert((fb + fa)[fb.len() + k] == o); },
                            }
                        }
                        self.refresh_cache();
                        Ok(o)
                    },
                    None => {
                        proof {
                            lemma_ids_concat(fb, fa, id);
                        }
                        Err(OrderError::NotFound)
                    },
                }
            },
        }
    }

    /// True when no order rests on either side.
    pub fn is_empty(&self) -> (r: bool)
        ensures
            r == (self.bids@.len() == 0 && self.asks@.len() == 0),
    {
        self.bids.is_empty() && self.asks.is_empty()
    }
}

} // verus!
