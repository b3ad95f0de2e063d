//! The match loop: an incoming order takes liquidity from the opposite
//! side in price-time priority, with self-trade prevention and iceberg
//! refill.
use vstd::prelude::*;
use crate::book::{OrderBook, STPMode, lemma_no_dup_filter_both, any_order, lemma_filter_all_any, lemma_ids_concat};
use crate::level::ids_of;
use crate::side::{LevelView, flat, reduced, inserted, best_price, removed, other_order, level_wf, lemma_flat_sides};
use crate::types::{Order, OrderId, Price, Quantity, Side, TimeInForce, UserId};
use crate::book::{OrderError, entry_order, expired, is_expired};

verus! {

broadcast use {vstd::seq_lib::group_seq_properties, vstd::seq_lib::group_filter_ensures};

/// One execution between a resting maker and the incoming taker.
#[derive(Clone, Copy, Debug, PartialEq, Eq, Structural)]
pub struct Fill {
    pub maker_id: OrderId,
    pub taker_id: OrderId,
    pub price: Price,
    pub quantity: Quantity,
}

/// What self-trade prevention decides for a maker and a taker.
#[derive(Clone, Copy, Debug, PartialEq, Eq, Structural)]
pub enum StpAction {
    Allow,
    CancelMaker,
    CancelTaker,
    CancelBoth,
}

/// The decision for a maker and a taker under `mode`: only orders of one
/// and the same user are stopped.
pub open spec fn stp_spec(mode: STPMode, maker: Option<UserId>, taker: Option<UserId>) -> StpAction {
    if maker is None || maker != taker {
        StpAction::Allow
    } else {
        match mode {
            STPMode::Disabled => StpAction::Allow,
            STPMode::CancelTaker => StpAction::CancelTaker,
            STPMode::CancelMaker => StpAction::CancelMaker,
            STPMode::CancelBoth => StpAction::CancelBoth,
        }
    }
}

/// Self-trade prevention for a maker and a taker.
pub fn stp_action(mode: STPMode, maker: Option<UserId>, taker: Option<UserId>) -> (r: StpAction)
    ensures
        r == stp_spec(mode, maker, taker),
{
    let same = match (maker, taker) {
        (Some(m), Some(t)) => m.hi == t.hi && m.lo == t.lo,
        _ => false,
    };
    if !same {
        StpAction::Allow
    } else {
        match mode {
            STPMode::Disabled => StpAction::Allow,
            STPMode::CancelTaker => StpAction::CancelTaker,
            STPMode::CancelMaker => StpAction::CancelMaker,
            STPMode::CancelBoth => StpAction::CancelBoth,
        }
    }
}

/// Total quantity of a list of fills.
pub open spec fn fill_total(s: Seq<Fill>) -> int
    decreases s.len(),
{
    if s.len() == 0 {
        0
    } else {
        fill_total(s.drop_last()) + s.last().quantity
    }
}

/// Does a level at `level_price` cross an incoming order of `side` limited
/// at `limit`?
pub open spec fn crosses_at(side: Side, limit: Price, level_price: Price) -> bool {
    match side {
        Side::Buy => level_price <= limit,
        Side::Sell => level_price >= limit,
    }
}

/// A filter that drops an element is shorter.
pub proof fn lemma_filter_shrinks(s: Seq<Order>, p: spec_fn(Order) -> bool, k: int)
    requires
        0 <= k < s.len(),
        !p(s[k]),
    ensures
        s.filter(p).len() < s.len(),
    decreases s.len(),
{
    let r = s.drop_last();
    assert(s =~= r.push(s.last()));
    r.lemma_filter_push(s.last(), p);
    if k < s.len() - 1 {
        lemma_filter_shrinks(r, p, k);
    }
}

/// Filtering out the one order with `id` leaves no order with that id.
pub proof fn lemma_filter_drops_id(s: Seq<Order>, id: OrderId, price: Price, k: int)
    requires
        ids_of(s).no_duplicates(),
        0 <= k < s.len(),
        s[k].id == id,
        s[k].price == price,
    ensures
        !ids_of(s.filter(other_order(id, price))).contains(id),
{
    let f = s.filter(other_order(id, price));
    if ids_of(f).contains(id) {
        let m = choose|m: int| 0 <= m < ids_of(f).len() && ids_of(f)[m] == id;
        s.lemma_filter_contains_rev(other_order(id, price), f[m]);
        let j = choose|j: int| 0 <= j < s.len() && s[j] == f[m];
        assert(ids_of(s)[j] == ids_of(s)[k]);
    }
}

/// An id among those of a sequence with one order put in is that order's
/// or was there before.
pub proof fn lemma_ids_insert(f: Seq<Order>, pos: int, o: Order, id: OrderId)
    requires
        0 <= pos <= f.len(),
        ids_of(f.insert(pos, o)).contains(id),
    ensures
        id == o.id || ids_of(f).contains(id),
{
    let g = f.insert(pos, o);
    let m = choose|m: int| 0 <= m < ids_of(g).len() && ids_of(g)[m] == id;
    if m < pos {
        assert(ids_of(f)[m] == id);
    } else if m > pos {
        assert(ids_of(f)[m - 1] == id);
    }
}

/// Ids left after filtering two runs were ids of the runs.
pub proof fn lemma_ids_filter_subset(x: Seq<Order>, y: Seq<Order>, p: spec_fn(Order) -> bool, q: spec_fn(Order) -> bool)
    ensures
        forall|z: OrderId| ids_of(x.filter(p) + y.filter(q)).contains(z) ==> ids_of(x + y).contains(z),
{
    assert forall|z: OrderId| ids_of(x.filter(p) + y.filter(q)).contains(z) implies ids_of(x + y).contains(z) by {
        lemma_ids_concat(x.filter(p), y.filter(q), z);
        lemma_ids_concat(x, y, z);
        if ids_of(x.filter(p)).contains(z) {
            let m = choose|m: int| 0 <= m < ids_of(x.filter(p)).len() && ids_of(x.filter(p))[m] == z;
            x.lemma_filter_contains_rev(p, x.filter(p)[m]);
            let j = choose|j: int| 0 <= j < x.len() && x[j] == x.filter(p)[m];
            assert(ids_of(x)[j] == z);
        }
        if ids_of(y.filter(q)).contains(z) {
            let m = choose|m: int| 0 <= m < ids_of(y.filter(q)).len() && ids_of(y.filter(q))[m] == z;
            y.lemma_filter_contains_rev(q, y.filter(q)[m]);
            let j = choose|j: int| 0 <= j < y.len() && y[j] == y.filter(q)[m];
            assert(ids_of(y)[j] == z);
        }
    }
}

/// What taking one order out of the first of two runs does to their ids.
pub proof fn lemma_take_facts(x: Seq<Order>, y: Seq<Order>, nx: Seq<Order>, id: OrderId, price: Price, found: bool)
    requires
        ids_of(x + y).no_duplicates(),
        nx == x.filter(other_order(id, price)),
        found <==> exists|k: int| 0 <= k < x.len() && (#[trigger] x[k]).id == id && x[k].price == price,
    ensures
        ids_of(nx + y).no_duplicates(),
        forall|z: OrderId| ids_of(nx + y).contains(z) ==> ids_of(x + y).contains(z),
        found ==> (nx + y).len() < (x + y).len(),
        found ==> !ids_of(nx + y).contains(id),
        !found ==> nx + y == x + y,
{
    lemma_filter_all_any(y);
    lemma_no_dup_filter_both(x, y, other_order(id, price), any_order());
    lemma_ids_filter_subset(x, y, other_order(id, price), any_order());
    assert(ids_of(x) =~= ids_of(x + y).take(x.len() as int));
    if found {
        let k = choose|k: int| 0 <= k < x.len() && (#[trigger] x[k]).id == id && x[k].price == price;
        lemma_filter_shrinks(x, other_order(id, price), k);
        lemma_filter_drops_id(x, id, price, k);
        lemma_ids_concat(nx, y, id);
        assert(ids_of(x + y)[k] == id);
        if ids_of(y).contains(id) {
            let j = choose|j: int| 0 <= j < ids_of(y).len() && ids_of(y)[j] == id;
            assert(ids_of(x + y)[x.len() + j] == id);
        }
    } else {
        crate::side::lemma_filter_all(x, other_order(id, price));
    }
}

/// What taking one order out of the second of two runs does to their ids.
pub proof fn lemma_take_facts_right(x: Seq<Order>, y: Seq<Order>, ny: Seq<Order>, id: OrderId, price: Price, found: bool)
    requires
        ids_of(x + y).no_duplicates(),
        ny == y.filter(other_order(id, price)),
        found <==> exists|k: int| 0 <= k < y.len() && (#[trigger] y[k]).id == id && y[k].price == price,
    ensures
        ids_of(x + ny).no_duplicates(),
        forall|z: OrderId| ids_of(x + ny).contains(z) ==> ids_of(x + y).contains(z),
        found ==> (x + ny).len() < (x + y).len(),
        found ==> !ids_of(x + ny).contains(id),
        !found ==> x + ny == x + y,
{
    lemma_filter_all_any(x);
    lemma_no_dup_filter_both(x, y, any_order(), other_order(id, price));
    lemma_ids_filter_subset(x, y, any_order(), other_order(id, price));
    assert(ids_of(y) =~= ids_of(x + y).skip(x.len() as int));
    if found {
        let k = choose|k: int| 0 <= k < y.len() && (#[trigger] y[k]).id == id && y[k].price == price;
        lemma_filter_shrinks(y, other_order(id, price), k);
        lemma_filter_drops_id(y, id, price, k);
        lemma_ids_concat(x, ny, id);
        assert(ids_of(x + y)[x.len() + k] == id);
        if ids_of(x).contains(id) {
            let j = choose|j: int| 0 <= j < ids_of(x).len() && ids_of(x)[j] == id;
            assert(ids_of(x + y)[j] == id);
        }
    } else {
        crate::side::lemma_filter_all(y, other_order(id, price));
    }
}

/// Does an order with this time in force rest what it could not fill?
pub open spec fn rests_residual(tif: TimeInForce) -> bool {
    tif is Gtc || tif is Gtd
}

/// Total visible quantity of a run of orders.
pub open spec fn level_quantity(s: Seq<Order>) -> int
    decreases s.len(),
{
    if s.len() == 0 {
        0
    } else {
        level_quantity(s.drop_last()) + s.last().remaining_quantity
    }
}

/// Visible quantity resting on levels that cross an incoming order of
/// `side` limited at `limit`.
pub open spec fn crossing_quantity(levels: Seq<LevelView>, side: Side, limit: Price) -> int
    decreases levels.len(),
{
    if levels.len() == 0 {
        0
    } else {
        crossing_quantity(levels.drop_last(), side, limit) + if crosses_at(side, limit, levels.last().0) {
            level_quantity(levels.last().1)
        } else {
            0
        }
    }
}

/// `a` capped at `cap`.
pub open spec fn capped(a: int, cap: int) -> int {
    if a < cap { a } else { cap }
}

/// Quantities are never negative.
pub proof fn lemma_level_quantity_nonneg(s: Seq<Order>)
    ensures
        level_quantity(s) >= 0,
    decreases s.len(),
{
    if s.len() > 0 {
        lemma_level_quantity_nonneg(s.drop_last());
    }
}

/// Crossing quantities are never negative.
pub proof fn lemma_crossing_quantity_nonneg(levels: Seq<LevelView>, side: Side, limit: Price)
    ensures
        crossing_quantity(levels, side, limit) >= 0,
    decreases levels.len(),
{
    if levels.len() > 0 {
        lemma_crossing_quantity_nonneg(levels.drop_last(), side, limit);
        lemma_level_quantity_nonneg(levels.last().1);
    }
}

/// Every id among the orders `a` is an id among the orders `b`.
pub open spec fn ids_within(a: Seq<Order>, b: Seq<Order>) -> bool {
    forall|x: OrderId| ids_of(a).contains(x) ==> ids_of(b).contains(x)
}

/// Some order among `s` belongs to `user` and crosses an incoming order of
/// `side` limited at `limit`.
pub open spec fn crossing_order_of(s: Seq<Order>, user: Option<UserId>, side: Side, limit: Price) -> bool {
    exists|k: int| 0 <= k < s.len() && (#[trigger] s[k]).user == user && crosses_at(side, limit, s[k].price)
}

/// Ids left after a filter were ids before.
pub proof fn lemma_ids_filter_within(x: Seq<Order>, p: spec_fn(Order) -> bool)
    ensures
        ids_within(x.filter(p), x),
{
    assert forall|z: OrderId| ids_of(x.filter(p)).contains(z) implies ids_of(x).contains(z) by {
        let m = choose|m: int| 0 <= m < ids_of(x.filter(p)).len() && ids_of(x.filter(p))[m] == z;
        x.lemma_filter_contains_rev(p, x.filter(p)[m]);
        let j = choose|j: int| 0 <= j < x.len() && x[j] == x.filter(p)[m];
        assert(ids_of(x)[j] == z);
    }
}

/// The result of matching an incoming order.
#[derive(Debug)]
pub struct MatchOutcome {
    pub fills: Vec<Fill>,
    /// Quantity of the incoming order left unfilled.
    pub remaining: Quantity,
    /// Self-trade prevention cancelled the rest of the incoming order.
    pub taker_cancelled: bool,
    /// The unfilled rest now rests in the book.
    pub rested: bool,
}

impl OrderBook {
    /// The order at the head of the best level of `side`.
    pub fn head_of(&self, side: Side) -> (r: Option<(usize, Order)>)
        requires
            self.wf(),
        ensures
            r is None <==> self.side_view(side).len() == 0,
            r matches Some(h) ==> {
                &&& h.0 < self.side_view(side).len()
                &&& best_price(side, self.side_view(side)) == Some(self.side_view(side)[h.0 as int].0)
                &&& self.side_view(side)[h.0 as int].1[0] == h.1
                &&& h.1.price == self.side_view(side)[h.0 as int].0
                &&& h.1.remaining_quantity > 0
                &&& exists|k: int| 0 <= k < flat(self.side_view(side)).len()
                    && (#[trigger] flat(self.side_view(side))[k]).id == h.1.id
                    && flat(self.side_view(side))[k].price == h.1.price
                &&& flat(self.side_view(side)).contains(h.1)
                &&& h.1.side == side
            },
    {
        let r = match side {
            Side::Buy => self.bids.best_head(),
            Side::Sell => self.asks.best_head(),
        };
        proof {
            if r is Some {
                let h = r->Some_0;
                let v = self.side_view(side);
                assert(level_wf(side, v[h.0 as int]));
                crate::side::lemma_flat_split(v, h.0 as int);
                let a = flat(v.take(h.0 as int));
                assert(flat(v)[a.len() as int] == h.1);
            }
        }
        r
    }

    /// Takes `fill` off the head order of level `idx` on `side`.
    pub fn reduce_head_of(&mut self, side: Side, idx: usize, fill: Quantity)
        requires
            old(self).wf(),
            idx < old(self).side_view(side).len(),
            0 < fill < old(self).side_view(side)[idx as int].1[0].remaining_quantity,
        ensures
            final(self).wf(),
            ids_of(final(self).orders()) == ids_of(old(self).orders()),
            final(self).orders().len() == old(self).orders().len(),
            final(self).side_view(side.opposite_spec()) == old(self).side_view(side.opposite_spec()),
            final(self).side_view(side) == old(self).side_view(side).update(
                idx as int,
                (
                    old(self).side_view(side)[idx as int].0,
                    old(self).side_view(side)[idx as int].1.update(
                        0,
                        reduced(old(self).side_view(side)[idx as int].1[0], fill),
                    ),
                ),
            ),
            ids_of(flat(final(self).side_view(side))) == ids_of(flat(old(self).side_view(side))),
            final(self).next_seq == old(self).next_seq,
            final(self).stp_mode == old(self).stp_mode,
    {
        let ghost fb = flat(self.bids@);
        let ghost fa = flat(self.asks@);
        match side {
            Side::Buy => self.bids.reduce_head(idx, fill),
            Side::Sell => self.asks.reduce_head(idx, fill),
        }
        proof {
            let nb = flat(self.bids@);
            let na = flat(self.asks@);
            assert(ids_of(nb + na) =~= ids_of(nb) + ids_of(na));
            assert(ids_of(fb + fa) =~= ids_of(fb) + ids_of(fa));
            assert(ids_of(nb).len() == nb.len());
            assert(ids_of(fb).len() == fb.len());
        }
        self.refresh_cache();
    }

    /// Matches `taker` against the opposite side while it crosses, in
    /// price-time priority. Returns the fills, the unfilled quantity, and
    /// whether self-trade prevention cancelled the rest. An iceberg maker
    /// that is used up is refilled from its reserve at the back of its
    /// level; once the arrival sequence is exhausted its reserve is dropped.
    pub fn match_incoming(&mut self, taker: Order) -> (r: (Vec<Fill>, Quantity, bool))
        requires
            old(self).wf(),
            !ids_of(old(self).orders()).contains(taker.id),
        ensures
            final(self).wf(),
            fill_total(r.0@) + r.1 == taker.remaining_quantity,
            forall|i: int| 0 <= i < r.0@.len() ==> {
                &&& (#[trigger] r.0@[i]).taker_id == taker.id
                &&& r.0@[i].quantity > 0
                &&& crosses_at(taker.side, taker.price, r.0@[i].price)
            },
            final(self).side_view(taker.side) == old(self).side_view(taker.side),
            !ids_of(final(self).orders()).contains(taker.id),
            final(self).next_seq >= old(self).next_seq,
            final(self).stp_mode == old(self).stp_mode,
            (r.1 > 0 && !r.2) ==> !final(self).crosses(taker.side, taker.price),
            r.2 ==> taker.user is Some && (old(self).stp_mode == STPMode::CancelBoth
                || (old(self).stp_mode == STPMode::CancelTaker && crossing_order_of(
                    flat(final(self).side_view(taker.side.opposite_spec())), taker.user, taker.side, taker.price))),
            !old(self).crosses(taker.side, taker.price) ==> {
                &&& r.0@.len() == 0
                &&& r.1 == taker.remaining_quantity
                &&& !r.2
                &&& final(self).bids@ == old(self).bids@
                &&& final(self).asks@ == old(self).asks@
            },
            forall|i: int| 0 <= i < r.0@.len() ==>
                ids_of(flat(old(self).side_view(taker.side.opposite_spec()))).contains(#[trigger] r.0@[i].maker_id),
            ids_within(flat(final(self).side_view(taker.side.opposite_spec())),
                flat(old(self).side_view(taker.side.opposite_spec()))),
    {
        let opp = taker.side.opposite();
        let mut fills: Vec<Fill> = Vec::new();
        let mut remaining: Quantity = taker.remaining_quantity;
        let mut cancelled = false;
        let mut done = false;
        while !done
            invariant
                self.wf(),
                opp == taker.side.opposite_spec(),
                fill_total(fills@) + remaining == taker.remaining_quantity,
                forall|i: int| 0 <= i < fills@.len() ==> {
                    &&& (#[trigger] fills@[i]).taker_id == taker.id
                    &&& fills@[i].quantity > 0
                    &&& crosses_at(taker.side, taker.price, fills@[i].price)
                },
                self.side_view(taker.side) == old(self).side_view(taker.side),
                !ids_of(self.orders()).contains(taker.id),
                self.next_seq >= old(self).next_seq,
                self.stp_mode == old(self).stp_mode,
                done ==> (remaining == 0 || cancelled || !self.crosses(taker.side, taker.price)),
                !done ==> !cancelled,
                cancelled ==> taker.user is Some && (old(self).stp_mode == STPMode::CancelBoth
                    || (old(self).stp_mode == STPMode::CancelTaker && crossing_order_of(
                        flat(self.side_view(opp)), taker.user, taker.side, taker.price))),
                !old(self).crosses(taker.side, taker.price) ==> {
                    &&& fills@.len() == 0
                    &&& remaining == taker.remaining_quantity
                    &&& !cancelled
                    &&& self.bids@ == old(self).bids@
                    &&& self.asks@ == old(self).asks@
                },
                forall|i: int| 0 <= i < fills@.len() ==>
                    ids_of(flat(old(self).side_view(opp))).contains(#[trigger] fills@[i].maker_id),
                ids_within(flat(self.side_view(opp)), flat(old(self).side_view(opp))),
            decreases (if done { 0int } else { 1int }), remaining, self.orders().len(),
        {
            if remaining == 0 {
                done = true;
            } else {
                match self.head_of(opp) {
                    None => {
                        done = true;
                    },
                    Some((idx, maker)) => {
                        proof {
                            let f = flat(self.side_view(opp));
                            let fb = flat(self.bids@);
                            let fa = flat(self.asks@);
                            let k = choose|k: int| 0 <= k < f.len() && (#[trigger] f[k]).id == maker.id
                                && f[k].price == maker.price;
                            match opp {
                                Side::Buy => { assert(ids_of(fb + fa)[k] == maker.id); },
                                Side::Sell => { assert(ids_of(fb + fa)[fb.len() + k] == maker.id); },
                            }
                            assert(maker.id != taker.id);
                            assert(ids_of(f)[k] == maker.id);
                            assert(ids_of(flat(old(self).side_view(opp))).contains(maker.id));
                        }
                        let ghost cur = flat(self.side_view(opp));
                        let crossing = match taker.side {
                            Side::Buy => maker.price <= taker.price,
                            Side::Sell => maker.price >= taker.price,
                        };
                        if !crossing {
                            done = true;
                        } else {
                            match stp_action(self.stp_mode, maker.user, taker.user) {
                                StpAction::CancelTaker => {
                                    cancelled = true;
                                    done = true;
                                },
                                StpAction::CancelMaker => {
                                    let _ = self.take_order(opp, maker.id, maker.price);
                                    proof {
                                        lemma_ids_filter_within(cur, other_order(maker.id, maker.price));
                                    }
                                },
                                StpAction::CancelBoth => {
                                    let _ = self.take_order(opp, maker.id, maker.price);
                                    proof {
                                        lemma_ids_filter_within(cur, other_order(maker.id, maker.price));
                                    }
                                    cancelled = true;
                                    done = true;
                                },
                                StpAction::Allow => {
                                    let fill: Quantity;
                                    if maker.remaining_quantity <= remaining {
                                        fill = maker.remaining_quantity;
                                        let _ = self.take_order(opp, maker.id, maker.price);
                                        proof {
                                            lemma_ids_filter_within(cur, other_order(maker.id, maker.price));
                                        }
                                        if maker.hidden_quantity > 0 && self.next_seq < u64::MAX {
                                            let refill = if maker.hidden_quantity < fill {
                                                maker.hidden_quantity
                                            } else {
                                                fill
                                            };
                                            let again = Order {
                                                remaining_quantity: refill,
                                                hidden_quantity: maker.hidden_quantity - refill,
                                                arrival_seq: self.next_seq,
                                                ..maker
                                            };
                                            let ghost before = self.orders();
                                            let ghost prev = self.side_view(opp);
                                            self.next_seq = self.next_seq + 1;
                                            proof {
                                                crate::side::lemma_flat_inserted(opp, prev, again);
                                            }
                                            self.rest_order(again);
                                            proof {
                                                assert(self.side_view(opp) == inserted(prev, again));
                                                let q = choose|q: int| 0 <= q <= flat(prev).len()
                                                    && flat(inserted(prev, again)) == #[trigger] flat(prev).insert(q, again);
                                                assert forall|x: OrderId| ids_of(flat(self.side_view(opp))).contains(x)
                                                    implies ids_of(flat(old(self).side_view(opp))).contains(x) by {
                                                    lemma_ids_insert(flat(prev), q, again, x);
                                                }
                                                let pos = choose|pos: int| 0 <= pos <= before.len()
                                                    && self.orders() == #[trigger] before.insert(pos, again);
                                                if ids_of(self.orders()).contains(taker.id) {
                                                    lemma_ids_insert(before, pos, again, taker.id);
                                                }
                                            }
                                        }
                                    } else {
                                        fill = remaining;
                                        self.reduce_head_of(opp, idx, fill);
                                    }
                                    let ghost old_fills = fills@;
                                    fills.push(Fill { maker_id: maker.id, taker_id: taker.id, price: maker.price, quantity: fill });
                                    proof {
                                        assert(fills@.drop_last() == old_fills);
                                    }
                                    remaining = remaining - fill;
                                },
                            }
                        }
                    },
                }
            }
        }
        (fills, remaining, cancelled)
    }

    /// Why a limit or iceberg order is refused, if it is: invalid input
    /// first, then a taken id, then an expired good-till-date order, then a
    /// fill-or-kill order that the crossing
    /// liquidity cannot fill, then an exhausted sequence.
    pub open spec fn limit_entry_error(
        &self,
        id: OrderId,
        price: Price,
        quantity: Quantity,
        side: Side,
        tif: TimeInForce,
    ) -> Option<OrderError> {
        if price == 0 || quantity == 0 {
            Some(OrderError::InvalidInput)
        } else if ids_of(self.orders()).contains(id) {
            Some(OrderError::DuplicateOrderId)
        } else if expired(tif, self.now) {
            Some(OrderError::Expired)
        } else if tif is Fok && crossing_quantity(self.side_view(side.opposite_spec()), side, price) < quantity {
            Some(OrderError::FokUnfillable)
        } else if self.next_seq == u64::MAX {
            Some(OrderError::Internal)
        } else {
            None
        }
    }

    /// What entry of an order that passed validation gives: fills that add
    /// up with the rest to `quantity`, each crossing the limit against a
    /// maker that rested on the opposite side; the taker cancelled only by
    /// self-trade prevention that cancels both, or that cancels the taker
    /// with a crossing order of the same user still resting; the rest resting exactly when it is left,
    /// not cancelled, and its time in force allows; no longer crossing when
    /// a rest is left. An order that crosses nothing fills nothing and, if
    /// it may rest, rests whole.
    pub open spec fn entry_result(
        &self,
        after: OrderBook,
        out: MatchOutcome,
        id: OrderId,
        price: Price,
        quantity: Quantity,
        hidden: Quantity,
        side: Side,
        tif: TimeInForce,
        user: Option<UserId>,
    ) -> bool {
        &&& fill_total(out.fills@) + out.remaining == quantity
        &&& forall|i: int| 0 <= i < out.fills@.len() ==> {
            &&& (#[trigger] out.fills@[i]).taker_id == id
            &&& out.fills@[i].quantity > 0
            &&& crosses_at(side, price, out.fills@[i].price)
            &&& ids_of(flat(self.side_view(side.opposite_spec()))).contains(out.fills@[i].maker_id)
        }
        &&& out.taker_cancelled ==> user is Some && (self.stp_mode == STPMode::CancelBoth
            || (self.stp_mode == STPMode::CancelTaker
                && crossing_order_of(flat(after.side_view(side.opposite_spec())), user, side, price)))
        &&& out.rested == (out.remaining > 0 && !out.taker_cancelled && rests_residual(tif))
        &&& out.rested ==> ids_of(after.orders()).contains(id)
        &&& !out.rested ==> !ids_of(after.orders()).contains(id)
        &&& (out.remaining > 0 && !out.taker_cancelled) ==> !after.crosses(side, price)
        &&& !self.crosses(side, price) ==> {
            &&& out.fills@.len() == 0
            &&& out.remaining == quantity
            &&& !out.taker_cancelled
            &&& rests_residual(tif) ==> self.rested(
                entry_order(id, side, price, quantity, hidden, tif, user, false, self.next_seq),
                &after,
            )
            &&& !rests_residual(tif) ==> after.bids@ == self.bids@ && after.asks@ == self.asks@
        }
    }

    /// Validates an incoming order, matches it, and rests what is left
    /// when its time in force allows.
    fn enter(
        &mut self,
        id: OrderId,
        price: Price,
        quantity: Quantity,
        hidden: Quantity,
        side: Side,
        tif: TimeInForce,
        user: Option<UserId>,
    ) -> (r: Result<MatchOutcome, OrderError>)
        requires
            old(self).wf(),
        ensures
            final(self).wf(),
            match old(self).limit_entry_error(id, price, quantity, side, tif) {
                Some(e) => r == Err::<MatchOutcome, OrderError>(e)
                    && final(self).bids@ == old(self).bids@ && final(self).asks@ == old(self).asks@,
                None => r is Ok,
            },
            r is Ok ==> old(self).entry_result(*final(self), r->Ok_0, id, price, quantity, hidden, side, tif, user),
    {
        if price == 0 || quantity == 0 {
            return Err(OrderError::InvalidInput);
        }
        if self.order_location(id).is_some() {
            return Err(OrderError::DuplicateOrderId);
        }
        if is_expired(tif, self.now) {
            return Err(OrderError::Expired);
        }
        let fok = match tif {
            TimeInForce::Fok => true,
            _ => false,
        };
        if fok && !self.fillable(side, price, quantity) {
            return Err(OrderError::FokUnfillable);
        }
        if self.next_seq == u64::MAX {
            return Err(OrderError::Internal);
        }
        let taker = Order {
            id,
            side,
            price,
            remaining_quantity: quantity,
            hidden_quantity: hidden,
            tif,
            user,
            post_only: false,
            arrival_seq: self.next_seq,
        };
        self.next_seq = self.next_seq + 1;
        let (fills, remaining, cancelled) = self.match_incoming(taker);
        let ghost matched = *self;
        let persistent = match tif {
            TimeInForce::Gtc => true,
            TimeInForce::Gtd(_) => true,
            _ => false,
        };
        let rested = remaining > 0 && !cancelled && persistent;
        if rested {
            let rest = Order { remaining_quantity: remaining, ..taker };
            let ghost before = self.orders();
            self.rest_order(rest);
            proof {
                let pos = choose|pos: int| 0 <= pos <= before.len() && self.orders() == #[trigger] before.insert(pos, rest);
                assert(ids_of(self.orders())[pos] == id);
            }
        }
        Ok(MatchOutcome { fills, remaining, taker_cancelled: cancelled, rested })
    }

    /// Enters a limit order: it takes crossing liquidity, then rests what is
    /// left if its time in force allows.
    pub fn add_limit_order(
        &mut self,
        id: OrderId,
        price: Price,
        quantity: Quantity,
        side: Side,
        tif: TimeInForce,
        user: Option<UserId>,
    ) -> (r: Result<MatchOutcome, OrderError>)
        requires
            old(self).wf(),
        ensures
            final(self).wf(),
            match old(self).limit_entry_error(id, price, quantity, side, tif) {
                Some(e) => r == Err::<MatchOutcome, OrderError>(e)
                    && final(self).bids@ == old(self).bids@ && final(self).asks@ == old(self).asks@,
                None => r is Ok,
            },
            r is Ok ==> old(self).entry_result(*final(self), r->Ok_0, id, price, quantity, 0, side, tif, user),
    {
        self.enter(id, price, quantity, 0, side, tif, user)
    }

    /// Enters a limit order owned by `user`.
    pub fn add_limit_order_with_user(
        &mut self,
        id: OrderId,
        price: Price,
        quantity: Quantity,
        side: Side,
        tif: TimeInForce,
        user: UserId,
    ) -> (r: Result<MatchOutcome, OrderError>)
        requires
            old(self).wf(),
        ensures
            final(self).wf(),
            match old(self).limit_entry_error(id, price, quantity, side, tif) {
                Some(e) => r == Err::<MatchOutcome, OrderError>(e)
                    && final(self).bids@ == old(self).bids@ && final(self).asks@ == old(self).asks@,
                None => r is Ok,
            },
            r is Ok ==> old(self).entry_result(*final(self), r->Ok_0, id, price, quantity, 0, side, tif, Some(user)),
    {
        self.enter(id, price, quantity, 0, side, tif, Some(user))
    }

    /// Enters an iceberg order: `display` shows and trades, `hidden` waits
    /// in reserve and refills the display as it is consumed.
    pub fn add_iceberg_order(
        &mut self,
        id: OrderId,
        price: Price,
        display: Quantity,
        hidden: Quantity,
        side: Side,
        tif: TimeInForce,
        user: Option<UserId>,
    ) -> (r: Result<MatchOutcome, OrderError>)
        requires
            old(self).wf(),
        ensures
            final(self).wf(),
            match old(self).limit_entry_error(id, price, display, side, tif) {
                Some(e) => r == Err::<MatchOutcome, OrderError>(e)
                    && final(self).bids@ == old(self).bids@ && final(self).asks@ == old(self).asks@,
                None => r is Ok,
            },
            r is Ok ==> old(self).entry_result(*final(self), r->Ok_0, id, price, display, hidden, side, tif, user),
    {
        self.enter(id, price, display, hidden, side, tif, user)
    }

    /// Can the crossing liquidity opposite fill `quantity` for an incoming
    /// order of `side` limited at `price`?
    pub fn fillable(&self, side: Side, price: Price, quantity: Quantity) -> (r: bool)
        requires
            self.wf(),
        ensures
            r == (crossing_quantity(self.side_view(side.opposite_spec()), side, price) >= quantity),
    {
        let opp = side.opposite();
        let index = match opp {
            Side::Buy => &self.bids,
            Side::Sell => &self.asks,
        };
        let ghost s = index@;
        let q = quantity as u128;
        let mut acc: u128 = 0;
        let mut i: usize = 0;
        proof {
            assert(s.take(0) =~= Seq::<LevelView>::empty());
        }
        while i < index.levels.len()
            invariant
                s == index@,
                s == self.side_view(side.opposite_spec()),
                i <= s.len(),
                q == quantity,
                acc == capped(crossing_quantity(s.take(i as int), side, price), q as int),
            decreases s.len() - i,
        {
            let lv = &index.levels[i];
            assert(lv@ == s[i as int]);
            let cross = match side {
                Side::Buy => lv.price <= price,
                Side::Sell => lv.price >= price,
            };
            let ghost base = crossing_quantity(s.take(i as int), side, price);
            proof {
                assert(s.take(i + 1).drop_last() =~= s.take(i as int));
            }
            if cross {
                let mut j: usize = 0;
                proof {
                    assert(s[i as int].1.take(0) =~= Seq::<Order>::empty());
                }
                while j < lv.orders.len()
                    invariant
                        lv@ == s[i as int],
                        i < s.len(),
                        j <= s[i as int].1.len(),
                        q == quantity,
                        acc == capped(base + level_quantity(s[i as int].1.take(j as int)), q as int),
                        base >= 0,
                    decreases s[i as int].1.len() - j,
                {
                    proof {
                        assert(s[i as int].1.take(j + 1).drop_last() =~= s[i as int].1.take(j as int));
                        lemma_level_quantity_nonneg(s[i as int].1.take(j as int));
                    }
                    let add = lv.orders[j].remaining_quantity as u128;
                    let sum = acc + add;
                    acc = if sum < q { sum } else { q };
                    j = j + 1;
                }
                proof {
                    assert(s[i as int].1.take(s[i as int].1.len() as int) =~= s[i as int].1);
                }
            }
            proof {
                lemma_crossing_quantity_nonneg(s.take(i as int), side, price);
            }
            i = i + 1;
        }
        proof {
            assert(s.take(s.len() as int) =~= s);
        }
        acc >= q
    }

    /// Takes the order `id` out of the level at `price` on `side`.
    #[verifier::rlimit(60)]
    pub fn take_order(&mut self, side: Side, id: OrderId, price: Price) -> (r: Option<Order>)
        requires
            old(self).wf(),
        ensures
            final(self).wf(),
            final(self).side_view(side) == removed(old(self).side_view(side), id, price),
            final(self).side_view(side.opposite_spec()) == old(self).side_view(side.opposite_spec()),
            final(self).next_seq == old(self).next_seq,
            final(self).stp_mode == old(self).stp_mode,
            forall|x: OrderId| ids_of(final(self).orders()).contains(x) ==> ids_of(old(self).orders()).contains(x),
            r is Some ==> final(self).orders().len() < old(self).orders().len(),
            r is Some ==> !ids_of(final(self).orders()).contains(id),
            r is None ==> final(self).orders() == old(self).orders(),
            r is Some <==> exists|k: int| 0 <= k < flat(old(self).side_view(side)).len()
                && (#[trigger] flat(old(self).side_view(side))[k]).id == id
                && flat(old(self).side_view(side))[k].price == price,
            r matches Some(o) ==> o.id == id && o.price == price && o.side == side,
            flat(final(self).side_view(side)) == flat(old(self).side_view(side)).filter(other_order(id, price)),
    {
        let ghost fb = flat(self.bids@);
        let ghost fa = flat(self.asks@);
        let removed_order = match side {
            Side::Buy => self.bids.remove_order(id, price),
            Side::Sell => self.asks.remove_order(id, price),
        };
        proof {
            lemma_flat_sides(Side::Buy, old(self).bids@);
            lemma_flat_sides(Side::Sell, old(self).asks@);
            match side {
                Side::Buy => lemma_take_facts(fb, fa, flat(self.bids@), id, price, removed_order is Some),
                Side::Sell => lemma_take_facts_right(fb, fa, flat(self.asks@), id, price, removed_order is Some),
            }
        }
        self.refresh_cache();
        removed_order
    }
}

} // verus!
