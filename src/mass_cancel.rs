//! Bulk cancellation: every order, one side, one user, or a price range.
use vstd::prelude::*;
use crate::book::{OrderBook, lemma_no_dup_filter_both, any_order, lemma_filter_all_any};
use crate::level::{ids_of, of_user, not_of_user};
use crate::side::{
    LevelView, flat, strip_user, level_inside, level_outside, order_outside, lemma_filter_all,
    lemma_filter_none, lemma_flat_sides,
};
use crate::types::{Order, OrderId, Price, Side, UserId};

verus! {

broadcast use vstd::seq_lib::group_seq_properties;

/// The decimal digit for `d`, which is below ten.
pub open spec fn digit_char(d: nat) -> char {
    if d == 0 { '0' } else if d == 1 { '1' } else if d == 2 { '2' } else if d == 3 { '3' }
    else if d == 4 { '4' } else if d == 5 { '5' } else if d == 6 { '6' } else if d == 7 { '7' }
    else if d == 8 { '8' } else { '9' }
}

/// The decimal digits of `n`, most significant first.
pub open spec fn decimal(n: nat) -> Seq<char>
    decreases n,
{
    if n < 10 {
        seq![digit_char(n)]
    } else {
        decimal(n / 10).push(digit_char(n % 10))
    }
}

/// Relies on std's `format!` with `{}` on a `u64`: the decimal digits of
/// the number, then the fixed text.
#[verifier::external_body]
fn format_count(count: u64) -> (r: String)
    ensures
        r@ == decimal(count as nat) + " orders cancelled"@,
{
    format!("{} orders cancelled", count)
}

/// Keeps no order.
pub open spec fn no_order() -> spec_fn(Order) -> bool {
    |o: Order| false
}

/// What a bulk cancel removed: the ids, and how many.
#[derive(Debug)]
pub struct MassCancelResult {
    pub cancelled_order_ids: Vec<OrderId>,
    pub count: u64,
}

impl MassCancelResult {
    pub open spec fn wf(&self) -> bool {
        self.count == self.cancelled_order_ids@.len()
    }

    /// The result of cancelling `orders`.
    pub fn from_orders(orders: &Vec<Order>) -> (r: MassCancelResult)
        ensures
            r.wf(),
            r.cancelled_order_ids@ == ids_of(orders@),
    {
        let mut ids: Vec<OrderId> = Vec::new();
        let mut i: usize = 0;
        while i < orders.len()
            invariant
                i <= orders@.len(),
                ids@ == ids_of(orders@.take(i as int)),
            decreases orders@.len() - i,
        {
            proof {
                assert(ids_of(orders@.take(i + 1)) =~= ids_of(orders@.take(i as int)).push(orders@[i as int].id));
            }
            ids.push(orders[i].id);
            i = i + 1;
        }
        proof {
            assert(orders@.take(orders@.len() as int) =~= orders@);
        }
        let count = ids.len() as u64;
        MassCancelResult { cancelled_order_ids: ids, count }
    }

    /// The ids of the cancelled orders.
    pub fn cancelled_order_ids(&self) -> (r: &Vec<OrderId>)
        ensures
            r@ == self.cancelled_order_ids@,
    {
        &self.cancelled_order_ids
    }

    /// How many orders were cancelled.
    pub fn cancelled_count(&self) -> (r: u64)
        ensures
            r == self.count,
    {
        self.count
    }

    /// True when nothing was cancelled.
    pub fn is_empty(&self) -> (r: bool)
        ensures
            r == (self.count == 0),
    {
        self.count == 0
    }

    /// A human-readable form that gives the count.
    pub fn to_display_string(&self) -> (r: String)
        ensures
            r@ == decimal(self.count as nat) + " orders cancelled"@,
    {
        format_count(self.count)
    }
}

impl Default for MassCancelResult {
    fn default() -> (r: MassCancelResult)
        ensures
            r.wf(),
            r.count == 0,
            r.cancelled_order_ids@ == Seq::<OrderId>::empty(),
    {
        MassCancelResult { cancelled_order_ids: Vec::new(), count: 0 }
    }
}

impl OrderBook {
    /// Cancels every resting order on both sides.
    pub fn cancel_all_orders(&mut self) -> (r: MassCancelResult)
        requires
            old(self).wf(),
        ensures
            final(self).stp_mode == old(self).stp_mode,
            final(self).next_seq == old(self).next_seq,
            final(self).symbol == old(self).symbol,
            final(self).wf(),
            r.wf(),
            r.cancelled_order_ids@ == ids_of(old(self).orders()),
            final(self).bids@ == Seq::<LevelView>::empty(),
            final(self).asks@ == Seq::<LevelView>::empty(),
            final(self).cache.cache_valid,
    {
        let mut out = self.bids.drain_all();
        let mut asks = self.asks.drain_all();
        out.append(&mut asks);
        self.refresh_cache();
        proof {
            assert(flat(self.bids@) =~= Seq::<Order>::empty());
            assert(flat(self.asks@) =~= Seq::<Order>::empty());
            assert(ids_of(self.orders()) =~= Seq::<OrderId>::empty());
        }
        MassCancelResult::from_orders(&out)
    }

    /// Cancels every order on `side`; the other side is untouched.
    pub fn cancel_orders_by_side(&mut self, side: Side) -> (r: MassCancelResult)
        requires
            old(self).wf(),
        ensures
            final(self).stp_mode == old(self).stp_mode,
            final(self).next_seq == old(self).next_seq,
            final(self).symbol == old(self).symbol,
            final(self).wf(),
            r.wf(),
            r.cancelled_order_ids@ == ids_of(flat(old(self).side_view(side))),
            final(self).side_view(side) == Seq::<LevelView>::empty(),
            final(self).side_view(side.opposite_spec()) == old(self).side_view(side.opposite_spec()),
            final(self).cache.cache_valid,
    {
        let ghost fb = flat(self.bids@);
        let ghost fa = flat(self.asks@);
        let out = match side {
            Side::Buy => self.bids.drain_all(),
            Side::Sell => self.asks.drain_all(),
        };
        self.refresh_cache();
        proof {
            assert(flat(Seq::<LevelView>::empty()) =~= Seq::<Order>::empty());
            lemma_filter_none(fb, no_order());
            lemma_filter_none(fa, no_order());
            lemma_filter_all_any(fb);
            lemma_filter_all_any(fa);
            match side {
                Side::Buy => {
                    lemma_no_dup_filter_both(fb, fa, no_order(), any_order());
                    assert(self.orders() =~= fb.filter(no_order()) + fa.filter(any_order()));
                },
                Side::Sell => {
                    lemma_no_dup_filter_both(fb, fa, any_order(), no_order());
                    assert(self.orders() =~= fb.filter(any_order()) + fa.filter(no_order()));
                },
            }
        }
        MassCancelResult::from_orders(&out)
    }

    /// Cancels every order of user `u` on both sides; levels left empty go.
    pub fn cancel_orders_by_user(&mut self, u: UserId) -> (r: MassCancelResult)
        requires
            old(self).wf(),
        ensures
            final(self).stp_mode == old(self).stp_mode,
            final(self).next_seq == old(self).next_seq,
            final(self).symbol == old(self).symbol,
            final(self).wf(),
            r.wf(),
            r.cancelled_order_ids@ == ids_of(old(self).orders().filter(of_user(u))),
            final(self).bids@ == strip_user(old(self).bids@, u),
            final(self).asks@ == strip_user(old(self).asks@, u),
            final(self).orders() == old(self).orders().filter(not_of_user(u)),
            final(self).cache.cache_valid,
    {
        let ghost fb = flat(self.bids@);
        let ghost fa = flat(self.asks@);
        let mut out = self.bids.cancel_user(u);
        let mut asks = self.asks.cancel_user(u);
        out.append(&mut asks);
        self.refresh_cache();
        proof {
            Seq::filter_distributes_over_add(fb, fa, of_user(u));
            Seq::filter_distributes_over_add(fb, fa, not_of_user(u));
            lemma_no_dup_filter_both(fb, fa, not_of_user(u), not_of_user(u));
        }
        MassCancelResult::from_orders(&out)
    }

    /// Cancels every level of `side` whose price lies in `[lo, hi]`; with
    /// `lo > hi` nothing changes.
    pub fn cancel_orders_by_price_range(&mut self, side: Side, lo: Price, hi: Price) -> (r: MassCancelResult)
        requires
            old(self).wf(),
        ensures
            final(self).stp_mode == old(self).stp_mode,
            final(self).next_seq == old(self).next_seq,
            final(self).symbol == old(self).symbol,
            final(self).wf(),
            r.wf(),
            lo > hi ==> r.count == 0 && *final(self) == *old(self),
            lo <= hi ==> {
                &&& r.cancelled_order_ids@
                    == ids_of(flat(old(self).side_view(side).filter(level_inside(lo, hi))))
                &&& final(self).side_view(side) == old(self).side_view(side).filter(level_outside(lo, hi))
                &&& final(self).side_view(side.opposite_spec()) == old(self).side_view(side.opposite_spec())
            },
    {
        if lo > hi {
            return MassCancelResult::default();
        }
        let ghost fb = flat(self.bids@);
        let ghost fa = flat(self.asks@);
        proof {
            lemma_flat_sides(Side::Buy, self.bids@);
            lemma_flat_sides(Side::Sell, self.asks@);
        }
        let out = match side {
            Side::Buy => self.bids.cancel_range(lo, hi),
            Side::Sell => self.asks.cancel_range(lo, hi),
        };
        self.refresh_cache();
        proof {
            match side {
                Side::Buy => {
                    lemma_filter_all(fa, order_outside(side, lo, hi));
                },
                Side::Sell => {
                    lemma_filter_all(fb, order_outside(side, lo, hi));
                },
            }
            lemma_no_dup_filter_both(fb, fa, order_outside(side, lo, hi), order_outside(side, lo, hi));
        }
        MassCancelResult::from_orders(&out)
    }
}

} // verus!
