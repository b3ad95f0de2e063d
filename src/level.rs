//! A price level: the FIFO of orders resting at one price.
use vstd::prelude::*;
use crate::types::{Order, OrderId, Price, UserId, owned_by, is_owned_by};

verus! {

broadcast use vstd::seq_lib::group_seq_properties;

/// The ids of a sequence of orders, in the same order.
pub open spec fn ids_of(s: Seq<Order>) -> Seq<OrderId> {
    s.map_values(|o: Order| o.id)
}

/// Keeps the orders whose id is not `id`.
pub open spec fn other_id(id: OrderId) -> spec_fn(Order) -> bool {
    |o: Order| o.id != id
}

/// Keeps the orders of user `u`.
pub open spec fn of_user(u: UserId) -> spec_fn(Order) -> bool {
    |o: Order| owned_by(o, u)
}

/// Keeps the orders that are not of user `u`.
pub open spec fn not_of_user(u: UserId) -> spec_fn(Order) -> bool {
    |o: Order| !owned_by(o, u)
}

/// The orders resting at one price, oldest first.
#[derive(Debug)]
pub struct PriceLevel {
    pub price: Price,
    pub orders: Vec<Order>,
}

impl View for PriceLevel {
    type V = (Price, Seq<Order>);

    open spec fn view(&self) -> (Price, Seq<Order>) {
        (self.price, self.orders@)
    }
}

impl PriceLevel {
    /// An empty level at `price`.
    pub fn new(price: Price) -> (r: PriceLevel)
        ensures
            r@ == (price, Seq::<Order>::empty()),
    {
        PriceLevel { price, orders: Vec::new() }
    }

    /// Number of orders at this level.
    pub fn len(&self) -> (r: usize)
        ensures
            r == self.orders@.len(),
    {
        self.orders.len()
    }

    pub fn is_empty(&self) -> (r: bool)
        ensures
            r == (self.orders@.len() == 0),
    {
        self.orders.len() == 0
    }

    /// Appends an order at the back of the queue.
    pub fn push_back(&mut self, order: Order)
        ensures
            final(self)@ == (old(self).price, old(self).orders@.push(order)),
    {
        self.orders.push(order);
    }

    /// Removes the order with id `id`, keeping the others in their order.
    pub fn remove(&mut self, id: OrderId) -> (r: Option<Order>)
        ensures
            final(self).price == old(self).price,
            final(self).orders@ == old(self).orders@.filter(other_id(id)),
            r is None <==> !ids_of(old(self).orders@).contains(id),
            r matches Some(o) ==> o.id == id && old(self).orders@.contains(o),
    {
        let mut orders: Vec<Order> = Vec::new();
        std::mem::swap(&mut orders, &mut self.orders);
        let ghost all = orders@;
        let mut kept: Vec<Order> = Vec::new();
        let mut found: Option<Order> = None;
        let mut i: usize = 0;
        while i < orders.len()
            invariant
                orders@ == all,
                i <= all.len(),
                kept@ == all.take(i as int).filter(other_id(id)),
                found is None <==> !ids_of(all.take(i as int)).contains(id),
                found matches Some(o) ==> o.id == id && all.contains(o),
            decreases all.len() - i,
        {
            let o = orders[i];
            proof {
                assert(all.take(i + 1) =~= all.take(i as int).push(o));
                all.take(i as int).lemma_filter_push(o, other_id(id));
                assert(ids_of(all.take(i + 1)) =~= ids_of(all.take(i as int)).push(o.id));
            }
            if o.id == id {
                if found.is_none() {
                    found = Some(o);
                }
            } else {
                kept.push(o);
            }
            i = i + 1;
        }
        assert(all.take(all.len() as int) =~= all);
        self.orders = kept;
        found
    }

    /// Takes every order out of the level, oldest first.
    pub fn drain(&mut self) -> (r: Vec<Order>)
        ensures
            final(self)@ == (old(self).price, Seq::<Order>::empty()),
            r@ == old(self).orders@,
    {
        let mut orders: Vec<Order> = Vec::new();
        std::mem::swap(&mut orders, &mut self.orders);
        orders
    }

    /// Takes out the orders of user `u`; the others keep their order.
    pub fn cancel_user(&mut self, u: UserId) -> (r: Vec<Order>)
        ensures
            final(self).price == old(self).price,
            final(self).orders@ == old(self).orders@.filter(not_of_user(u)),
            r@ == old(self).orders@.filter(of_user(u)),
    {
        let mut orders: Vec<Order> = Vec::new();
        std::mem::swap(&mut orders, &mut self.orders);
        let ghost all = orders@;
        let mut kept: Vec<Order> = Vec::new();
        let mut removed: Vec<Order> = Vec::new();
        let mut i: usize = 0;
        while i < orders.len()
            invariant
                orders@ == all,
                i <= all.len(),
                kept@ == all.take(i as int).filter(not_of_user(u)),
                removed@ == all.take(i as int).filter(of_user(u)),
            decreases all.len() - i,
        {
            let o = orders[i];
            proof {
                assert(all.take(i + 1) =~= all.take(i as int).push(o));
                all.take(i as int).lemma_filter_push(o, of_user(u));
                all.take(i as int).lemma_filter_push(o, not_of_user(u));
            }
            if is_owned_by(&o, u) {
                removed.push(o);
            } else {
                kept.push(o);
            }
            i = i + 1;
        }
        assert(all.take(all.len() as int) =~= all);
        self.orders = kept;
        removed
    }
}

} // verus!
