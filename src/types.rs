//! Identifiers, sides and resting orders.
use vstd::prelude::*;

verus! {

/// A price in fixed-point units. Resting orders always have a positive price.
pub type Price = u128;

/// A quantity of the instrument.
pub type Quantity = u64;

/// Side of an order: buyers rest as bids, sellers as asks.
#[derive(Clone, Copy, Debug, PartialEq, Eq, Structural)]
pub enum Side {
    Buy,
    Sell,
}

impl Side {
    /// The other side.
    pub open spec fn opposite_spec(self) -> Side {
        match self {
            Side::Buy => Side::Sell,
            Side::Sell => Side::Buy,
        }
    }

    /// The side that an order of this side trades against.
    pub fn opposite(self) -> (r: Side)
        ensures
            r == self.opposite_spec(),
    {
        match self {
            Side::Buy => Side::Sell,
            Side::Sell => Side::Buy,
        }
    }
}

/// Globally unique order identifier.
#[derive(Clone, Copy, Debug, PartialEq, Eq, Structural, Hash)]
pub struct OrderId {
    pub value: u128,
}

impl OrderId {
    pub fn new(value: u128) -> (r: OrderId)
        ensures
            r.value == value,
    {
        OrderId { value }
    }
}

/// A 256-bit user identifier, held as two 128-bit halves.
#[derive(Clone, Copy, Debug, PartialEq, Eq, Structural, Hash)]
pub struct UserId {
    pub hi: u128,
    pub lo: u128,
}

impl UserId {
    pub fn new(hi: u128, lo: u128) -> (r: UserId)
        ensures
            r.hi == hi,
            r.lo == lo,
    {
        UserId { hi, lo }
    }
}

/// How long an order may rest.
#[derive(Clone, Copy, Debug, PartialEq, Eq, Structural)]
pub enum TimeInForce {
    Gtc,
    Ioc,
    Fok,
    /// Good till the given expiry time.
    Gtd(u64),
}

/// An order resting in the book.
#[derive(Clone, Copy, Debug, PartialEq, Eq, Structural)]
pub struct Order {
    pub id: OrderId,
    pub side: Side,
    pub price: Price,
    /// Visible quantity still open.
    pub remaining_quantity: Quantity,
    /// Hidden reserve of an iceberg order; zero for other orders.
    pub hidden_quantity: Quantity,
    pub tif: TimeInForce,
    pub user: Option<UserId>,
    pub post_only: bool,
    /// Arrival sequence number, assigned when the order is accepted.
    pub arrival_seq: u64,
}

/// Does `o` belong to user `u`?
pub open spec fn owned_by(o: Order, u: UserId) -> bool {
    o.user == Some(u)
}

/// Exec form of `owned_by`.
pub fn is_owned_by(o: &Order, u: UserId) -> (r: bool)
    ensures
        r == owned_by(*o, u),
{
    match o.user {
        Some(v) => v.hi == u.hi && v.lo == u.lo,
        None => false,
    }
}

} // verus!
