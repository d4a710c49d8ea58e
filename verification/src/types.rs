use vstd::prelude::*;

use crate::model::opposite;

verus! {

/// The side of an order: a bid to buy or an offer to sell.
#[derive(Clone, Copy, PartialEq, Eq, Structural, Debug)]
pub enum Side {
    Buy,
    Sell,
}

/// A market order takes whatever liquidity there is and never rests;
/// a limit order trades only at its price or better and rests with what is left.
#[derive(Clone, Copy, PartialEq, Eq, Structural, Debug)]
pub enum OrderType {
    Market,
    Limit,
}

/// The identifier a client gives an order.
#[derive(Clone, Copy, PartialEq, Eq, Structural, Debug, Hash)]
pub struct OrderId(pub u64);

/// A price in ticks.
#[derive(Clone, Copy, PartialEq, Eq, Structural, Debug, Hash)]
pub struct Price(pub u64);

/// A quantity in lots.
#[derive(Clone, Copy, PartialEq, Eq, Structural, Debug, Hash)]
pub struct Qty(pub u64);

/// An order as a client submits it.
#[derive(Clone, Copy, PartialEq, Eq, Structural, Debug)]
pub struct Order {
    pub id: OrderId,
    pub side: Side,
    pub price: Price,
    pub qty: Qty,
    pub order_type: OrderType,
}

/// One execution between a buyer and a seller.
#[derive(Clone, Copy, PartialEq, Eq, Structural, Debug)]
pub struct Trade {
    pub buy: OrderId,
    pub sell: OrderId,
    pub price: Price,
    pub qty: Qty,
}

impl Side {
    /// The other side: the one an order of this side trades against.
    pub fn other(self) -> (r: Side)
        ensures
            r == opposite(self),
    {
        match self {
            Side::Buy => Side::Sell,
            Side::Sell => Side::Buy,
        }
    }
}

} // verus!
