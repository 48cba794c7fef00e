//! The vocabulary of the order books.
use crate::decimal::Decimal;
use vstd::prelude::*;

verus! {

pub type Price = Decimal;

pub type Quantity = Decimal;

pub type OrderId = u64;

/// The side of the book that an order belongs to.
#[derive(Debug, Clone, Copy, PartialEq, Eq, Structural)]
pub enum Side {
    Buy,
    Sell,
}

/// A trade between an order that rested in the book (the maker) and an incoming one (the taker).
#[derive(Debug, Clone, Copy, PartialEq, Eq)]
pub struct Fill {
    pub maker_order_id: OrderId,
    pub taker_order_id: OrderId,
    pub price: Price,
    pub quantity: Quantity,
}

} // verus!
