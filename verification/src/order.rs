//! An order that rests in a book.
use crate::types::{OrderId, Price, Quantity};
use vstd::prelude::*;

verus! {

#[derive(Debug, Clone, Copy, PartialEq, Eq)]
pub struct Order {
    pub id: OrderId,
    pub price: Price,
    pub quantity: Quantity,
}

} // verus!
