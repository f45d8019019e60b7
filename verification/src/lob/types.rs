//! Orders, requests and trades of the limit order book.
use vstd::prelude::*;

verus! {

#[derive(Debug, Clone, Copy, PartialEq, Eq, Structural)]
pub enum OrderSide {
    Buy,
    Sell,
}

#[derive(Debug, Clone, Copy, PartialEq, Eq, Structural)]
pub enum OrderType {
    Limit,
}

#[derive(Debug, Clone, Copy, PartialEq, Eq, Structural)]
pub enum OrderStatus {
    New,
    PartiallyFilled,
    Filled,
    Cancelled,
}

/// An order held by the pool.
#[derive(Debug, Clone, Copy)]
pub struct Order {
    pub id: u32,
    pub side: OrderSide,
    pub price: u64,
    pub quantity: u32,
    pub remaining: u32,
    pub status: OrderStatus,
}

/// An incoming limit order.
#[derive(Debug, Clone, Copy)]
pub struct OrderRequest {
    pub side: OrderSide,
    pub price: u64,
    pub quantity: u32,
}

/// A fill between an incoming order and a resting one; the incoming side's id is `u32::MAX`.
#[derive(Debug, Clone, Copy)]
pub struct Trade {
    pub buy_order_id: u32,
    pub sell_order_id: u32,
    pub price: u64,
    pub quantity: u32,
}

} // verus!
