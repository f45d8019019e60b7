//! The synthetic order stream the matching benchmark replays.
use vstd::prelude::*;

use crate::lob::types::{OrderRequest, OrderSide};

verus! {

/// The price every generated order is placed around.
pub const BASE_PRICE: u64 = 100_000;

/// The `i`-th generated order: every third one sells, prices cycle through the 200 ticks
/// around the base price, and quantities cycle through 100 to 1000 in steps of 100.
pub open spec fn generated_order(i: int) -> OrderRequest {
    OrderRequest {
        side: if i % 3 == 0 {
            OrderSide::Sell
        } else {
            OrderSide::Buy
        },
        price: (BASE_PRICE + i % 200 - 100) as u64,
        quantity: ((i % 10 + 1) * 100) as u32,
    }
}

/// The first `count` generated orders.
pub fn generate_orders(count: usize) -> (r: Vec<OrderRequest>)
    ensures
        r@.len() == count,
        forall|i: int| 0 <= i < count ==> #[trigger] r@[i] == generated_order(i),
{
    let mut orders: Vec<OrderRequest> = Vec::new();
    let mut i: usize = 0;
    while i < count
        invariant
            i <= count,
            orders@.len() == i,
            forall|j: int| 0 <= j < i ==> #[trigger] orders@[j] == generated_order(j),
        decreases count - i,
    {
        let side = if i % 3 == 0 {
            OrderSide::Sell
        } else {
            OrderSide::Buy
        };
        let tick = (i % 200) as u64;
        let price = if tick >= 100 {
            BASE_PRICE + (tick - 100)
        } else {
            BASE_PRICE - (100 - tick)
        };
        let qty = ((i % 10) + 1) * 100;
        orders.push(OrderRequest { side, price, quantity: qty as u32 });
        i = i + 1;
    }
    orders
}

} // verus!
