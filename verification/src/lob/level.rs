//! One price level of the book: the ids of the orders resting at that price, and filling
//! an incoming order against them.
use vstd::prelude::*;

use crate::lob::pool::{pool_free, pool_set, OrderPool, PoolModel};
use crate::lob::types::{Order, OrderSide, OrderStatus, Trade};

verus! {

pub const ORDERS_PER_LEVEL: usize = 48;

/// The orders resting at one price; the first id is the next one to be filled.
pub struct PriceLevel {
    price: u64,
    order_ids: Vec<u32>,
    order_count: u8,
}

/// The abstract content of a price level.
pub struct LevelView {
    pub price: u64,
    pub ids: Seq<u32>,
}

/// The ids after removing the first occurrence of `id`: the last id takes its place.
pub open spec fn remove_id(ids: Seq<u32>, id: u32) -> Seq<u32> {
    match ids.index_of_first(id) {
        Some(i) => ids.update(i, ids.last()).drop_last(),
        None => ids,
    }
}

/// Order `o` after `fill` more units traded.
pub open spec fn filled(o: Order, fill: u32) -> Order {
    Order {
        remaining: (o.remaining - fill) as u32,
        status: if o.remaining - fill == 0 {
            OrderStatus::Filled
        } else {
            OrderStatus::PartiallyFilled
        },
        ..o
    }
}

/// The trade of `qty` units between an incoming order on side `taker` and the resting order `id`.
pub open spec fn trade_for(taker: OrderSide, resting: Order, id: u32, price: u64, qty: u32) -> Trade {
    match taker {
        OrderSide::Buy => if resting.side == OrderSide::Sell {
            Trade { buy_order_id: u32::MAX, sell_order_id: id, price, quantity: qty }
        } else {
            Trade { buy_order_id: id, sell_order_id: u32::MAX, price, quantity: qty }
        },
        OrderSide::Sell => Trade { buy_order_id: id, sell_order_id: u32::MAX, price, quantity: qty },
    }
}

pub open spec fn min_u32(a: u32, b: u32) -> u32 {
    if a <= b {
        a
    } else {
        b
    }
}

/// What filling against one level leaves: the pool, the level's ids, the quantity still
/// wanted, and the trades made.
pub struct Fill {
    pub pool: PoolModel,
    pub ids: Seq<u32>,
    pub remaining: u32,
    pub trades: Seq<Trade>,
}

/// Fills `remaining` units of an incoming order on side `taker` against the orders `ids`
/// resting at `price`, always against the first id; an order that is used up is freed and
/// the last id moves to the front.
pub open spec fn take_from_level(pool: PoolModel, ids: Seq<u32>, price: u64, remaining: u32, taker: OrderSide) -> Fill
    decreases ids.len(),
{
    if ids.len() == 0 || remaining == 0 {
        Fill { pool, ids, remaining, trades: seq![] }
    } else {
        let id = ids[0];
        let o = pool.orders[id];
        let fill = min_u32(remaining, o.remaining);
        let t = trade_for(taker, o, id, price, fill);
        if o.remaining - fill == 0 {
            let rest = take_from_level(
                pool_free(pool_set(pool, id, filled(o, fill)), id),
                ids.update(0, ids.last()).drop_last(),
                price,
                (remaining - fill) as u32,
                taker,
            );
            Fill { trades: seq![t] + rest.trades, ..rest }
        } else {
            Fill {
                pool: pool_set(pool, id, filled(o, fill)),
                ids,
                remaining: (remaining - fill) as u32,
                trades: seq![t],
            }
        }
    }
}

/// Order `id` is live on `side` with something left to trade.
pub open spec fn resting(pool: PoolModel, id: u32, side: OrderSide) -> bool {
    &&& pool.orders.dom().contains(id)
    &&& pool.orders[id].side == side
    &&& pool.orders[id].remaining > 0
}

/// No id occurs twice.
pub open spec fn distinct_ids(ids: Seq<u32>) -> bool {
    forall|a: int, b: int| 0 <= a < b < ids.len() ==> ids[a] != ids[b]
}

/// The ids are distinct resting orders of `side`.
pub open spec fn ids_resting(pool: PoolModel, ids: Seq<u32>, side: OrderSide) -> bool {
    &&& distinct_ids(ids)
    &&& forall|k: int| 0 <= k < ids.len() ==> resting(pool, #[trigger] ids[k], side)
}

/// The pools agree on every id outside `ids`.
pub open spec fn agree_outside(p1: PoolModel, p2: PoolModel, ids: Seq<u32>) -> bool {
    forall|id: u32|
        !ids.contains(id) ==> (p1.orders.dom().contains(id) == p2.orders.dom().contains(id) && (
        p1.orders.dom().contains(id) ==> p1.orders[id] == p2.orders[id]))
}

impl View for PriceLevel {
    type V = LevelView;

    closed spec fn view(&self) -> LevelView {
        LevelView { price: self.price, ids: self.order_ids@ }
    }
}

impl PriceLevel {
    pub closed spec fn wf(&self) -> bool {
        &&& self.order_ids@.len() == self.order_count
        &&& self.order_count <= ORDERS_PER_LEVEL
    }

    /// An empty level at `price`.
    pub(crate) fn new(price: u64) -> (l: Self)
        ensures
            l.wf(),
            l@ == (LevelView { price, ids: Seq::empty() }),
    {
        Self { price, order_ids: Vec::new(), order_count: 0 }
    }

    /// A well-formed level holds at most `ORDERS_PER_LEVEL` ids.
    pub proof fn lemma_wf_bound(&self)
        requires
            self.wf(),
        ensures
            self@.ids.len() <= ORDERS_PER_LEVEL,
    {
    }

    /// The level's price.
    pub fn price(&self) -> (p: u64)
        ensures
            p == self@.price,
    {
        self.price
    }

    /// The number of orders resting at this level.
    pub fn order_count(&self) -> (n: usize)
        requires
            self.wf(),
        ensures
            n == self@.ids.len(),
    {
        self.order_count as usize
    }

    pub(crate) fn is_full(&self) -> (b: bool)
        requires
            self.wf(),
        ensures
            b == (self@.ids.len() >= ORDERS_PER_LEVEL),
    {
        self.order_count as usize >= ORDERS_PER_LEVEL
    }

    pub(crate) fn push(&mut self, order_id: u32)
        requires
            old(self).wf(),
            old(self)@.ids.len() < ORDERS_PER_LEVEL,
        ensures
            final(self).wf(),
            final(self)@ == (LevelView { ids: old(self)@.ids.push(order_id), ..old(self)@ }),
    {
        self.order_ids.push(order_id);
        self.order_count = self.order_count + 1;
    }

    fn remove(&mut self, order_id: u32)
        requires
            old(self).wf(),
        ensures
            final(self).wf(),
            final(self)@ == (LevelView { ids: remove_id(old(self)@.ids, order_id), ..old(self)@ }),
    {
        let n = self.order_count as usize;
        let mut i: usize = 0;
        while i < n
            invariant
                n == self.order_ids@.len(),
                self.order_ids@ == old(self)@.ids,
                self.wf(),
                self.price == old(self)@.price,
                i <= n,
                forall|k: int| 0 <= k < i ==> self.order_ids@[k] != order_id,
            decreases n - i,
        {
            if self.order_ids[i] == order_id {
                proof {
                    let ids = self.order_ids@;
                    assert(ids.contains(order_id));
                    ids.index_of_first_ensures(order_id);
                    assert(ids.index_of_first(order_id) == Some(i as int));
                }
                self.order_ids.swap_remove(i);
                self.order_count = self.order_count - 1;
                return;
            }
            i = i + 1;
        }
        proof {
            self.order_ids@.index_of_first_ensures(order_id);
        }
    }

    fn first_order_id(&self) -> (id: u32)
        requires
            self.wf(),
            self@.ids.len() > 0,
        ensures
            id == self@.ids[0],
    {
        self.order_ids[0]
    }

    /// Fills an incoming order on side `taker` against this level, appending the trades.
    /// Returns how much of `remaining` is still wanted afterwards.
    pub fn fill(&mut self, pool: &mut OrderPool, remaining: u32, taker: OrderSide, trades: &mut Vec<Trade>) -> (left: u32)
        requires
            old(self).wf(),
            old(pool).wf(),
            ids_resting(old(pool).model(), old(self)@.ids, resting_side(taker)),
        ensures
            final(self).wf(),
            final(pool).wf(),
            ({
                let f = take_from_level(old(pool).model(), old(self)@.ids, old(self)@.price, remaining, taker);
                &&& final(pool).model() == f.pool
                &&& final(self)@ == (LevelView { ids: f.ids, ..old(self)@ })
                &&& left == f.remaining
                &&& final(trades)@ == old(trades)@ + f.trades
            }),
            ids_resting(final(pool).model(), final(self)@.ids, resting_side(taker)),
            forall|id: u32| final(self)@.ids.contains(id) ==> old(self)@.ids.contains(id),
            agree_outside(old(pool).model(), final(pool).model(), old(self)@.ids),
            final(pool).model().next_id == old(pool).model().next_id,
    {
        let ghost ids0 = self@.ids;
        let ghost pool0 = pool.model();
        let ghost trades0 = trades@;
        let ghost f0 = take_from_level(pool0, ids0, self.price, remaining, taker);
        let ghost side = resting_side(taker);
        let mut remaining = remaining;
        while self.order_count > 0 && remaining > 0
            invariant
                self.wf(),
                pool.wf(),
                self.price == old(self)@.price,
                ids_resting(pool.model(), self@.ids, side),
                forall|id: u32| self@.ids.contains(id) ==> ids0.contains(id),
                agree_outside(pool0, pool.model(), ids0),
                pool.model().next_id == pool0.next_id,
                ({
                    let fc = take_from_level(pool.model(), self@.ids, self.price, remaining, taker);
                    &&& f0.pool == fc.pool
                    &&& f0.ids == fc.ids
                    &&& f0.remaining == fc.remaining
                    &&& trades0 + f0.trades == trades@ + fc.trades
                }),
            decreases self@.ids.len(), remaining,
        {
            let ghost ids = self@.ids;
            let ghost pm = pool.model();
            let ghost tr = trades@;
            let order_id = self.first_order_id();
            let resting_qty = pool.get(order_id).remaining;
            let fill_qty = if remaining < resting_qty { remaining } else { resting_qty };
            let fill_price = self.price;
            remaining = remaining - fill_qty;
            let o = *pool.get(order_id);
            let new_remaining = o.remaining - fill_qty;
            let updated = Order {
                remaining: new_remaining,
                status: if new_remaining == 0 {
                    OrderStatus::Filled
                } else {
                    OrderStatus::PartiallyFilled
                },
                ..o
            };
            pool.set(order_id, updated);
            let resting_side = pool.get(order_id).side;
            let t = match taker {
                OrderSide::Buy => match resting_side {
                    OrderSide::Sell => Trade {
                        buy_order_id: u32::MAX,
                        sell_order_id: order_id,
                        price: fill_price,
                        quantity: fill_qty,
                    },
                    OrderSide::Buy => Trade {
                        buy_order_id: order_id,
                        sell_order_id: u32::MAX,
                        price: fill_price,
                        quantity: fill_qty,
                    },
                },
                OrderSide::Sell => Trade {
                    buy_order_id: order_id,
                    sell_order_id: u32::MAX,
                    price: fill_price,
                    quantity: fill_qty,
                },
            };
            trades.push(t);
            proof {
                assert(t == trade_for(taker, pm.orders[order_id], order_id, fill_price, fill_qty));
                assert(updated == filled(pm.orders[order_id], fill_qty));
            }
            if pool.get(order_id).remaining == 0 {
                self.remove(order_id);
                pool.free(order_id);
                proof {
                    ids.index_of_first_ensures(order_id);
                    assert(ids.index_of_first(order_id) == Some(0int));
                    assert(ids.contains(ids[0]));
                    let nids = self@.ids;
                    assert(nids =~= ids.update(0, ids.last()).drop_last());
                    assert forall|a: int, b: int| 0 <= a < b < nids.len() implies nids[a] != nids[b] by {
                        if a == 0 {
                            assert(nids[a] == ids[ids.len() - 1]);
                            assert(nids[b] == ids[b]);
                        } else {
                            assert(nids[a] == ids[a]);
                            assert(nids[b] == ids[b]);
                        }
                    }
                    assert forall|k: int| 0 <= k < nids.len() implies resting(pool.model(), #[trigger] nids[k], side) by {
                        let j = if k == 0 { ids.len() - 1 } else { k };
                        assert(nids[k] == ids[j]);
                        assert(ids[j] != ids[0]);
                        assert(resting(pm, ids[j], side));
                    }
                    assert forall|id: u32| nids.contains(id) implies ids0.contains(id) by {
                        let k = choose|k: int| 0 <= k < nids.len() && nids[k] == id;
                        let j = if k == 0 { ids.len() - 1 } else { k };
                        assert(nids[k] == ids[j]);
                        assert(ids.contains(ids[j]));
                    }
                    assert(ids0.contains(order_id));
                    assert(trades@ =~= tr.push(t));
                    let rest = take_from_level(pool.model(), nids, fill_price, remaining, taker);
                    assert(take_from_level(pm, ids, fill_price, (remaining + fill_qty) as u32, taker).trades
                        == seq![t] + rest.trades);
                    assert(tr + (seq![t] + rest.trades) =~= trades@ + rest.trades);
                }
            } else {
                proof {
                    assert(remaining == 0);
                    assert(ids0.contains(order_id)) by {
                        assert(ids.contains(ids[0]));
                    };
                    assert forall|k: int| 0 <= k < ids.len() implies resting(pool.model(), #[trigger] ids[k], side) by {
                        if k != 0 {
                            assert(ids[k] != ids[0]);
                        }
                    }
                    assert(trades@ =~= tr.push(t));
                    assert(tr + seq![t] =~= trades@ + Seq::<Trade>::empty());
                }
            }
        }
        proof {
            assert(trades0 + f0.trades =~= trades@);
            assert(take_from_level(pool.model(), self@.ids, self.price, remaining, taker).trades
                == Seq::<Trade>::empty());
            assert(trades@ + Seq::<Trade>::empty() =~= trades@);
        }
        remaining
    }
}

/// When filling stops with orders left at the level, nothing more is wanted.
pub proof fn lemma_take_leftover(pool: PoolModel, ids: Seq<u32>, price: u64, remaining: u32, taker: OrderSide)
    ensures
        take_from_level(pool, ids, price, remaining, taker).ids.len() > 0 ==> take_from_level(
            pool,
            ids,
            price,
            remaining,
            taker,
        ).remaining == 0,
    decreases ids.len(),
{
    if ids.len() > 0 && remaining > 0 {
        let id = ids[0];
        let o = pool.orders[id];
        let fill = min_u32(remaining, o.remaining);
        if o.remaining - fill == 0 {
            lemma_take_leftover(
                pool_free(pool_set(pool, id, filled(o, fill)), id),
                ids.update(0, ids.last()).drop_last(),
                price,
                (remaining - fill) as u32,
                taker,
            );
        }
    }
}

/// Every trade made at one level has that level's price.
pub proof fn lemma_take_prices(pool: PoolModel, ids: Seq<u32>, price: u64, remaining: u32, taker: OrderSide)
    ensures
        forall|k: int| 0 <= k < take_from_level(pool, ids, price, remaining, taker).trades.len()
            ==> (#[trigger] take_from_level(pool, ids, price, remaining, taker).trades[k]).price == price,
    decreases ids.len(),
{
    let f = take_from_level(pool, ids, price, remaining, taker);
    if ids.len() > 0 && remaining > 0 {
        let id = ids[0];
        let o = pool.orders[id];
        let fill = min_u32(remaining, o.remaining);
        let t = trade_for(taker, o, id, price, fill);
        assert(t.price == price);
        if o.remaining - fill == 0 {
            let p2 = pool_free(pool_set(pool, id, filled(o, fill)), id);
            let ids2 = ids.update(0, ids.last()).drop_last();
            let r = (remaining - fill) as u32;
            lemma_take_prices(p2, ids2, price, r, taker);
            let rest = take_from_level(p2, ids2, price, r, taker);
            assert(f.trades == seq![t] + rest.trades);
            assert forall|k: int| 0 <= k < f.trades.len() implies (#[trigger] f.trades[k]).price == price by {
                if k > 0 {
                    assert(f.trades[k] == rest.trades[k - 1]);
                }
            }
        }
    }
}

/// The side of the orders an incoming order on side `taker` trades against.
pub open spec fn resting_side(taker: OrderSide) -> OrderSide {
    match taker {
        OrderSide::Buy => OrderSide::Sell,
        OrderSide::Sell => OrderSide::Buy,
    }
}

} // verus!
