//! The limit order book: price levels on each side, matching of incoming orders against
//! the best opposite prices, and resting of what is left.
use vstd::prelude::*;

use crate::lob::level::{
    agree_outside, distinct_ids, filled, min_u32, trade_for, ids_resting, lemma_take_leftover, lemma_take_prices, resting, resting_side, take_from_level, LevelView, PriceLevel,
    ORDERS_PER_LEVEL,
};
use crate::lob::pool::{pool_free, pool_set, lemma_alloc_is_fresh, model_ok, next_alloc_id, pool_alloc, OrderPool, PoolModel};
use crate::lob::types::{OrderRequest, OrderSide, Trade};

verus! {

pub const MAX_PRICE_LEVELS: usize = 512;

/// `a` is at least as good a price as `b` for resting orders of `side`
/// (higher for bids, lower for asks).
pub open spec fn better_or_equal(side: OrderSide, a: u64, b: u64) -> bool {
    match side {
        OrderSide::Buy => a >= b,
        OrderSide::Sell => a <= b,
    }
}

/// `a` is a strictly better price than `b` for resting orders of `side`.
pub open spec fn strictly_better(side: OrderSide, a: u64, b: u64) -> bool {
    match side {
        OrderSide::Buy => a > b,
        OrderSide::Sell => a < b,
    }
}

/// An incoming order on side `taker` with limit `limit` may trade at `level_price`.
pub open spec fn crosses(taker: OrderSide, level_price: u64, limit: u64) -> bool {
    match taker {
        OrderSide::Buy => level_price <= limit,
        OrderSide::Sell => level_price >= limit,
    }
}

/// The levels of one side of a well-formed book: at most `MAX_PRICE_LEVELS` non-empty levels,
/// best price first, holding distinct resting orders of that side.
pub open spec fn side_ok(pool: PoolModel, ls: Seq<LevelView>, side: OrderSide) -> bool {
    &&& ls.len() <= MAX_PRICE_LEVELS
    &&& forall|i: int|
        0 <= i < ls.len() ==> 1 <= (#[trigger] ls[i]).ids.len() <= ORDERS_PER_LEVEL && ids_resting(
            pool,
            ls[i].ids,
            side,
        )
    &&& forall|i: int, j: int|
        0 <= i < j < ls.len() ==> better_or_equal(side, (#[trigger] ls[i]).price, (#[trigger] ls[j]).price)
    &&& forall|i: int, j: int, id: u32|
        #![trigger ls[i].ids.contains(id), ls[j].ids.contains(id)]
        0 <= i < ls.len() && 0 <= j < ls.len() && i != j && ls[i].ids.contains(id)
            ==> !ls[j].ids.contains(id)
}

/// Every live order of `side` in `p1` is unchanged in `p2`.
pub open spec fn same_on_side(p1: PoolModel, p2: PoolModel, side: OrderSide) -> bool {
    forall|id: u32|
        p1.orders.dom().contains(id) && p1.orders[id].side == side ==> p2.orders.dom().contains(id)
            && p2.orders[id] == p1.orders[id]
}

/// The number of levels of `ls` whose price is strictly better than `price`.
pub open spec fn count_before(ls: Seq<LevelView>, price: u64, side: OrderSide) -> int
    decreases ls.len(),
{
    if ls.len() == 0 {
        0
    } else {
        count_before(ls.drop_last(), price, side) + if strictly_better(side, ls.last().price, price) {
            1int
        } else {
            0int
        }
    }
}

/// The levels after resting order `id` at `price`: it joins the level at that price when it
/// has room, otherwise a new level is made there; nothing changes when the side already has
/// `MAX_PRICE_LEVELS` levels.
pub open spec fn insert_order(ls: Seq<LevelView>, price: u64, id: u32, side: OrderSide) -> Seq<LevelView> {
    if ls.len() >= MAX_PRICE_LEVELS {
        ls
    } else {
        let pos = count_before(ls, price, side);
        if pos < ls.len() && ls[pos].price == price && ls[pos].ids.len() < ORDERS_PER_LEVEL {
            ls.update(pos, LevelView { price, ids: ls[pos].ids.push(id) })
        } else {
            ls.insert(pos, LevelView { price, ids: seq![id] })
        }
    }
}

/// What matching against one side leaves: the pool, that side's levels, the quantity still
/// wanted, and the trades made.
pub struct MatchResult {
    pub pool: PoolModel,
    pub levels: Seq<LevelView>,
    pub remaining: u32,
    pub trades: Seq<Trade>,
}

/// Matches `remaining` units of an incoming order on side `taker` with limit `limit` against
/// `ls`, best level first, for as long as the best level's price crosses the limit.
pub open spec fn match_levels(pool: PoolModel, ls: Seq<LevelView>, limit: u64, remaining: u32, taker: OrderSide) -> MatchResult
    decreases ls.len(),
{
    if remaining == 0 || ls.len() == 0 || !crosses(taker, ls[0].price, limit) {
        MatchResult { pool, levels: ls, remaining, trades: seq![] }
    } else {
        let f = take_from_level(pool, ls[0].ids, ls[0].price, remaining, taker);
        if f.ids.len() == 0 {
            let r = match_levels(f.pool, ls.drop_first(), limit, f.remaining, taker);
            MatchResult { trades: f.trades + r.trades, ..r }
        } else {
            MatchResult {
                pool: f.pool,
                levels: ls.update(0, LevelView { price: ls[0].price, ids: f.ids }),
                remaining: f.remaining,
                trades: f.trades,
            }
        }
    }
}

/// The abstract state of a book.
pub struct BookModel {
    pub pool: PoolModel,
    pub bids: Seq<LevelView>,
    pub asks: Seq<LevelView>,
    pub last_trade_price: u64,
}

/// The book after an incoming order, and the trades it made: it is matched against the
/// opposite side, and what is left rests on its own side at its limit price.
pub open spec fn process(m: BookModel, req: OrderRequest) -> (BookModel, Seq<Trade>) {
    let opposite = match req.side {
        OrderSide::Buy => m.asks,
        OrderSide::Sell => m.bids,
    };
    let own = match req.side {
        OrderSide::Buy => m.bids,
        OrderSide::Sell => m.asks,
    };
    let r = match_levels(m.pool, opposite, req.price, req.quantity, req.side);
    let last = if r.trades.len() > 0 {
        r.trades.last().price
    } else {
        m.last_trade_price
    };
    let (pool, own2) = if r.remaining == 0 {
        (r.pool, own)
    } else {
        match next_alloc_id(r.pool) {
            None => (r.pool, own),
            Some(id) => (
                pool_alloc(r.pool, req.side, req.price, r.remaining),
                insert_order(own, req.price, id, req.side),
            ),
        }
    };
    let book = match req.side {
        OrderSide::Buy => BookModel { pool, bids: own2, asks: r.levels, last_trade_price: last },
        OrderSide::Sell => BookModel { pool, bids: r.levels, asks: own2, last_trade_price: last },
    };
    (book, r.trades)
}

/// The views of a sequence of levels.
pub open spec fn levels_view(v: Seq<PriceLevel>) -> Seq<LevelView> {
    v.map_values(|l: PriceLevel| l@)
}

/// Every level of `v` is well formed.
pub open spec fn levels_wf(v: Seq<PriceLevel>) -> bool {
    forall|i: int| 0 <= i < v.len() ==> (#[trigger] v[i]).wf()
}

proof fn lemma_side_ok_frame(p1: PoolModel, p2: PoolModel, ls: Seq<LevelView>, side: OrderSide)
    requires
        side_ok(p1, ls, side),
        forall|i: int, k: int|
            0 <= i < ls.len() && 0 <= k < ls[i].ids.len() ==> resting(p2, ls[i].ids[k], side),
    ensures
        side_ok(p2, ls, side),
{
    assert forall|i: int| 0 <= i < ls.len() implies 1 <= (#[trigger] ls[i]).ids.len() <= ORDERS_PER_LEVEL
        && ids_resting(p2, ls[i].ids, side) by {
        assert forall|k: int| 0 <= k < ls[i].ids.len() implies resting(p2, #[trigger] ls[i].ids[k], side) by {
            assert(resting(p2, ls[i].ids[k], side));
        }
    }
}

proof fn lemma_side_ok_same(p1: PoolModel, p2: PoolModel, ls: Seq<LevelView>, side: OrderSide)
    requires
        side_ok(p1, ls, side),
        same_on_side(p1, p2, side),
    ensures
        side_ok(p2, ls, side),
{
    assert forall|i: int, k: int| 0 <= i < ls.len() && 0 <= k < ls[i].ids.len() implies resting(
        p2,
        ls[i].ids[k],
        side,
    ) by {
        assert(ls[i].ids[k] == ls[i].ids[k]);
        assert(resting(p1, ls[i].ids[k], side));
    }
    lemma_side_ok_frame(p1, p2, ls, side);
}

proof fn lemma_count_before_prefix(ls: Seq<LevelView>, price: u64, side: OrderSide, k: int)
    requires
        0 <= k <= ls.len(),
        forall|i: int| 0 <= i < k ==> strictly_better(side, ls[i].price, price),
        forall|i: int| k <= i < ls.len() ==> !strictly_better(side, ls[i].price, price),
    ensures
        count_before(ls, price, side) == k,
    decreases ls.len(),
{
    if ls.len() > 0 {
        if k == ls.len() {
            lemma_count_before_prefix(ls.drop_last(), price, side, k - 1);
        } else {
            lemma_count_before_prefix(ls.drop_last(), price, side, k);
        }
    }
}

/// Index of the first level of `levels` whose price is not strictly better than `price`.
fn find_insert_pos(levels: &Vec<PriceLevel>, price: u64, side: OrderSide) -> (pos: usize)
    requires
        forall|i: int, j: int|
            0 <= i < j < levels@.len() ==> better_or_equal(side, levels@[i]@.price, levels@[j]@.price),
    ensures
        pos == count_before(levels_view(levels@), price, side),
        pos <= levels@.len(),
{
    let ghost ls = levels_view(levels@);
    let mut lo: usize = 0;
    let mut hi: usize = levels.len();
    while lo < hi
        invariant
            lo <= hi <= levels@.len(),
            ls == levels_view(levels@),
            forall|i: int, j: int|
                0 <= i < j < levels@.len() ==> better_or_equal(side, levels@[i]@.price, levels@[j]@.price),
            forall|k: int| 0 <= k < lo ==> strictly_better(side, levels@[k]@.price, price),
            forall|k: int| hi <= k < levels@.len() ==> !strictly_better(side, levels@[k]@.price, price),
        decreases hi - lo,
    {
        let mid = lo + (hi - lo) / 2;
        let p = levels[mid].price();
        let not_better = match side {
            OrderSide::Buy => p <= price,
            OrderSide::Sell => p >= price,
        };
        if not_better {
            assert forall|k: int| mid <= k < levels@.len() implies !strictly_better(side, levels@[k]@.price, price) by {
                if k > mid {
                    assert(better_or_equal(side, levels@[mid as int]@.price, levels@[k]@.price));
                }
            }
            hi = mid;
        } else {
            assert forall|k: int| 0 <= k <= mid implies strictly_better(side, levels@[k]@.price, price) by {
                if k < mid {
                    assert(better_or_equal(side, levels@[k]@.price, levels@[mid as int]@.price));
                }
            }
            lo = mid + 1;
        }
    }
    proof {
        assert forall|k: int| 0 <= k < ls.len() implies ls[k].price == levels@[k]@.price by {}
        lemma_count_before_prefix(ls, price, side, lo as int);
    }
    lo
}

/// Rests order `order_id` at `price` on the side whose levels are `levels`.
fn insert_into(levels: &mut Vec<PriceLevel>, pool: Ghost<PoolModel>, price: u64, order_id: u32, side: OrderSide)
    requires
        side_ok(pool@, levels_view(old(levels)@), side),
        levels_wf(old(levels)@),
        resting(pool@, order_id, side),
        forall|i: int| 0 <= i < old(levels)@.len() ==> !(#[trigger] old(levels)@[i])@.ids.contains(order_id),
    ensures
        levels_wf(final(levels)@),
        levels_view(final(levels)@) == insert_order(levels_view(old(levels)@), price, order_id, side),
        side_ok(pool@, levels_view(final(levels)@), side),
{
    let ghost ls = levels_view(levels@);
    if levels.len() >= MAX_PRICE_LEVELS {
        return;
    }
    proof {
        assert forall|i: int, j: int| 0 <= i < j < levels@.len() implies better_or_equal(
            side,
            levels@[i]@.price,
            levels@[j]@.price,
        ) by {
            assert(ls[i] == levels@[i]@);
            assert(ls[j] == levels@[j]@);
        }
        assert forall|i: int| 0 <= i < ls.len() implies !ls[i].ids.contains(order_id) by {
            assert(ls[i] == old(levels)@[i]@);
        }
    }
    let pos = find_insert_pos(levels, price, side);
    proof {
        lemma_count_before_sorted(ls, price, side);
    }
    if pos < levels.len() && levels[pos].price() == price && !levels[pos].is_full() {
        let mut level = levels.remove(pos);
        level.push(order_id);
        levels.insert(pos, level);
        proof {
            assert(levels_view(levels@) =~= ls.update(
                pos as int,
                LevelView { price, ids: ls[pos as int].ids.push(order_id) },
            ));
            lemma_insert_into_level(pool@, ls, pos as int, price, order_id, side);
            assert forall|i: int| 0 <= i < levels@.len() implies (#[trigger] levels@[i]).wf() by {
                if i != pos {
                    assert(levels@[i] == old(levels)@[i]);
                }
            }
        }
    } else {
        let mut level = PriceLevel::new(price);
        level.push(order_id);
        levels.insert(pos, level);
        proof {
            assert(levels_view(levels@) =~= ls.insert(pos as int, LevelView { price, ids: seq![order_id] }));
            lemma_insert_new_level(pool@, ls, pos as int, price, order_id, side);
            assert forall|i: int| 0 <= i < levels@.len() implies (#[trigger] levels@[i]).wf() by {
                if i < pos {
                    assert(levels@[i] == old(levels)@[i]);
                } else if i > pos {
                    assert(levels@[i] == old(levels)@[i - 1]);
                }
            }
        }
    }
}

proof fn lemma_insert_into_level(pool: PoolModel, ls: Seq<LevelView>, pos: int, price: u64, id: u32, side: OrderSide)
    requires
        side_ok(pool, ls, side),
        resting(pool, id, side),
        forall|i: int| 0 <= i < ls.len() ==> !ls[i].ids.contains(id),
        0 <= pos < ls.len(),
        ls[pos].price == price,
        ls[pos].ids.len() < ORDERS_PER_LEVEL,
    ensures
        side_ok(pool, ls.update(pos, LevelView { price, ids: ls[pos].ids.push(id) }), side),
{
    let nls = ls.update(pos, LevelView { price, ids: ls[pos].ids.push(id) });
    let nids = nls[pos].ids;
    assert(nids =~= ls[pos].ids.push(id));
    assert forall|i: int| 0 <= i < nls.len() implies 1 <= (#[trigger] nls[i]).ids.len() <= ORDERS_PER_LEVEL
        && ids_resting(pool, nls[i].ids, side) by {
        if i == pos {
            assert forall|a: int, b: int| 0 <= a < b < nids.len() implies nids[a] != nids[b] by {
                if b == nids.len() - 1 {
                    assert(nids[a] == ls[pos].ids[a]);
                    assert(ls[pos].ids.contains(nids[a]));
                } else {
                    assert(nids[a] == ls[pos].ids[a]);
                    assert(nids[b] == ls[pos].ids[b]);
                }
            }
            assert forall|k: int| 0 <= k < nids.len() implies resting(pool, #[trigger] nids[k], side) by {
                if k < nids.len() - 1 {
                    assert(nids[k] == ls[pos].ids[k]);
                }
            }
        }
    }
    assert forall|i: int, j: int| 0 <= i < j < nls.len() implies better_or_equal(
        side,
        (#[trigger] nls[i]).price,
        (#[trigger] nls[j]).price,
    ) by {
        assert(ls[i].price == nls[i].price);
        assert(ls[j].price == nls[j].price);
    }
    assert forall|i: int, j: int, x: u32|
        #![trigger nls[i].ids.contains(x), nls[j].ids.contains(x)]
        0 <= i < nls.len() && 0 <= j < nls.len() && i != j && nls[i].ids.contains(x)
            implies !nls[j].ids.contains(x) by {
        if i == pos {
            let k = choose|k: int| 0 <= k < nids.len() && nids[k] == x;
            if k < nids.len() - 1 {
                assert(ls[i].ids[k] == x);
                assert(ls[i].ids.contains(x));
                assert(nls[j] == ls[j]);
            } else {
                assert(x == id);
                assert(nls[j] == ls[j]);
            }
        } else if j == pos {
            assert(nls[i] == ls[i]);
            if nls[j].ids.contains(x) {
                let k = choose|k: int| 0 <= k < nids.len() && nids[k] == x;
                if k < nids.len() - 1 {
                    assert(ls[j].ids[k] == x);
                    assert(ls[j].ids.contains(x));
                } else {
                    assert(x == id);
                }
            }
        } else {
            assert(nls[i] == ls[i]);
            assert(nls[j] == ls[j]);
        }
    }
}

proof fn lemma_insert_new_level(pool: PoolModel, ls: Seq<LevelView>, pos: int, price: u64, id: u32, side: OrderSide)
    requires
        side_ok(pool, ls, side),
        resting(pool, id, side),
        forall|i: int| 0 <= i < ls.len() ==> !ls[i].ids.contains(id),
        ls.len() < MAX_PRICE_LEVELS,
        0 <= pos <= ls.len(),
        forall|i: int| 0 <= i < pos ==> strictly_better(side, ls[i].price, price),
        forall|i: int| pos <= i < ls.len() ==> !strictly_better(side, ls[i].price, price),
    ensures
        side_ok(pool, ls.insert(pos, LevelView { price, ids: seq![id] }), side),
{
    let nl = LevelView { price, ids: seq![id] };
    let nls = ls.insert(pos, nl);
    assert(nls[pos] == nl);
    assert forall|i: int| 0 <= i < nls.len() implies 1 <= (#[trigger] nls[i]).ids.len() <= ORDERS_PER_LEVEL
        && ids_resting(pool, nls[i].ids, side) by {
        if i < pos {
            assert(nls[i] == ls[i]);
        } else if i > pos {
            assert(nls[i] == ls[i - 1]);
        }
    }
    assert forall|i: int, j: int| 0 <= i < j < nls.len() implies better_or_equal(
        side,
        (#[trigger] nls[i]).price,
        (#[trigger] nls[j]).price,
    ) by {
        if j < pos {
            assert(nls[i] == ls[i]);
            assert(nls[j] == ls[j]);
        } else if i > pos {
            assert(nls[i] == ls[i - 1]);
            assert(nls[j] == ls[j - 1]);
        } else if i == pos {
            assert(nls[j] == ls[j - 1]);
        } else if j == pos {
            assert(nls[i] == ls[i]);
        } else {
            assert(nls[i] == ls[i]);
            assert(nls[j] == ls[j - 1]);
        }
    }
    assert forall|i: int, j: int, x: u32|
        #![trigger nls[i].ids.contains(x), nls[j].ids.contains(x)]
        0 <= i < nls.len() && 0 <= j < nls.len() && i != j && nls[i].ids.contains(x)
            implies !nls[j].ids.contains(x) by {
        let oi = if i < pos { i } else { i - 1 };
        let oj = if j < pos { j } else { j - 1 };
        if i == pos {
            let k = choose|k: int| 0 <= k < nl.ids.len() && nl.ids[k] == x;
            assert(x == id);
            assert(nls[j] == ls[oj]);
        } else if j == pos {
            assert(nls[i] == ls[oi]);
            if nls[j].ids.contains(x) {
                let k = choose|k: int| 0 <= k < nl.ids.len() && nl.ids[k] == x;
                assert(x == id);
            }
        } else {
            assert(nls[i] == ls[oi]);
            assert(nls[j] == ls[oj]);
        }
    }
}

pub(crate) proof fn lemma_count_before_sorted(ls: Seq<LevelView>, price: u64, side: OrderSide)
    requires
        forall|i: int, j: int| 0 <= i < j < ls.len() ==> better_or_equal(side, ls[i].price, ls[j].price),
    ensures
        0 <= count_before(ls, price, side) <= ls.len(),
        forall|i: int| 0 <= i < count_before(ls, price, side) ==> strictly_better(side, ls[i].price, price),
        forall|i: int| count_before(ls, price, side) <= i < ls.len() ==> !strictly_better(side, ls[i].price, price),
    decreases ls.len(),
{
    if ls.len() > 0 {
        let d = ls.drop_last();
        lemma_count_before_sorted(d, price, side);
        let c = count_before(d, price, side);
        assert forall|i: int| 0 <= i < d.len() implies d[i] == ls[i] by {}
        if strictly_better(side, ls.last().price, price) {
            assert forall|i: int| 0 <= i < ls.len() implies strictly_better(side, ls[i].price, price) by {
                if i < ls.len() - 1 {
                    assert(better_or_equal(side, ls[i].price, ls[ls.len() - 1].price));
                }
            }
        } else {
            assert forall|i: int| c <= i < ls.len() implies !strictly_better(side, ls[i].price, price) by {
                if i < ls.len() - 1 {
                    assert(d[i] == ls[i]);
                }
            }
            assert forall|i: int| 0 <= i < c implies strictly_better(side, ls[i].price, price) by {
                assert(d[i] == ls[i]);
            }
        }
    }
}

/// The book: its order pool, the bid levels (highest price first), the ask levels (lowest
/// price first), and the price of the latest trade.
pub struct OrderBook {
    pool: OrderPool,
    bid_levels: Vec<PriceLevel>,
    ask_levels: Vec<PriceLevel>,
    pub last_trade_price: u64,
}

impl OrderBook {
    /// The abstract state of the book.
    pub closed spec fn model(&self) -> BookModel {
        BookModel {
            pool: self.pool.model(),
            bids: levels_view(self.bid_levels@),
            asks: levels_view(self.ask_levels@),
            last_trade_price: self.last_trade_price,
        }
    }

    /// Both sides are well formed with respect to the pool, and the book is not crossed.
    pub closed spec fn wf(&self) -> bool {
        &&& self.pool.wf()
        &&& levels_wf(self.bid_levels@)
        &&& levels_wf(self.ask_levels@)
        &&& side_ok(self.pool.model(), levels_view(self.bid_levels@), OrderSide::Buy)
        &&& side_ok(self.pool.model(), levels_view(self.ask_levels@), OrderSide::Sell)
        &&& uncrossed(self.model())
    }

    /// Whatever orders a book has processed, its shape holds: on each side at most
    /// `MAX_PRICE_LEVELS` levels, best price first, each with 1 to `ORDERS_PER_LEVEL`
    /// distinct resting orders of that side with quantity left; and the best bid lies below
    /// the best ask; and the pool is consistent.
    pub proof fn lemma_book_shape(&self)
        requires
            self.wf(),
        ensures
            side_ok(self.model().pool, self.model().bids, OrderSide::Buy),
            side_ok(self.model().pool, self.model().asks, OrderSide::Sell),
            uncrossed(self.model()),
            crate::lob::pool::model_ok(self.model().pool),
    {
        self.pool.lemma_model_ok();
    }

    /// An empty book that allocates its orders from `pool`.
    pub fn new(pool: OrderPool) -> (b: Self)
        requires
            pool.wf(),
        ensures
            b.wf(),
            b.model() == (BookModel {
                pool: pool.model(),
                bids: Seq::empty(),
                asks: Seq::empty(),
                last_trade_price: 0,
            }),
    {
        let b = Self { pool, bid_levels: Vec::new(), ask_levels: Vec::new(), last_trade_price: 0 };
        assert(levels_view(b.bid_levels@) =~= Seq::<LevelView>::empty());
        assert(levels_view(b.ask_levels@) =~= Seq::<LevelView>::empty());
        b
    }

    /// Matches `req` against the book and rests what is left; returns the trades made.
    pub fn process_order(&mut self, req: OrderRequest) -> (trades: Vec<Trade>)
        requires
            old(self).wf(),
        ensures
            final(self).wf(),
            (final(self).model(), trades@) == process(old(self).model(), req),
    {
        match req.side {
            OrderSide::Buy => self.process_buy(req),
            OrderSide::Sell => self.process_sell(req),
        }
    }

    fn process_buy(&mut self, req: OrderRequest) -> (trades: Vec<Trade>)
        requires
            old(self).wf(),
            req.side == OrderSide::Buy,
        ensures
            final(self).wf(),
            (final(self).model(), trades@) == process(old(self).model(), req),
    {
        let ghost m0 = self.model();
        let mut trades: Vec<Trade> = Vec::with_capacity(16);
        let ghost bids0 = levels_view(self.bid_levels@);
        let remaining = match_against(
            &mut self.ask_levels,
            &mut self.pool,
            req.price,
            req.quantity,
            OrderSide::Buy,
            &mut trades,
            &mut self.last_trade_price,
        );
        proof {
            lemma_side_ok_same(m0.pool, self.pool.model(), bids0, OrderSide::Buy);
        }
        if remaining > 0 {
            let ghost p1 = self.pool.model();
            proof {
                self.pool.lemma_model_ok();
                lemma_alloc_is_fresh(p1);
            }
            let order_id = self.pool.allocate(OrderSide::Buy, req.price, remaining);
            if let Some(id) = order_id {
                proof {
                    self.lemma_fresh_order(p1, id, req.price, remaining, OrderSide::Buy);
                }
                insert_into(&mut self.bid_levels, Ghost(self.pool.model()), req.price, id, OrderSide::Buy);
            }
        }
        proof {
            lemma_process_keeps_uncrossed(m0, req);
        }
        trades
    }

    fn process_sell(&mut self, req: OrderRequest) -> (trades: Vec<Trade>)
        requires
            old(self).wf(),
            req.side == OrderSide::Sell,
        ensures
            final(self).wf(),
            (final(self).model(), trades@) == process(old(self).model(), req),
    {
        let ghost m0 = self.model();
        let mut trades: Vec<Trade> = Vec::with_capacity(16);
        let ghost asks0 = levels_view(self.ask_levels@);
        let remaining = match_against(
            &mut self.bid_levels,
            &mut self.pool,
            req.price,
            req.quantity,
            OrderSide::Sell,
            &mut trades,
            &mut self.last_trade_price,
        );
        proof {
            lemma_side_ok_same(m0.pool, self.pool.model(), asks0, OrderSide::Sell);
        }
        if remaining > 0 {
            let ghost p1 = self.pool.model();
            proof {
                self.pool.lemma_model_ok();
                lemma_alloc_is_fresh(p1);
            }
            if let Some(id) = self.pool.allocate(OrderSide::Sell, req.price, remaining) {
                proof {
                    self.lemma_fresh_order(p1, id, req.price, remaining, OrderSide::Sell);
                }
                insert_into(&mut self.ask_levels, Ghost(self.pool.model()), req.price, id, OrderSide::Sell);
            }
        }
        proof {
            lemma_process_keeps_uncrossed(m0, req);
        }
        trades
    }

    /// After allocating a fresh order, both sides stay well formed and the order is in no level.
    proof fn lemma_fresh_order(&self, p1: PoolModel, id: u32, price: u64, qty: u32, side: OrderSide)
        requires
            model_ok(p1),
            next_alloc_id(p1) == Some(id),
            !p1.orders.dom().contains(id),
            qty > 0,
            self.pool.model() == pool_alloc(p1, side, price, qty),
            side_ok(p1, levels_view(self.bid_levels@), OrderSide::Buy),
            side_ok(p1, levels_view(self.ask_levels@), OrderSide::Sell),
        ensures
            side_ok(self.pool.model(), levels_view(self.bid_levels@), OrderSide::Buy),
            side_ok(self.pool.model(), levels_view(self.ask_levels@), OrderSide::Sell),
            resting(self.pool.model(), id, side),
            forall|i: int| 0 <= i < self.bid_levels@.len() ==> !(#[trigger] self.bid_levels@[i])@.ids.contains(id),
            forall|i: int| 0 <= i < self.ask_levels@.len() ==> !(#[trigger] self.ask_levels@[i])@.ids.contains(id),
    {
        let p2 = self.pool.model();
        assert(same_on_side(p1, p2, OrderSide::Buy));
        assert(same_on_side(p1, p2, OrderSide::Sell));
        lemma_side_ok_same(p1, p2, levels_view(self.bid_levels@), OrderSide::Buy);
        lemma_side_ok_same(p1, p2, levels_view(self.ask_levels@), OrderSide::Sell);
        assert forall|i: int| 0 <= i < self.bid_levels@.len() implies !(#[trigger] self.bid_levels@[i])@.ids.contains(id) by {
            let ls = levels_view(self.bid_levels@);
            assert(ls[i] == self.bid_levels@[i]@);
            if ls[i].ids.contains(id) {
                let k = choose|k: int| 0 <= k < ls[i].ids.len() && ls[i].ids[k] == id;
                assert(resting(p1, ls[i].ids[k], OrderSide::Buy));
            }
        }
        assert forall|i: int| 0 <= i < self.ask_levels@.len() implies !(#[trigger] self.ask_levels@[i])@.ids.contains(id) by {
            let ls = levels_view(self.ask_levels@);
            assert(ls[i] == self.ask_levels@[i]@);
            if ls[i].ids.contains(id) {
                let k = choose|k: int| 0 <= k < ls[i].ids.len() && ls[i].ids[k] == id;
                assert(resting(p1, ls[i].ids[k], OrderSide::Sell));
            }
        }
    }

    /// The best bid price, if any.
    pub fn best_bid(&self) -> (r: Option<u64>)
        ensures
            r == (if self.model().bids.len() > 0 {
                Some(self.model().bids[0].price)
            } else {
                None
            }),
    {
        if self.bid_levels.len() > 0 {
            Some(self.bid_levels[0].price())
        } else {
            None
        }
    }

    /// The best ask price, if any.
    pub fn best_ask(&self) -> (r: Option<u64>)
        ensures
            r == (if self.model().asks.len() > 0 {
                Some(self.model().asks[0].price)
            } else {
                None
            }),
    {
        if self.ask_levels.len() > 0 {
            Some(self.ask_levels[0].price())
        } else {
            None
        }
    }

    /// The bid levels, best first.
    pub fn bid_levels(&self) -> (r: &[PriceLevel])
        ensures
            levels_view(r@) == self.model().bids,
    {
        self.bid_levels.as_slice()
    }

    /// The ask levels, best first.
    pub fn ask_levels(&self) -> (r: &[PriceLevel])
        ensures
            levels_view(r@) == self.model().asks,
    {
        self.ask_levels.as_slice()
    }
}

/// Matches an incoming order on side `taker` against `levels`, best level first, appending
/// the trades and recording the price of the latest one. Returns the quantity still wanted.
fn match_against(
    levels: &mut Vec<PriceLevel>,
    pool: &mut OrderPool,
    limit: u64,
    quantity: u32,
    taker: OrderSide,
    trades: &mut Vec<Trade>,
    last_trade_price: &mut u64,
) -> (left: u32)
    requires
        old(pool).wf(),
        levels_wf(old(levels)@),
        side_ok(old(pool).model(), levels_view(old(levels)@), resting_side(taker)),
        old(trades)@.len() == 0,
    ensures
        final(pool).wf(),
        levels_wf(final(levels)@),
        ({
            let r = match_levels(old(pool).model(), levels_view(old(levels)@), limit, quantity, taker);
            &&& final(pool).model() == r.pool
            &&& levels_view(final(levels)@) == r.levels
            &&& left == r.remaining
            &&& final(trades)@ == r.trades
            &&& *final(last_trade_price) == if r.trades.len() > 0 {
                r.trades.last().price
            } else {
                *old(last_trade_price)
            }
        }),
        side_ok(final(pool).model(), levels_view(final(levels)@), resting_side(taker)),
        same_on_side(old(pool).model(), final(pool).model(), taker),
        final(pool).model().next_id == old(pool).model().next_id,
{
    let ghost side = resting_side(taker);
    let ghost r0 = match_levels(pool.model(), levels_view(levels@), limit, quantity, taker);
    let ghost pool0 = pool.model();
    let mut remaining = quantity;
    loop
        invariant_except_break
            pool.wf(),
            levels_wf(levels@),
            side_ok(pool.model(), levels_view(levels@), side),
            same_on_side(pool0, pool.model(), taker),
            pool.model().next_id == pool0.next_id,
            side == resting_side(taker),
            r0 == match_levels(pool0, levels_view(old(levels)@), limit, quantity, taker),
            ({
                let rc = match_levels(pool.model(), levels_view(levels@), limit, remaining, taker);
                &&& r0.pool == rc.pool
                &&& r0.levels == rc.levels
                &&& r0.remaining == rc.remaining
                &&& r0.trades == trades@ + rc.trades
            }),
            *last_trade_price == if trades@.len() > 0 {
                trades@.last().price
            } else {
                *old(last_trade_price)
            },
        ensures
            pool.wf(),
            levels_wf(levels@),
            side_ok(pool.model(), levels_view(levels@), side),
            same_on_side(pool0, pool.model(), taker),
            pool.model().next_id == pool0.next_id,
            r0.pool == pool.model(),
            r0.levels == levels_view(levels@),
            r0.remaining == remaining,
            r0.trades == trades@,
            *last_trade_price == if trades@.len() > 0 {
                trades@.last().price
            } else {
                *old(last_trade_price)
            },
        decreases levels@.len(),
    {
        let ghost ls = levels_view(levels@);
        let ghost pm = pool.model();
        let ghost tr = trades@;
        if remaining == 0 || levels.len() == 0 {
            proof {
                assert(tr + Seq::<Trade>::empty() =~= tr);
            }
            break;
        }
        let best = levels[0].price();
        let crossing = match taker {
            OrderSide::Buy => best <= limit,
            OrderSide::Sell => best >= limit,
        };
        if !crossing {
            proof {
                assert(tr + Seq::<Trade>::empty() =~= tr);
            }
            break;
        }
        let mut level = levels.remove(0);
        proof {
            assert(level@ == ls[0]);
            assert(ids_resting(pm, ls[0].ids, side));
        }
        let before = trades.len();
        let ghost rem_before = remaining;
        remaining = level.fill(pool, remaining, taker, trades);
        if trades.len() > before {
            *last_trade_price = best;
        }
        proof {
            let f = take_from_level(pm, ls[0].ids, ls[0].price, rem_before, taker);
            let rest = ls.drop_first();
            assert(levels_view(levels@) =~= rest);
            // the orders of the other levels are untouched
            assert forall|i: int, k: int| 0 <= i < rest.len() && 0 <= k < rest[i].ids.len() implies resting(
                pool.model(),
                rest[i].ids[k],
                side,
            ) by {
                let id = rest[i].ids[k];
                assert(ls[i + 1] == rest[i]);
                assert(ls[i + 1].ids.contains(id));
                assert(!ls[0].ids.contains(id));
                assert(resting(pm, ls[i + 1].ids[k], side));
            }
            lemma_side_ok_frame(pm, pool.model(), rest, side);
            assert forall|id: u32| pm.orders.dom().contains(id) && pm.orders[id].side == taker implies pool.model().orders.dom().contains(id)
                && pool.model().orders[id] == pm.orders[id] by {
                if ls[0].ids.contains(id) {
                    let k = choose|k: int| 0 <= k < ls[0].ids.len() && ls[0].ids[k] == id;
                    assert(resting(pm, ls[0].ids[k], side));
                }
            }
            // trades made at this level all have the level's price
            lemma_take_prices(pm, ls[0].ids, ls[0].price, rem_before, taker);
            lemma_take_leftover(pm, ls[0].ids, ls[0].price, rem_before, taker);
            if f.trades.len() > 0 {
                assert(trades@.last() == f.trades.last());
                assert(f.trades[f.trades.len() - 1].price == ls[0].price);
            } else {
                assert(trades@ =~= tr);
            }
        }
        proof {
            level.lemma_wf_bound();
        }
        if level.order_count() == 0 {
            proof {
                assert(levels@.len() < ls.len());
                let f = take_from_level(pm, ls[0].ids, ls[0].price, rem_before, taker);
                let rc = match_levels(pool.model(), levels_view(levels@), limit, remaining, taker);
                assert(f.ids.len() == 0);
                assert(tr + (f.trades + rc.trades) =~= trades@ + rc.trades);
            }
        } else {
            levels.insert(0, level);
            proof {
                let nls = levels_view(levels@);
                let rest = ls.drop_first();
                assert(nls =~= ls.update(0, LevelView { price: ls[0].price, ids: level@.ids }));
                assert(remaining == 0);
                assert forall|i: int| 0 <= i < nls.len() implies 1 <= (#[trigger] nls[i]).ids.len()
                    <= ORDERS_PER_LEVEL && ids_resting(pool.model(), nls[i].ids, side) by {
                    if i > 0 {
                        assert(nls[i] == rest[i - 1]);
                    }
                }
                assert forall|i: int, j: int| 0 <= i < j < nls.len() implies better_or_equal(
                    side,
                    (#[trigger] nls[i]).price,
                    (#[trigger] nls[j]).price,
                ) by {
                    assert(nls[j] == ls[j]);
                    if i > 0 {
                        assert(nls[i] == ls[i]);
                    }
                }
                assert forall|i: int, j: int, id: u32|
                    #![trigger nls[i].ids.contains(id), nls[j].ids.contains(id)]
                    0 <= i < nls.len() && 0 <= j < nls.len() && i != j && nls[i].ids.contains(id)
                        implies !nls[j].ids.contains(id) by {
                    if i == 0 {
                        assert(ls[0].ids.contains(id));
                        assert(nls[j] == ls[j]);
                    } else if j == 0 {
                        assert(nls[i] == ls[i]);
                        if nls[j].ids.contains(id) {
                            assert(ls[0].ids.contains(id));
                        }
                    } else {
                        assert(nls[i] == ls[i]);
                        assert(nls[j] == ls[j]);
                    }
                }
            }
            break;
        }
    }
    remaining
}


/// The total quantity of a sequence of trades.
pub open spec fn total_quantity(ts: Seq<Trade>) -> int
    decreases ts.len(),
{
    if ts.len() == 0 {
        0
    } else {
        total_quantity(ts.drop_last()) + ts.last().quantity
    }
}

pub(crate) proof fn lemma_total_concat(a: Seq<Trade>, b: Seq<Trade>)
    ensures
        total_quantity(a + b) == total_quantity(a) + total_quantity(b),
    decreases b.len(),
{
    if b.len() > 0 {
        lemma_total_concat(a, b.drop_last());
        assert((a + b).drop_last() =~= a + b.drop_last());
    } else {
        assert(a + b =~= a);
    }
}

proof fn lemma_take_conserves(pool: PoolModel, ids: Seq<u32>, price: u64, remaining: u32, taker: OrderSide)
    requires
        forall|k: int| 0 <= k < ids.len() ==> pool.orders.dom().contains(#[trigger] ids[k]),
        distinct_ids(ids),
    ensures
        total_quantity(take_from_level(pool, ids, price, remaining, taker).trades) + take_from_level(
            pool,
            ids,
            price,
            remaining,
            taker,
        ).remaining == remaining,
    decreases ids.len(),
{
    if ids.len() > 0 && remaining > 0 {
        let id = ids[0];
        let o = pool.orders[id];
        let fill = min_u32(remaining, o.remaining);
        let t = trade_for(taker, o, id, price, fill);
        assert(total_quantity(seq![t]) == fill) by {
            assert(seq![t].drop_last() =~= Seq::<Trade>::empty());
            assert(seq![t].last() == t);
            assert(total_quantity(Seq::<Trade>::empty()) == 0);
            assert(t.quantity == fill);
        }
        if o.remaining - fill == 0 {
            let p2 = pool_free(pool_set(pool, id, filled(o, fill)), id);
            let ids2 = ids.update(0, ids.last()).drop_last();
            assert forall|k: int| 0 <= k < ids2.len() implies p2.orders.dom().contains(#[trigger] ids2[k]) by {
                let j = if k == 0 { ids.len() - 1 } else { k };
                assert(ids2[k] == ids[j]);
                assert(ids[j] != ids[0]);
            }
            assert forall|a: int, b: int| 0 <= a < b < ids2.len() implies ids2[a] != ids2[b] by {
                let ja = if a == 0 { ids.len() - 1 } else { a };
                assert(ids2[a] == ids[ja]);
                assert(ids2[b] == ids[b]);
            }
            lemma_take_conserves(p2, ids2, price, (remaining - fill) as u32, taker);
            let rest = take_from_level(p2, ids2, price, (remaining - fill) as u32, taker);
            lemma_total_concat(seq![t], rest.trades);
        }
    }
}

/// Matching conserves quantity: what was traded plus what is still wanted is what was asked for.
pub proof fn lemma_match_conserves(pool: PoolModel, ls: Seq<LevelView>, limit: u64, remaining: u32, taker: OrderSide)
    requires
        side_ok(pool, ls, resting_side(taker)),
    ensures
        total_quantity(match_levels(pool, ls, limit, remaining, taker).trades) + match_levels(
            pool,
            ls,
            limit,
            remaining,
            taker,
        ).remaining == remaining,
    decreases ls.len(),
{
    if remaining > 0 && ls.len() > 0 && crosses(taker, ls[0].price, limit) {
        let side = resting_side(taker);
        assert(1 <= ls[0].ids.len() && ids_resting(pool, ls[0].ids, side));
        assert forall|k: int| 0 <= k < ls[0].ids.len() implies pool.orders.dom().contains(#[trigger] ls[0].ids[k]) by {
            assert(resting(pool, ls[0].ids[k], side));
        }
        lemma_take_conserves(pool, ls[0].ids, ls[0].price, remaining, taker);
        let f = take_from_level(pool, ls[0].ids, ls[0].price, remaining, taker);
        if f.ids.len() == 0 {
            lemma_take_frame(pool, ls, remaining, taker);
            lemma_match_conserves(f.pool, ls.drop_first(), limit, f.remaining, taker);
            let r = match_levels(f.pool, ls.drop_first(), limit, f.remaining, taker);
            lemma_total_concat(f.trades, r.trades);
        }
    } else {
        assert(total_quantity(Seq::<Trade>::empty()) == 0);
    }
}

/// After filling the best level completely, the remaining levels are still well formed.
pub(crate) proof fn lemma_take_frame(pool: PoolModel, ls: Seq<LevelView>, remaining: u32, taker: OrderSide)
    requires
        side_ok(pool, ls, resting_side(taker)),
        ls.len() > 0,
    ensures
        side_ok(take_from_level(pool, ls[0].ids, ls[0].price, remaining, taker).pool, ls.drop_first(), resting_side(taker)),
{
    let side = resting_side(taker);
    let f = take_from_level(pool, ls[0].ids, ls[0].price, remaining, taker);
    lemma_take_agree(pool, ls[0].ids, ls[0].price, remaining, taker);
    let rest = ls.drop_first();
    assert forall|i: int, k: int| 0 <= i < rest.len() && 0 <= k < rest[i].ids.len() implies resting(
        f.pool,
        rest[i].ids[k],
        side,
    ) by {
        let id = rest[i].ids[k];
        assert(ls[i + 1] == rest[i]);
        assert(ls[i + 1].ids.contains(id));
        assert(!ls[0].ids.contains(id));
        assert(resting(pool, ls[i + 1].ids[k], side));
    }
    assert forall|i: int| 0 <= i < rest.len() implies 1 <= (#[trigger] rest[i]).ids.len() <= ORDERS_PER_LEVEL by {
        assert(ls[i + 1] == rest[i]);
    }
    assert forall|i: int, j: int| 0 <= i < j < rest.len() implies better_or_equal(side, (#[trigger] rest[i]).price, (#[trigger] rest[j]).price) by {
        assert(ls[i + 1] == rest[i]);
        assert(ls[j + 1] == rest[j]);
    }
    assert forall|i: int, j: int, x: u32|
        #![trigger rest[i].ids.contains(x), rest[j].ids.contains(x)]
        0 <= i < rest.len() && 0 <= j < rest.len() && i != j && rest[i].ids.contains(x)
            implies !rest[j].ids.contains(x) by {
        assert(ls[i + 1] == rest[i]);
        assert(ls[j + 1] == rest[j]);
    }
    lemma_side_ok_frame(pool, f.pool, rest, side);
}

/// Filling against one level only touches the orders of that level.
pub(crate) proof fn lemma_take_agree(pool: PoolModel, ids: Seq<u32>, price: u64, remaining: u32, taker: OrderSide)
    ensures
        agree_outside(pool, take_from_level(pool, ids, price, remaining, taker).pool, ids),
    decreases ids.len(),
{
    if ids.len() > 0 && remaining > 0 {
        let id = ids[0];
        let o = pool.orders[id];
        let fill = min_u32(remaining, o.remaining);
        assert(ids.contains(id));
        if o.remaining - fill == 0 {
            let p2 = pool_free(pool_set(pool, id, filled(o, fill)), id);
            let ids2 = ids.update(0, ids.last()).drop_last();
            lemma_take_agree(p2, ids2, price, (remaining - fill) as u32, taker);
            let f = take_from_level(pool, ids, price, remaining, taker);
            assert forall|x: u32| !ids.contains(x) implies (pool.orders.dom().contains(x) == f.pool.orders.dom().contains(x)
                && (pool.orders.dom().contains(x) ==> pool.orders[x] == f.pool.orders[x])) by {
                if ids2.contains(x) {
                    let k = choose|k: int| 0 <= k < ids2.len() && ids2[k] == x;
                    let j = if k == 0 { ids.len() - 1 } else { k };
                    assert(ids2[k] == ids[j]);
                    assert(ids.contains(ids[j]));
                }
            }
        }
    }
}

/// Every trade of an incoming order is at a price within its limit.
pub proof fn lemma_match_within_limit(pool: PoolModel, ls: Seq<LevelView>, limit: u64, remaining: u32, taker: OrderSide)
    ensures
        forall|k: int| 0 <= k < match_levels(pool, ls, limit, remaining, taker).trades.len() ==> crosses(
            taker,
            (#[trigger] match_levels(pool, ls, limit, remaining, taker).trades[k]).price,
            limit,
        ),
    decreases ls.len(),
{
    let r = match_levels(pool, ls, limit, remaining, taker);
    if remaining > 0 && ls.len() > 0 && crosses(taker, ls[0].price, limit) {
        lemma_take_prices(pool, ls[0].ids, ls[0].price, remaining, taker);
        let f = take_from_level(pool, ls[0].ids, ls[0].price, remaining, taker);
        if f.ids.len() == 0 {
            lemma_match_within_limit(f.pool, ls.drop_first(), limit, f.remaining, taker);
            let r2 = match_levels(f.pool, ls.drop_first(), limit, f.remaining, taker);
            assert forall|k: int| 0 <= k < r.trades.len() implies crosses(taker, (#[trigger] r.trades[k]).price, limit) by {
                if k < f.trades.len() {
                    assert(r.trades[k] == f.trades[k]);
                } else {
                    assert(r.trades[k] == r2.trades[k - f.trades.len()]);
                }
            }
        } else {
            assert forall|k: int| 0 <= k < r.trades.len() implies crosses(taker, (#[trigger] r.trades[k]).price, limit) by {
                assert(r.trades[k] == f.trades[k]);
            }
        }
    }
}

/// A book whose best bid is below its best ask.
pub open spec fn uncrossed(m: BookModel) -> bool {
    m.bids.len() > 0 && m.asks.len() > 0 ==> m.bids[0].price < m.asks[0].price
}

/// `rl` has the prices of `ls` from index `d` on.
pub open spec fn suffix_prices(rl: Seq<LevelView>, ls: Seq<LevelView>, d: int) -> bool {
    &&& 0 <= d <= ls.len()
    &&& rl.len() == ls.len() - d
    &&& forall|i: int| 0 <= i < rl.len() ==> (#[trigger] rl[i]).price == ls[i + d].price
}

/// The levels left after matching are the original ones from some point on (the first one
/// possibly with fewer orders); if something is still wanted, the best remaining level no
/// longer crosses the limit.
proof fn lemma_match_suffix(pool: PoolModel, ls: Seq<LevelView>, limit: u64, remaining: u32, taker: OrderSide)
    ensures
        ({
            let r = match_levels(pool, ls, limit, remaining, taker);
            &&& exists|d: int| #[trigger] suffix_prices(r.levels, ls, d)
            &&& r.remaining > 0 && r.levels.len() > 0 ==> !crosses(taker, r.levels[0].price, limit)
        }),
    decreases ls.len(),
{
    let r = match_levels(pool, ls, limit, remaining, taker);
    if remaining > 0 && ls.len() > 0 && crosses(taker, ls[0].price, limit) {
        let f = take_from_level(pool, ls[0].ids, ls[0].price, remaining, taker);
        lemma_take_leftover(pool, ls[0].ids, ls[0].price, remaining, taker);
        if f.ids.len() == 0 {
            lemma_match_suffix(f.pool, ls.drop_first(), limit, f.remaining, taker);
            let d = choose|d: int| #[trigger] suffix_prices(r.levels, ls.drop_first(), d);
            assert(suffix_prices(r.levels, ls, d + 1));
        } else {
            assert(suffix_prices(r.levels, ls, 0));
        }
    } else {
        assert(suffix_prices(r.levels, ls, 0));
    }
}

/// Processing an order keeps a well-formed book uncrossed: the best bid stays below the best ask.
pub proof fn lemma_process_keeps_uncrossed(m: BookModel, req: OrderRequest)
    requires
        side_ok(m.pool, m.bids, OrderSide::Buy),
        side_ok(m.pool, m.asks, OrderSide::Sell),
        uncrossed(m),
    ensures
        uncrossed(process(m, req).0),
{
    let m2 = process(m, req).0;
    match req.side {
        OrderSide::Buy => {
            let r = match_levels(m.pool, m.asks, req.price, req.quantity, OrderSide::Buy);
            lemma_match_suffix(m.pool, m.asks, req.price, req.quantity, OrderSide::Buy);
            if m2.bids.len() > 0 && m2.asks.len() > 0 {
                let d = choose|d: int| #[trigger] suffix_prices(r.levels, m.asks, d);
                assert(r.levels[0].price == m.asks[d].price);
                if d > 0 {
                    assert(better_or_equal(OrderSide::Sell, m.asks[0].price, m.asks[d].price));
                }
                if m2.bids == m.bids {
                } else {
                    let id = next_alloc_id(r.pool)->Some_0;
                    lemma_count_before_sorted(m.bids, req.price, OrderSide::Buy);
                    let pos = count_before(m.bids, req.price, OrderSide::Buy);
                    assert(r.remaining > 0);
                    if pos == 0 {
                        assert(m2.bids[0].price == req.price);
                    } else {
                        assert(m2.bids[0] == m.bids[0]);
                    }
                }
            }
        },
        OrderSide::Sell => {
            let r = match_levels(m.pool, m.bids, req.price, req.quantity, OrderSide::Sell);
            lemma_match_suffix(m.pool, m.bids, req.price, req.quantity, OrderSide::Sell);
            if m2.bids.len() > 0 && m2.asks.len() > 0 {
                let d = choose|d: int| #[trigger] suffix_prices(r.levels, m.bids, d);
                assert(r.levels[0].price == m.bids[d].price);
                if d > 0 {
                    assert(better_or_equal(OrderSide::Buy, m.bids[0].price, m.bids[d].price));
                }
                if m2.asks == m.asks {
                } else {
                    lemma_count_before_sorted(m.asks, req.price, OrderSide::Sell);
                    let pos = count_before(m.asks, req.price, OrderSide::Sell);
                    assert(r.remaining > 0);
                    if pos == 0 {
                        assert(m2.asks[0].price == req.price);
                    } else {
                        assert(m2.asks[0] == m.asks[0]);
                    }
                }
            }
        },
    }
}

} // verus!
