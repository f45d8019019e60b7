//! Quantity held by resting orders, and how matching and resting change it.
use vstd::prelude::*;

use crate::lob::book::{
    count_before, crosses, insert_order, lemma_count_before_sorted, lemma_match_conserves, lemma_take_agree,
    lemma_take_frame, lemma_total_concat, match_levels, process, same_on_side, side_ok, total_quantity,
    BookModel, MAX_PRICE_LEVELS,
};
use crate::lob::level::{
    distinct_ids, filled, ids_resting, min_u32, resting, resting_side, take_from_level, trade_for,
    LevelView,
};
use crate::lob::pool::{lemma_alloc_is_fresh, model_ok, next_alloc_id, pool_alloc, pool_free, pool_set, PoolModel};
use crate::lob::types::{OrderRequest, OrderSide, Trade};

verus! {

/// The quantity left on the orders `ids`.
pub open spec fn ids_qty(pool: PoolModel, ids: Seq<u32>) -> int
    decreases ids.len(),
{
    if ids.len() == 0 {
        0
    } else {
        ids_qty(pool, ids.drop_last()) + pool.orders[ids.last()].remaining
    }
}

/// The quantity left on the orders resting on the levels `ls`.
pub open spec fn side_qty(pool: PoolModel, ls: Seq<LevelView>) -> int
    decreases ls.len(),
{
    if ls.len() == 0 {
        0
    } else {
        side_qty(pool, ls.drop_last()) + ids_qty(pool, ls.last().ids)
    }
}

pub proof fn lemma_ids_qty_concat(pool: PoolModel, a: Seq<u32>, b: Seq<u32>)
    ensures
        ids_qty(pool, a + b) == ids_qty(pool, a) + ids_qty(pool, b),
    decreases b.len(),
{
    if b.len() == 0 {
        assert(a + b =~= a);
    } else {
        lemma_ids_qty_concat(pool, a, b.drop_last());
        assert((a + b).drop_last() =~= a + b.drop_last());
    }
}

pub proof fn lemma_ids_qty_frame(p1: PoolModel, p2: PoolModel, s: Seq<u32>)
    requires
        forall|k: int| 0 <= k < s.len() ==> p1.orders[#[trigger] s[k]].remaining == p2.orders[s[k]].remaining,
    ensures
        ids_qty(p1, s) == ids_qty(p2, s),
    decreases s.len(),
{
    if s.len() > 0 {
        let t = s.drop_last();
        assert forall|k: int| 0 <= k < t.len() implies p1.orders[#[trigger] t[k]].remaining == p2.orders[t[k]].remaining by {
            assert(t[k] == s[k]);
        }
        lemma_ids_qty_frame(p1, p2, t);
        assert(s.last() == s[s.len() - 1]);
    }
}

pub proof fn lemma_side_qty_concat(pool: PoolModel, a: Seq<LevelView>, b: Seq<LevelView>)
    ensures
        side_qty(pool, a + b) == side_qty(pool, a) + side_qty(pool, b),
    decreases b.len(),
{
    if b.len() == 0 {
        assert(a + b =~= a);
    } else {
        lemma_side_qty_concat(pool, a, b.drop_last());
        assert((a + b).drop_last() =~= a + b.drop_last());
    }
}

pub proof fn lemma_side_qty_frame(p1: PoolModel, p2: PoolModel, ls: Seq<LevelView>)
    requires
        forall|i: int, k: int|
            0 <= i < ls.len() && 0 <= k < ls[i].ids.len() ==> p1.orders[#[trigger] ls[i].ids[k]].remaining
                == p2.orders[ls[i].ids[k]].remaining,
    ensures
        side_qty(p1, ls) == side_qty(p2, ls),
    decreases ls.len(),
{
    if ls.len() > 0 {
        let t = ls.drop_last();
        assert forall|i: int, k: int|
            0 <= i < t.len() && 0 <= k < t[i].ids.len() implies p1.orders[#[trigger] t[i].ids[k]].remaining
                == p2.orders[t[i].ids[k]].remaining by {
            assert(t[i] == ls[i]);
        }
        lemma_side_qty_frame(p1, p2, t);
        let last = ls[ls.len() - 1];
        assert forall|k: int| 0 <= k < last.ids.len() implies p1.orders[#[trigger] last.ids[k]].remaining
            == p2.orders[last.ids[k]].remaining by {
            assert(ls[ls.len() - 1].ids[k] == last.ids[k]);
        }
        lemma_ids_qty_frame(p1, p2, last.ids);
    }
}

proof fn lemma_ids_qty_one(pool: PoolModel, x: u32)
    ensures
        ids_qty(pool, seq![x]) == pool.orders[x].remaining,
{
    let s = seq![x];
    assert(s.drop_last() =~= Seq::<u32>::empty());
    assert(ids_qty(pool, Seq::<u32>::empty()) == 0);
    assert(s.last() == x);
}

/// The first order leaves and the last takes its place: the quantity drops by the first's.
proof fn lemma_swap_remove_qty(pool: PoolModel, ids: Seq<u32>)
    requires
        ids.len() > 0,
    ensures
        ids_qty(pool, ids.update(0, ids.last()).drop_last()) == ids_qty(pool, ids) - pool.orders[ids[0]].remaining,
{
    let n = ids.len();
    let ids2 = ids.update(0, ids.last()).drop_last();
    if n == 1 {
        assert(ids2 =~= Seq::<u32>::empty());
        assert(ids =~= seq![ids[0]]);
        lemma_ids_qty_one(pool, ids[0]);
    } else {
        let mid = ids.subrange(1, n - 1);
        assert(ids =~= (seq![ids[0]] + mid) + seq![ids.last()]);
        assert(ids2 =~= seq![ids.last()] + mid);
        lemma_ids_qty_concat(pool, seq![ids[0]] + mid, seq![ids.last()]);
        lemma_ids_qty_concat(pool, seq![ids[0]], mid);
        lemma_ids_qty_concat(pool, seq![ids.last()], mid);
        lemma_ids_qty_one(pool, ids[0]);
        lemma_ids_qty_one(pool, ids.last());
    }
}

/// The quantity of `s` less the first order's, when that order alone changes.
proof fn lemma_first_changes(p1: PoolModel, p2: PoolModel, s: Seq<u32>)
    requires
        s.len() > 0,
        distinct_ids(s),
        forall|k: int| 1 <= k < s.len() ==> p1.orders[#[trigger] s[k]].remaining == p2.orders[s[k]].remaining,
    ensures
        ids_qty(p2, s) - p2.orders[s[0]].remaining == ids_qty(p1, s) - p1.orders[s[0]].remaining,
{
    let rest = s.drop_first();
    assert(s =~= seq![s[0]] + rest);
    lemma_ids_qty_concat(p1, seq![s[0]], rest);
    lemma_ids_qty_concat(p2, seq![s[0]], rest);
    lemma_ids_qty_one(p1, s[0]);
    lemma_ids_qty_one(p2, s[0]);
    assert forall|k: int| 0 <= k < rest.len() implies p1.orders[#[trigger] rest[k]].remaining == p2.orders[rest[k]].remaining by {
        assert(rest[k] == s[k + 1]);
    }
    lemma_ids_qty_frame(p1, p2, rest);
}

/// Filling against one level takes from its orders exactly what was traded.
pub proof fn lemma_take_qty(pool: PoolModel, ids: Seq<u32>, price: u64, remaining: u32, taker: OrderSide)
    requires
        forall|k: int| 0 <= k < ids.len() ==> pool.orders.dom().contains(#[trigger] ids[k]),
        distinct_ids(ids),
    ensures
        ids_qty(take_from_level(pool, ids, price, remaining, taker).pool, take_from_level(pool, ids, price, remaining, taker).ids)
            == ids_qty(pool, ids) - total_quantity(take_from_level(pool, ids, price, remaining, taker).trades),
    decreases ids.len(),
{
    if ids.len() == 0 || remaining == 0 {
        assert(total_quantity(Seq::<Trade>::empty()) == 0);
    } else {
        let id = ids[0];
        let o = pool.orders[id];
        let fill = min_u32(remaining, o.remaining);
        let t = trade_for(taker, o, id, price, fill);
        assert(total_quantity(seq![t]) == fill) by {
            assert(seq![t].drop_last() =~= Seq::<Trade>::empty());
            assert(total_quantity(Seq::<Trade>::empty()) == 0);
        }
        let p1 = pool_set(pool, id, filled(o, fill));
        assert forall|k: int| 1 <= k < ids.len() implies pool.orders[#[trigger] ids[k]].remaining == p1.orders[ids[k]].remaining by {
            assert(ids[k] != id);
        }
        lemma_first_changes(pool, p1, ids);
        if o.remaining - fill == 0 {
            let p2 = pool_free(p1, id);
            let ids2 = ids.update(0, ids.last()).drop_last();
            assert forall|k: int| 0 <= k < ids2.len() implies p2.orders.dom().contains(#[trigger] ids2[k]) by {
                let j = if k == 0 { ids.len() - 1 } else { k };
                assert(ids2[k] == ids[j]);
                assert(ids[j] != ids[0]);
            }
            assert forall|a: int, b: int| 0 <= a < b < ids2.len() implies ids2[a] != ids2[b] by {
                let ja = if a == 0 { ids.len() - 1 } else { a };
                assert(ids2[a] == ids[ja]);
                assert(ids2[b] == ids[b]);
            }
            lemma_swap_remove_qty(p1, ids);
            assert forall|k: int| 0 <= k < ids2.len() implies p1.orders[#[trigger] ids2[k]].remaining == p2.orders[ids2[k]].remaining by {
                let j = if k == 0 { ids.len() - 1 } else { k };
                assert(ids2[k] == ids[j]);
                assert(ids[j] != ids[0]);
            }
            lemma_ids_qty_frame(p1, p2, ids2);
            lemma_take_qty(p2, ids2, price, (remaining - fill) as u32, taker);
            let rest = take_from_level(p2, ids2, price, (remaining - fill) as u32, taker);
            lemma_total_concat(seq![t], rest.trades);
        }
    }
}

proof fn lemma_side_qty_cons(pool: PoolModel, l: LevelView, rest: Seq<LevelView>)
    ensures
        side_qty(pool, seq![l] + rest) == ids_qty(pool, l.ids) + side_qty(pool, rest),
{
    lemma_side_qty_concat(pool, seq![l], rest);
    assert(seq![l].drop_last() =~= Seq::<LevelView>::empty());
    assert(side_qty(pool, Seq::<LevelView>::empty()) == 0);
    assert(seq![l].last() == l);
}

/// The levels after the first are untouched by filling against the first.
proof fn lemma_rest_unchanged(pool: PoolModel, ls: Seq<LevelView>, remaining: u32, taker: OrderSide)
    requires
        side_ok(pool, ls, resting_side(taker)),
        ls.len() > 0,
    ensures
        side_qty(take_from_level(pool, ls[0].ids, ls[0].price, remaining, taker).pool, ls.drop_first())
            == side_qty(pool, ls.drop_first()),
{
    let side = resting_side(taker);
    let f = take_from_level(pool, ls[0].ids, ls[0].price, remaining, taker);
    lemma_take_agree(pool, ls[0].ids, ls[0].price, remaining, taker);
    let rest = ls.drop_first();
    assert forall|i: int, k: int|
        0 <= i < rest.len() && 0 <= k < rest[i].ids.len() implies pool.orders[#[trigger] rest[i].ids[k]].remaining
            == f.pool.orders[rest[i].ids[k]].remaining by {
        let x = rest[i].ids[k];
        assert(rest[i] == ls[i + 1]);
        assert(ls[i + 1].ids.contains(x));
        assert(ids_resting(pool, ls[i + 1].ids, side));
        assert(resting(pool, ls[i + 1].ids[k], side));
        if ls[0].ids.contains(x) {
            assert(false);
        }
    }
    lemma_side_qty_frame(pool, f.pool, rest);
}

/// Matching takes from the levels exactly what was traded.
pub proof fn lemma_match_qty(pool: PoolModel, ls: Seq<LevelView>, limit: u64, remaining: u32, taker: OrderSide)
    requires
        side_ok(pool, ls, resting_side(taker)),
    ensures
        side_qty(match_levels(pool, ls, limit, remaining, taker).pool, match_levels(pool, ls, limit, remaining, taker).levels)
            == side_qty(pool, ls) - total_quantity(match_levels(pool, ls, limit, remaining, taker).trades),
    decreases ls.len(),
{
    if remaining == 0 || ls.len() == 0 || !crosses(taker, ls[0].price, limit) {
        assert(total_quantity(Seq::<Trade>::empty()) == 0);
    } else {
        let side = resting_side(taker);
        let l0 = ls[0];
        let rest = ls.drop_first();
        assert(1 <= l0.ids.len() && ids_resting(pool, l0.ids, side));
        assert forall|k: int| 0 <= k < l0.ids.len() implies pool.orders.dom().contains(#[trigger] l0.ids[k]) by {
            assert(resting(pool, l0.ids[k], side));
        }
        lemma_take_qty(pool, l0.ids, l0.price, remaining, taker);
        let f = take_from_level(pool, l0.ids, l0.price, remaining, taker);
        assert(ls =~= seq![l0] + rest);
        lemma_side_qty_cons(pool, l0, rest);
        lemma_rest_unchanged(pool, ls, remaining, taker);
        if f.ids.len() == 0 {
            lemma_take_frame(pool, ls, remaining, taker);
            lemma_match_qty(f.pool, rest, limit, f.remaining, taker);
            let r = match_levels(f.pool, rest, limit, f.remaining, taker);
            lemma_total_concat(f.trades, r.trades);
            assert(f.ids =~= Seq::<u32>::empty());
            assert(ids_qty(f.pool, f.ids) == 0);
        } else {
            let lv = LevelView { price: l0.price, ids: f.ids };
            assert(ls.update(0, lv) =~= seq![lv] + rest);
            lemma_side_qty_cons(f.pool, lv, rest);
        }
    }
}

proof fn lemma_pool_set_ok(m: PoolModel, id: u32, o: crate::lob::types::Order)
    requires
        model_ok(m),
        m.orders.dom().contains(id),
    ensures
        model_ok(pool_set(m, id, o)),
        pool_set(m, id, o).orders.dom() == m.orders.dom(),
{
    assert(pool_set(m, id, o).orders.dom() =~= m.orders.dom());
}

proof fn lemma_pool_free_ok(m: PoolModel, id: u32)
    requires
        model_ok(m),
        m.orders.dom().contains(id),
    ensures
        model_ok(pool_free(m, id)),
        pool_free(m, id).orders.dom() == m.orders.dom().remove(id),
{
    let m2 = pool_free(m, id);
    assert(m2.orders.dom() =~= m.orders.dom().remove(id));
    assert forall|i: int| 0 <= i < m2.free.len() implies m2.free[i] < m2.next_id && !m2.orders.dom().contains(m2.free[i]) by {
        if i < m.free.len() {
            assert(m2.free[i] == m.free[i]);
        }
    }
    assert forall|i: int, j: int| 0 <= i < j < m2.free.len() implies m2.free[i] != m2.free[j] by {
        assert(m2.free[i] == m.free[i]);
        if j == m.free.len() {
            assert(!m.orders.dom().contains(m.free[i]));
        } else {
            assert(m2.free[j] == m.free[j]);
        }
    }
}

/// Filling against one level keeps the pool consistent, leaves the level's remaining orders
/// live, and touches no other order.
proof fn lemma_take_facts(pool: PoolModel, ids: Seq<u32>, price: u64, remaining: u32, taker: OrderSide)
    requires
        model_ok(pool),
        forall|k: int| 0 <= k < ids.len() ==> pool.orders.dom().contains(#[trigger] ids[k]),
        distinct_ids(ids),
    ensures
        model_ok(take_from_level(pool, ids, price, remaining, taker).pool),
        forall|k: int|
            0 <= k < take_from_level(pool, ids, price, remaining, taker).ids.len() ==> take_from_level(
                pool,
                ids,
                price,
                remaining,
                taker,
            ).pool.orders.dom().contains(#[trigger] take_from_level(pool, ids, price, remaining, taker).ids[k]),
    decreases ids.len(),
{
    if ids.len() > 0 && remaining > 0 {
        let id = ids[0];
        let o = pool.orders[id];
        let fill = min_u32(remaining, o.remaining);
        let p1 = pool_set(pool, id, filled(o, fill));
        lemma_pool_set_ok(pool, id, filled(o, fill));
        if o.remaining - fill == 0 {
            lemma_pool_free_ok(p1, id);
            let p2 = pool_free(p1, id);
            let ids2 = ids.update(0, ids.last()).drop_last();
            assert forall|k: int| 0 <= k < ids2.len() implies p2.orders.dom().contains(#[trigger] ids2[k]) by {
                let j = if k == 0 { ids.len() - 1 } else { k };
                assert(ids2[k] == ids[j]);
                assert(ids[j] != ids[0]);
            }
            assert forall|a: int, b: int| 0 <= a < b < ids2.len() implies ids2[a] != ids2[b] by {
                let ja = if a == 0 { ids.len() - 1 } else { a };
                assert(ids2[a] == ids[ja]);
                assert(ids2[b] == ids[b]);
            }
            lemma_take_facts(p2, ids2, price, (remaining - fill) as u32, taker);
        }
    }
}

/// Matching keeps the pool consistent, leaves the remaining levels' orders live, and leaves
/// every order of the incoming order's own side as it was.
pub proof fn lemma_match_facts(pool: PoolModel, ls: Seq<LevelView>, limit: u64, remaining: u32, taker: OrderSide)
    requires
        model_ok(pool),
        side_ok(pool, ls, resting_side(taker)),
    ensures
        model_ok(match_levels(pool, ls, limit, remaining, taker).pool),
        forall|i: int, k: int|
            0 <= i < match_levels(pool, ls, limit, remaining, taker).levels.len() && 0 <= k
                < match_levels(pool, ls, limit, remaining, taker).levels[i].ids.len() ==> match_levels(
                pool,
                ls,
                limit,
                remaining,
                taker,
            ).pool.orders.dom().contains(#[trigger] match_levels(pool, ls, limit, remaining, taker).levels[i].ids[k]),
        same_on_side(pool, match_levels(pool, ls, limit, remaining, taker).pool, taker),
    decreases ls.len(),
{
    let side = resting_side(taker);
    let r = match_levels(pool, ls, limit, remaining, taker);
    if remaining == 0 || ls.len() == 0 || !crosses(taker, ls[0].price, limit) {
        assert forall|i: int, k: int| 0 <= i < r.levels.len() && 0 <= k < r.levels[i].ids.len()
            implies r.pool.orders.dom().contains(#[trigger] r.levels[i].ids[k]) by {
            assert(resting(pool, ls[i].ids[k], side));
        }
    } else {
        let l0 = ls[0];
        let rest = ls.drop_first();
        assert(1 <= l0.ids.len() && ids_resting(pool, l0.ids, side));
        assert forall|k: int| 0 <= k < l0.ids.len() implies pool.orders.dom().contains(#[trigger] l0.ids[k]) by {
            assert(resting(pool, l0.ids[k], side));
        }
        lemma_take_facts(pool, l0.ids, l0.price, remaining, taker);
        lemma_take_agree(pool, l0.ids, l0.price, remaining, taker);
        let f = take_from_level(pool, l0.ids, l0.price, remaining, taker);
        assert(same_on_side(pool, f.pool, taker)) by {
            assert forall|id: u32| pool.orders.dom().contains(id) && pool.orders[id].side == taker
                implies f.pool.orders.dom().contains(id) && f.pool.orders[id] == pool.orders[id] by {
                if l0.ids.contains(id) {
                    let k = choose|k: int| 0 <= k < l0.ids.len() && l0.ids[k] == id;
                    assert(resting(pool, l0.ids[k], side));
                }
            }
        }
        if f.ids.len() == 0 {
            lemma_take_frame(pool, ls, remaining, taker);
            lemma_match_facts(f.pool, rest, limit, f.remaining, taker);
        } else {
            assert forall|i: int, k: int| 0 <= i < r.levels.len() && 0 <= k < r.levels[i].ids.len()
                implies r.pool.orders.dom().contains(#[trigger] r.levels[i].ids[k]) by {
                if i > 0 {
                    let x = ls[i].ids[k];
                    assert(r.levels[i] == ls[i]);
                    assert(resting(pool, ls[i].ids[k], side));
                    assert(ls[i].ids.contains(x));
                    if l0.ids.contains(x) {
                        assert(false);
                    }
                }
            }
        }
    }
}

/// Resting order `id` on the levels adds its quantity to theirs.
proof fn lemma_insert_qty(pool: PoolModel, ls: Seq<LevelView>, price: u64, id: u32, side: OrderSide)
    requires
        ls.len() < MAX_PRICE_LEVELS,
        forall|i: int, j: int| 0 <= i < j < ls.len() ==> crate::lob::book::better_or_equal(side, ls[i].price, ls[j].price),
    ensures
        side_qty(pool, insert_order(ls, price, id, side)) == side_qty(pool, ls) + pool.orders[id].remaining,
{
    lemma_count_before_sorted(ls, price, side);
    let pos = count_before(ls, price, side);
    let head = ls.take(pos);
    if pos < ls.len() && ls[pos].price == price && ls[pos].ids.len() < crate::lob::level::ORDERS_PER_LEVEL {
        let tail = ls.skip(pos + 1);
        let lv = LevelView { price, ids: ls[pos].ids.push(id) };
        assert(ls =~= head + (seq![ls[pos]] + tail));
        assert(ls.update(pos, lv) =~= head + (seq![lv] + tail));
        lemma_side_qty_concat(pool, head, seq![ls[pos]] + tail);
        lemma_side_qty_concat(pool, head, seq![lv] + tail);
        lemma_side_qty_cons(pool, ls[pos], tail);
        lemma_side_qty_cons(pool, lv, tail);
        lemma_ids_qty_concat(pool, ls[pos].ids, seq![id]);
        assert(ls[pos].ids.push(id) =~= ls[pos].ids + seq![id]);
        lemma_ids_qty_one(pool, id);
    } else {
        let tail = ls.skip(pos);
        let lv = LevelView { price, ids: seq![id] };
        assert(ls =~= head + tail);
        assert(ls.insert(pos, lv) =~= head + (seq![lv] + tail));
        lemma_side_qty_concat(pool, head, tail);
        lemma_side_qty_concat(pool, head, seq![lv] + tail);
        lemma_side_qty_cons(pool, lv, tail);
        lemma_ids_qty_one(pool, id);
    }
}

/// The quantity resting on `side` of the book.
pub open spec fn resting_qty(m: BookModel, side: OrderSide) -> int {
    match side {
        OrderSide::Buy => side_qty(m.pool, m.bids),
        OrderSide::Sell => side_qty(m.pool, m.asks),
    }
}

/// The book is consistent: both sides well formed over a consistent pool.
pub open spec fn book_ok(m: BookModel) -> bool {
    &&& model_ok(m.pool)
    &&& side_ok(m.pool, m.bids, OrderSide::Buy)
    &&& side_ok(m.pool, m.asks, OrderSide::Sell)
}

/// What is left of `req` after matching rests in full: nothing is left, or a slot is free in
/// the pool and the order's side has fewer than `MAX_PRICE_LEVELS` levels.
pub open spec fn order_rests(m: BookModel, req: OrderRequest) -> bool {
    let opposite = match req.side {
        OrderSide::Buy => m.asks,
        OrderSide::Sell => m.bids,
    };
    let own = match req.side {
        OrderSide::Buy => m.bids,
        OrderSide::Sell => m.asks,
    };
    let r = match_levels(m.pool, opposite, req.price, req.quantity, req.side);
    r.remaining == 0 || (next_alloc_id(r.pool) is Some && own.len() < MAX_PRICE_LEVELS)
}

/// An order conserves quantity on both sides: what rests on its own side grows by what was
/// asked less what was traded, and what rests on the other side shrinks by what was traded.
pub proof fn lemma_order_qty(m: BookModel, req: OrderRequest)
    requires
        book_ok(m),
        order_rests(m, req),
    ensures
        resting_qty(process(m, req).0, req.side) == resting_qty(m, req.side) + req.quantity - total_quantity(process(m, req).1),
        resting_qty(process(m, req).0, resting_side(req.side)) == resting_qty(m, resting_side(req.side))
            - total_quantity(process(m, req).1),
{
    let s = req.side;
    let o = resting_side(s);
    let opposite = match s {
        OrderSide::Buy => m.asks,
        OrderSide::Sell => m.bids,
    };
    let own = match s {
        OrderSide::Buy => m.bids,
        OrderSide::Sell => m.asks,
    };
    assert(side_ok(m.pool, opposite, o));
    assert(side_ok(m.pool, own, s));
    let r = match_levels(m.pool, opposite, req.price, req.quantity, s);
    lemma_match_qty(m.pool, opposite, req.price, req.quantity, s);
    lemma_match_facts(m.pool, opposite, req.price, req.quantity, s);
    lemma_match_conserves(m.pool, opposite, req.price, req.quantity, s);
    assert forall|i: int, k: int| 0 <= i < own.len() && 0 <= k < own[i].ids.len()
        implies m.pool.orders[#[trigger] own[i].ids[k]].remaining == r.pool.orders[own[i].ids[k]].remaining
        && r.pool.orders.dom().contains(own[i].ids[k]) by {
        assert(resting(m.pool, own[i].ids[k], s));
    }
    lemma_side_qty_frame(m.pool, r.pool, own);
    if r.remaining != 0 {
        let id = next_alloc_id(r.pool)->Some_0;
        lemma_alloc_is_fresh(r.pool);
        let p = pool_alloc(r.pool, s, req.price, r.remaining);
        assert forall|i: int, k: int| 0 <= i < own.len() && 0 <= k < own[i].ids.len()
            implies r.pool.orders[#[trigger] own[i].ids[k]].remaining == p.orders[own[i].ids[k]].remaining by {
            assert(r.pool.orders.dom().contains(own[i].ids[k]));
        }
        lemma_side_qty_frame(r.pool, p, own);
        assert forall|i: int, k: int| 0 <= i < r.levels.len() && 0 <= k < r.levels[i].ids.len()
            implies r.pool.orders[#[trigger] r.levels[i].ids[k]].remaining == p.orders[r.levels[i].ids[k]].remaining by {
            assert(r.pool.orders.dom().contains(r.levels[i].ids[k]));
        }
        lemma_side_qty_frame(r.pool, p, r.levels);
        lemma_insert_qty(p, own, req.price, id, s);
        assert(p.orders[id].remaining == r.remaining);
    }
}

/// The book after the orders `reqs` in turn, and every trade they made in order.
pub open spec fn book_run(m: BookModel, reqs: Seq<OrderRequest>) -> (BookModel, Seq<Trade>)
    decreases reqs.len(),
{
    if reqs.len() == 0 {
        (m, Seq::empty())
    } else {
        let prev = book_run(m, reqs.drop_last());
        let step = process(prev.0, reqs.last());
        (step.0, prev.1 + step.1)
    }
}

/// The quantity the orders of `reqs` on `side` asked for.
pub open spec fn requested(reqs: Seq<OrderRequest>, side: OrderSide) -> int
    decreases reqs.len(),
{
    if reqs.len() == 0 {
        0
    } else {
        requested(reqs.drop_last(), side) + if reqs.last().side == side {
            reqs.last().quantity as int
        } else {
            0
        }
    }
}

/// Over any sequence of orders, each of which rests in full what it does not trade, the
/// quantity resting on each side is what rested there before, plus what that side's orders
/// asked for, less everything traded.
pub proof fn lemma_history_qty(m: BookModel, reqs: Seq<OrderRequest>)
    requires
        forall|i: int|
            0 <= i < reqs.len() ==> book_ok(#[trigger] book_run(m, reqs.take(i)).0) && order_rests(
                book_run(m, reqs.take(i)).0,
                reqs[i],
            ),
    ensures
        resting_qty(book_run(m, reqs).0, OrderSide::Buy) == resting_qty(m, OrderSide::Buy) + requested(
            reqs,
            OrderSide::Buy,
        ) - total_quantity(book_run(m, reqs).1),
        resting_qty(book_run(m, reqs).0, OrderSide::Sell) == resting_qty(m, OrderSide::Sell) + requested(
            reqs,
            OrderSide::Sell,
        ) - total_quantity(book_run(m, reqs).1),
    decreases reqs.len(),
{
    if reqs.len() == 0 {
        assert(total_quantity(Seq::<Trade>::empty()) == 0);
    } else {
        let n = reqs.len() - 1;
        let d = reqs.drop_last();
        assert forall|i: int| 0 <= i < d.len() implies book_ok(#[trigger] book_run(m, d.take(i)).0) && order_rests(
            book_run(m, d.take(i)).0,
            d[i],
        ) by {
            assert(d.take(i) =~= reqs.take(i));
            assert(book_ok(book_run(m, reqs.take(i)).0));
        }
        lemma_history_qty(m, d);
        assert(reqs.take(n) =~= d);
        assert(book_ok(book_run(m, reqs.take(n)).0));
        let prev = book_run(m, d);
        let req = reqs.last();
        assert(req == reqs[n]);
        lemma_order_qty(prev.0, req);
        lemma_total_concat(prev.1, process(prev.0, req).1);
    }
}

/// A trade of an incoming order on side `taker` names the incoming order as `u32::MAX` on
/// the taker's side and, on the other side, a resting order among `ids`.
pub open spec fn names_resting(t: Trade, taker: OrderSide, ids: Seq<u32>) -> bool {
    match taker {
        OrderSide::Buy => t.buy_order_id == u32::MAX && ids.contains(t.sell_order_id),
        OrderSide::Sell => t.sell_order_id == u32::MAX && ids.contains(t.buy_order_id),
    }
}

/// Filling against one level makes trades that each name one of the level's orders as the
/// resting side.
proof fn lemma_take_names(pool: PoolModel, ids: Seq<u32>, price: u64, remaining: u32, taker: OrderSide)
    requires
        forall|k: int|
            0 <= k < ids.len() ==> pool.orders.dom().contains(#[trigger] ids[k]) && pool.orders[ids[k]].side
                == resting_side(taker),
        distinct_ids(ids),
    ensures
        forall|j: int|
            0 <= j < take_from_level(pool, ids, price, remaining, taker).trades.len() ==> names_resting(
                #[trigger] take_from_level(pool, ids, price, remaining, taker).trades[j],
                taker,
                ids,
            ),
    decreases ids.len(),
{
    if ids.len() > 0 && remaining > 0 {
        let id = ids[0];
        let o = pool.orders[id];
        let fill = min_u32(remaining, o.remaining);
        let t = trade_for(taker, o, id, price, fill);
        assert(ids.contains(id));
        assert(o.side == resting_side(taker));
        assert(names_resting(t, taker, ids));
        if o.remaining - fill == 0 {
            let p1 = pool_set(pool, id, filled(o, fill));
            let p2 = pool_free(p1, id);
            let ids2 = ids.update(0, ids.last()).drop_last();
            assert forall|k: int| 0 <= k < ids2.len() implies p2.orders.dom().contains(#[trigger] ids2[k])
                && p2.orders[ids2[k]].side == resting_side(taker) by {
                let j = if k == 0 { ids.len() - 1 } else { k };
                assert(ids2[k] == ids[j]);
                assert(ids[j] != ids[0]);
            }
            assert forall|a: int, b: int| 0 <= a < b < ids2.len() implies ids2[a] != ids2[b] by {
                let ja = if a == 0 { ids.len() - 1 } else { a };
                assert(ids2[a] == ids[ja]);
                assert(ids2[b] == ids[b]);
            }
            lemma_take_names(p2, ids2, price, (remaining - fill) as u32, taker);
            let rest = take_from_level(p2, ids2, price, (remaining - fill) as u32, taker);
            let all = seq![t] + rest.trades;
            assert forall|j: int| 0 <= j < all.len() implies names_resting(#[trigger] all[j], taker, ids) by {
                if j > 0 {
                    assert(all[j] == rest.trades[j - 1]);
                    assert(names_resting(rest.trades[j - 1], taker, ids2));
                    let x = match taker {
                        OrderSide::Buy => rest.trades[j - 1].sell_order_id,
                        OrderSide::Sell => rest.trades[j - 1].buy_order_id,
                    };
                    let k = choose|k: int| 0 <= k < ids2.len() && ids2[k] == x;
                    let jj = if k == 0 { ids.len() - 1 } else { k };
                    assert(ids2[k] == ids[jj]);
                }
            }
        } else {
            assert forall|j: int| 0 <= j < seq![t].len() implies names_resting(#[trigger] seq![t][j], taker, ids) by {}
        }
    }
}

/// The trades of an incoming order on side `taker` against the levels `ls` each name the
/// incoming order as `u32::MAX` on its own side and a resting order of one of the levels on
/// the other side.
pub proof fn lemma_match_names(pool: PoolModel, ls: Seq<LevelView>, limit: u64, remaining: u32, taker: OrderSide)
    requires
        side_ok(pool, ls, resting_side(taker)),
    ensures
        forall|j: int|
            0 <= j < match_levels(pool, ls, limit, remaining, taker).trades.len() ==> exists|i: int|
                0 <= i < ls.len() && names_resting(
                    #[trigger] match_levels(pool, ls, limit, remaining, taker).trades[j],
                    taker,
                    ls[i].ids,
                ),
    decreases ls.len(),
{
    if remaining == 0 || ls.len() == 0 || !crosses(taker, ls[0].price, limit) {
    } else {
        let side = resting_side(taker);
        let l0 = ls[0];
        let rest = ls.drop_first();
        assert(ids_resting(pool, l0.ids, side));
        assert forall|k: int| 0 <= k < l0.ids.len() implies pool.orders.dom().contains(#[trigger] l0.ids[k])
            && pool.orders[l0.ids[k]].side == resting_side(taker) by {
            assert(resting(pool, l0.ids[k], side));
        }
        lemma_take_names(pool, l0.ids, l0.price, remaining, taker);
        let f = take_from_level(pool, l0.ids, l0.price, remaining, taker);
        let r = match_levels(pool, ls, limit, remaining, taker);
        if f.ids.len() == 0 {
            lemma_take_frame(pool, ls, remaining, taker);
            lemma_match_names(f.pool, rest, limit, f.remaining, taker);
            let r2 = match_levels(f.pool, rest, limit, f.remaining, taker);
            assert(r.trades == f.trades + r2.trades);
            assert forall|j: int| 0 <= j < r.trades.len() implies exists|i: int|
                0 <= i < ls.len() && names_resting(#[trigger] r.trades[j], taker, ls[i].ids) by {
                if j < f.trades.len() {
                    assert(r.trades[j] == f.trades[j]);
                    assert(names_resting(f.trades[j], taker, ls[0].ids));
                } else {
                    assert(r.trades[j] == r2.trades[j - f.trades.len()]);
                    let i = choose|i: int| 0 <= i < rest.len() && names_resting(r2.trades[j - f.trades.len()], taker, rest[i].ids);
                    assert(rest[i] == ls[i + 1]);
                    assert(names_resting(r.trades[j], taker, ls[i + 1].ids));
                }
            }
        } else {
            assert forall|j: int| 0 <= j < r.trades.len() implies exists|i: int|
                0 <= i < ls.len() && names_resting(#[trigger] r.trades[j], taker, ls[i].ids) by {
                assert(names_resting(f.trades[j], taker, ls[0].ids));
            }
        }
    }
}

/// Every trade of an order names the resting order on its own side: a buy's trades give the
/// incoming buy as `u32::MAX` and, as seller, an order resting on the ask side; a sell's
/// trades give the incoming sell as `u32::MAX` and, as buyer, an order resting on the bid
/// side.
pub proof fn lemma_trade_sides(m: BookModel, req: OrderRequest, j: int)
    requires
        book_ok(m),
        0 <= j < process(m, req).1.len(),
    ensures
        req.side == OrderSide::Buy ==> process(m, req).1[j].buy_order_id == u32::MAX && exists|i: int|
            0 <= i < m.asks.len() && m.asks[i].ids.contains(#[trigger] process(m, req).1[j].sell_order_id)
                && resting(m.pool, process(m, req).1[j].sell_order_id, OrderSide::Sell),
        req.side == OrderSide::Sell ==> process(m, req).1[j].sell_order_id == u32::MAX && exists|i: int|
            0 <= i < m.bids.len() && m.bids[i].ids.contains(#[trigger] process(m, req).1[j].buy_order_id)
                && resting(m.pool, process(m, req).1[j].buy_order_id, OrderSide::Buy),
{
    let t = process(m, req).1[j];
    match req.side {
        OrderSide::Buy => {
            lemma_match_names(m.pool, m.asks, req.price, req.quantity, OrderSide::Buy);
            let i = choose|i: int| 0 <= i < m.asks.len() && names_resting(t, OrderSide::Buy, m.asks[i].ids);
            let k = choose|k: int| 0 <= k < m.asks[i].ids.len() && m.asks[i].ids[k] == t.sell_order_id;
            assert(ids_resting(m.pool, m.asks[i].ids, OrderSide::Sell));
            assert(resting(m.pool, m.asks[i].ids[k], OrderSide::Sell));
        },
        OrderSide::Sell => {
            lemma_match_names(m.pool, m.bids, req.price, req.quantity, OrderSide::Sell);
            let i = choose|i: int| 0 <= i < m.bids.len() && names_resting(t, OrderSide::Sell, m.bids[i].ids);
            let k = choose|k: int| 0 <= k < m.bids[i].ids.len() && m.bids[i].ids[k] == t.buy_order_id;
            assert(ids_resting(m.pool, m.bids[i].ids, OrderSide::Buy));
            assert(resting(m.pool, m.bids[i].ids[k], OrderSide::Buy));
        },
    }
}

/// Filling against one level trades at that level's price.
proof fn lemma_take_prices(pool: PoolModel, ids: Seq<u32>, price: u64, remaining: u32, taker: OrderSide)
    ensures
        forall|j: int|
            0 <= j < take_from_level(pool, ids, price, remaining, taker).trades.len()
                ==> (#[trigger] take_from_level(pool, ids, price, remaining, taker).trades[j]).price == price,
    decreases ids.len(),
{
    if ids.len() > 0 && remaining > 0 {
        let id = ids[0];
        let o = pool.orders[id];
        let fill = min_u32(remaining, o.remaining);
        let t = trade_for(taker, o, id, price, fill);
        if o.remaining - fill == 0 {
            let p2 = pool_free(pool_set(pool, id, filled(o, fill)), id);
            let ids2 = ids.update(0, ids.last()).drop_last();
            lemma_take_prices(p2, ids2, price, (remaining - fill) as u32, taker);
            let rest = take_from_level(p2, ids2, price, (remaining - fill) as u32, taker);
            let all = seq![t] + rest.trades;
            assert forall|j: int| 0 <= j < all.len() implies (#[trigger] all[j]).price == price by {
                if j > 0 {
                    assert(all[j] == rest.trades[j - 1]);
                }
            }
        }
    }
}

/// Matching trades only at the prices of levels that the limit reaches.
proof fn lemma_match_prices(pool: PoolModel, ls: Seq<LevelView>, limit: u64, remaining: u32, taker: OrderSide)
    ensures
        forall|j: int|
            0 <= j < match_levels(pool, ls, limit, remaining, taker).trades.len() ==> exists|i: int|
                0 <= i < ls.len() && (#[trigger] match_levels(pool, ls, limit, remaining, taker).trades[j]).price
                    == ls[i].price && crosses(taker, ls[i].price, limit),
    decreases ls.len(),
{
    if remaining == 0 || ls.len() == 0 || !crosses(taker, ls[0].price, limit) {
    } else {
        let rest = ls.drop_first();
        lemma_take_prices(pool, ls[0].ids, ls[0].price, remaining, taker);
        let f = take_from_level(pool, ls[0].ids, ls[0].price, remaining, taker);
        let r = match_levels(pool, ls, limit, remaining, taker);
        if f.ids.len() == 0 {
            lemma_match_prices(f.pool, rest, limit, f.remaining, taker);
            let r2 = match_levels(f.pool, rest, limit, f.remaining, taker);
            assert(r.trades == f.trades + r2.trades);
            assert forall|j: int| 0 <= j < r.trades.len() implies exists|i: int|
                0 <= i < ls.len() && (#[trigger] r.trades[j]).price == ls[i].price && crosses(
                    taker,
                    ls[i].price,
                    limit,
                ) by {
                if j < f.trades.len() {
                    assert(r.trades[j] == f.trades[j]);
                    assert(r.trades[j].price == ls[0].price);
                } else {
                    assert(r.trades[j] == r2.trades[j - f.trades.len()]);
                    let i = choose|i: int|
                        0 <= i < rest.len() && r2.trades[j - f.trades.len()].price == rest[i].price
                            && crosses(taker, rest[i].price, limit);
                    assert(rest[i] == ls[i + 1]);
                }
            }
        } else {
            assert forall|j: int| 0 <= j < r.trades.len() implies exists|i: int|
                0 <= i < ls.len() && (#[trigger] r.trades[j]).price == ls[i].price && crosses(
                    taker,
                    ls[i].price,
                    limit,
                ) by {
                assert(r.trades[j] == f.trades[j]);
                assert(r.trades[j].price == ls[0].price);
            }
        }
    }
}

/// Every trade of an order is made at the price of a level resting on the other side, and
/// never beyond the order's limit: a buy pays at most its price, a sell receives at least its
/// price.
pub proof fn lemma_trade_prices(m: BookModel, req: OrderRequest, j: int)
    requires
        0 <= j < process(m, req).1.len(),
    ensures
        req.side == OrderSide::Buy ==> process(m, req).1[j].price <= req.price && exists|i: int|
            0 <= i < m.asks.len() && #[trigger] m.asks[i].price == process(m, req).1[j].price,
        req.side == OrderSide::Sell ==> process(m, req).1[j].price >= req.price && exists|i: int|
            0 <= i < m.bids.len() && #[trigger] m.bids[i].price == process(m, req).1[j].price,
{
    let t = process(m, req).1[j];
    match req.side {
        OrderSide::Buy => {
            lemma_match_prices(m.pool, m.asks, req.price, req.quantity, OrderSide::Buy);
            let i = choose|i: int|
                0 <= i < m.asks.len() && t.price == m.asks[i].price && crosses(OrderSide::Buy, m.asks[i].price, req.price);
            assert(m.asks[i].price == t.price);
        },
        OrderSide::Sell => {
            lemma_match_prices(m.pool, m.bids, req.price, req.quantity, OrderSide::Sell);
            let i = choose|i: int|
                0 <= i < m.bids.len() && t.price == m.bids[i].price && crosses(OrderSide::Sell, m.bids[i].price, req.price);
            assert(m.bids[i].price == t.price);
        },
    }
}

} // verus!
