//! Fixed-capacity order storage with id reuse through a free stack.
use vstd::prelude::*;

use crate::lob::types::{Order, OrderSide, OrderStatus};

verus! {

pub const MAX_ORDERS: usize = 1_000_000;

/// The abstract state of a pool: the live orders by id, the stack of freed ids (top last),
/// and the next never-used id.
pub struct PoolModel {
    pub orders: Map<u32, Order>,
    pub free: Seq<u32>,
    pub next_id: u32,
}

/// A freshly allocated order.
pub open spec fn new_order(id: u32, side: OrderSide, price: u64, quantity: u32) -> Order {
    Order { id, side, price, quantity, remaining: quantity, status: OrderStatus::New }
}

/// The id the next allocation takes, if any: a never-used id while some remain, otherwise the
/// most recently freed one.
pub open spec fn next_alloc_id(m: PoolModel) -> Option<u32> {
    if m.next_id < MAX_ORDERS {
        Some(m.next_id)
    } else if m.free.len() > 0 {
        Some(m.free.last())
    } else {
        None
    }
}

/// The pool after allocating an order.
pub open spec fn pool_alloc(m: PoolModel, side: OrderSide, price: u64, quantity: u32) -> PoolModel {
    match next_alloc_id(m) {
        None => m,
        Some(id) => PoolModel {
            orders: m.orders.insert(id, new_order(id, side, price, quantity)),
            free: if m.next_id < MAX_ORDERS {
                m.free
            } else {
                m.free.drop_last()
            },
            next_id: if m.next_id < MAX_ORDERS {
                (m.next_id + 1) as u32
            } else {
                m.next_id
            },
        },
    }
}

/// The pool after freeing order `id`.
pub open spec fn pool_free(m: PoolModel, id: u32) -> PoolModel {
    PoolModel { orders: m.orders.remove(id), free: m.free.push(id), next_id: m.next_id }
}

/// The pool with order `id` replaced.
pub open spec fn pool_set(m: PoolModel, id: u32, o: Order) -> PoolModel {
    PoolModel { orders: m.orders.insert(id, o), ..m }
}

/// Storage for up to `MAX_ORDERS` live orders.
pub struct OrderPool {
    entries: Vec<Order>,
    free_stack: Vec<u32>,
    free_head: u32,
    next_id: u32,
    live: Ghost<Set<u32>>,
}

/// The invariant of a pool model: live and freed ids are distinct ids below `next_id`, and
/// together they are all of them.
pub open spec fn model_ok(m: PoolModel) -> bool {
    &&& m.next_id <= MAX_ORDERS
    &&& m.orders.dom().finite()
    &&& forall|id: u32| m.orders.dom().contains(id) ==> id < m.next_id
    &&& forall|i: int| 0 <= i < m.free.len() ==> m.free[i] < m.next_id && !m.orders.dom().contains(
        m.free[i],
    )
    &&& forall|i: int, j: int| 0 <= i < j < m.free.len() ==> m.free[i] != m.free[j]
    &&& m.orders.dom().len() + m.free.len() == m.next_id
}

/// The order an unused slot holds: id, price and quantities zero, a buy, new.
fn blank_order() -> (o: Order)
    ensures
        o.id == 0,
        o.side == OrderSide::Buy,
        o.price == 0,
        o.quantity == 0,
        o.remaining == 0,
        o.status == OrderStatus::New,
{
    Order { id: 0, side: OrderSide::Buy, price: 0, quantity: 0, remaining: 0, status: OrderStatus::New }
}

impl OrderPool {
    /// The abstract state of the pool.
    pub closed spec fn model(&self) -> PoolModel {
        PoolModel {
            orders: Map::new(|id: u32| self.live@.contains(id), |id: u32| self.entries@[id as int]),
            free: self.free_stack@.subrange(0, self.free_head as int),
            next_id: self.next_id,
        }
    }

    /// The storage agrees with its abstract state.
    pub closed spec fn wf(&self) -> bool {
        &&& self.entries@.len() == MAX_ORDERS
        &&& self.free_stack@.len() == MAX_ORDERS
        &&& self.free_head <= MAX_ORDERS
        &&& self.live@.finite()
        &&& model_ok(self.model())
    }

    /// The live orders.
    pub open spec fn orders(&self) -> Map<u32, Order> {
        self.model().orders
    }

    /// An empty pool.
    pub fn new() -> (p: Self)
        ensures
            p.wf(),
            p.model() == (PoolModel { orders: Map::empty(), free: Seq::empty(), next_id: 0 }),
    {
        let mut entries: Vec<Order> = Vec::with_capacity(MAX_ORDERS);
        let mut free_stack: Vec<u32> = Vec::with_capacity(MAX_ORDERS);
        let mut i: usize = 0;
        while i < MAX_ORDERS
            invariant
                i <= MAX_ORDERS,
                entries@.len() == i,
                free_stack@.len() == i,
            decreases MAX_ORDERS - i,
        {
            entries.push(blank_order());
            free_stack.push(0);
            i = i + 1;
        }
        let p = Self { entries, free_stack, free_head: 0, next_id: 0, live: Ghost(Set::empty()) };
        assert(p.model().orders =~= Map::empty());
        assert(p.model().free =~= Seq::<u32>::empty());
        p
    }

    /// Allocates an order for `quantity` at `price`; `None` when `MAX_ORDERS` orders are live.
    pub fn allocate(&mut self, side: OrderSide, price: u64, quantity: u32) -> (r: Option<u32>)
        requires
            old(self).wf(),
        ensures
            final(self).wf(),
            r == next_alloc_id(old(self).model()),
            final(self).model() == pool_alloc(old(self).model(), side, price, quantity),
            r is None <==> old(self).orders().dom().len() == MAX_ORDERS,
    {
        let ghost m = self.model();
        if self.next_id as usize >= MAX_ORDERS {
            if self.free_head == 0 {
                return None;
            }
            self.free_head = self.free_head - 1;
            let idx = self.free_stack[self.free_head as usize];
            let order = Order {
                id: idx,
                side,
                price,
                quantity,
                remaining: quantity,
                status: OrderStatus::New,
            };
            self.entries.set(idx as usize, order);
            self.live = Ghost(self.live@.insert(idx));
            proof {
                assert(m.free.last() == idx);
                assert(self.model().free =~= m.free.drop_last());
                assert forall|id: u32| #[trigger] self.model().orders.dom().contains(id) == m.orders.insert(idx, order).dom().contains(id) by {}
                assert forall|id: u32| self.model().orders.dom().contains(id) implies #[trigger] self.model().orders[id] == m.orders.insert(idx, order)[id] by {}
                assert(self.model().orders =~= m.orders.insert(idx, order));
                assert(!m.orders.dom().contains(idx));
                assert(self.model().orders.dom() =~= m.orders.dom().insert(idx));
            }
            return Some(idx);
        }
        let idx = self.next_id;
        self.next_id = self.next_id + 1;
        let order = Order { id: idx, side, price, quantity, remaining: quantity, status: OrderStatus::New };
        self.entries.set(idx as usize, order);
        self.live = Ghost(self.live@.insert(idx));
        proof {
            assert(!m.orders.dom().contains(idx));
            assert(self.model().free =~= m.free);
            assert(self.model().orders =~= m.orders.insert(idx, order));
            assert(self.model().orders.dom() =~= m.orders.dom().insert(idx));
        }
        Some(idx)
    }

    /// Releases order `id` and makes its id available again.
    pub fn free(&mut self, id: u32)
        requires
            old(self).wf(),
            old(self).orders().dom().contains(id),
        ensures
            final(self).wf(),
            final(self).model() == pool_free(old(self).model(), id),
    {
        let ghost m = self.model();
        proof {
            assert(m.orders.dom().remove(id).len() == m.orders.dom().len() - 1);
        }
        self.free_stack.set(self.free_head as usize, id);
        self.free_head = self.free_head + 1;
        self.live = Ghost(self.live@.remove(id));
        proof {
            assert(self.model().free =~= m.free.push(id));
            assert(self.model().orders =~= m.orders.remove(id));
            assert(self.model().orders.dom() =~= m.orders.dom().remove(id));
        }
    }

    /// The live order `id`.
    pub fn get(&self, id: u32) -> (o: &Order)
        requires
            self.wf(),
            self.orders().dom().contains(id),
        ensures
            *o == self.orders()[id],
    {
        &self.entries[id as usize]
    }

    /// Replaces the live order `id` by `order`.
    pub fn set(&mut self, id: u32, order: Order)
        requires
            old(self).wf(),
            old(self).orders().dom().contains(id),
        ensures
            final(self).wf(),
            final(self).model() == pool_set(old(self).model(), id, order),
    {
        let ghost m = self.model();
        self.entries.set(id as usize, order);
        proof {
            assert(self.model().orders =~= m.orders.insert(id, order));
            assert(self.model().orders.dom() =~= m.orders.dom());
            assert(self.model().free =~= m.free);
        }
    }

    /// A well-formed pool has a consistent model.
    pub proof fn lemma_model_ok(&self)
        requires
            self.wf(),
        ensures
            model_ok(self.model()),
    {
    }

    /// How many ids have been handed out from the counter so far.
    pub fn len(&self) -> (n: usize)
        ensures
            n == self.model().next_id,
    {
        self.next_id as usize
    }
}

/// Allocation never hands out the id of a live order.
pub proof fn lemma_alloc_is_fresh(m: PoolModel)
    requires
        model_ok(m),
    ensures
        next_alloc_id(m) matches Some(id) ==> !m.orders.dom().contains(id),
        next_alloc_id(m) is None <==> m.orders.dom().len() == MAX_ORDERS,
{
    if m.next_id >= MAX_ORDERS && m.free.len() > 0 {
        assert(!m.orders.dom().contains(m.free[m.free.len() - 1]));
    }
}

/// Once the counter is exhausted, an id just freed is the next one handed out.
pub proof fn lemma_free_then_alloc_reuses(m: PoolModel, id: u32)
    requires
        model_ok(m),
        m.orders.dom().contains(id),
        m.next_id == MAX_ORDERS,
    ensures
        next_alloc_id(pool_free(m, id)) == Some(id),
{
}

} // verus!
