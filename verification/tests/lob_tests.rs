use infra_core::lob::book::OrderBook;
use infra_core::lob::pool::OrderPool;
use infra_core::lob::ring::RingBuffer;
use infra_core::lob::stats::LatencyStats;
use infra_core::lob::types::{OrderRequest, OrderSide};
use infra_core::lob::workload::generate_orders;

fn req(side: OrderSide, price: u64, quantity: u32) -> OrderRequest {
    OrderRequest { side, price, quantity }
}

#[test]
fn crossing_orders_trade_at_the_resting_price() {
    let mut book = OrderBook::new(OrderPool::new());
    assert!(book.process_order(req(OrderSide::Sell, 101, 5)).is_empty());
    assert!(book.process_order(req(OrderSide::Sell, 100, 5)).is_empty());
    assert_eq!(book.best_ask(), Some(100));
    let trades = book.process_order(req(OrderSide::Buy, 101, 7));
    assert_eq!(trades.len(), 2);
    assert_eq!((trades[0].price, trades[0].quantity), (100, 5));
    assert_eq!((trades[1].price, trades[1].quantity), (101, 2));
    assert_eq!(book.best_ask(), Some(101));
    assert_eq!(book.best_bid(), None);
    assert_eq!(book.last_trade_price, 101);
}

#[test]
fn non_crossing_orders_rest_on_their_side() {
    let mut book = OrderBook::new(OrderPool::new());
    book.process_order(req(OrderSide::Buy, 99, 1));
    book.process_order(req(OrderSide::Buy, 98, 1));
    book.process_order(req(OrderSide::Sell, 100, 1));
    assert_eq!(book.best_bid(), Some(99));
    assert_eq!(book.best_ask(), Some(100));
    let trades = book.process_order(req(OrderSide::Sell, 99, 3));
    assert_eq!(trades.len(), 1);
    assert_eq!(book.best_bid(), Some(98));
    assert_eq!(book.best_ask(), Some(99));
}

#[test]
fn ring_is_first_in_first_out_and_bounded() {
    let mut ring = RingBuffer::<u32, 4>::new();
    for i in 0..4 {
        assert!(ring.push(i).is_ok());
    }
    assert_eq!(ring.push(9), Err(9));
    assert_eq!(ring.available(), 0);
    assert_eq!(ring.pop(), Some(0));
    assert_eq!(ring.pop(), Some(1));
    assert!(ring.push(5).is_ok());
    assert_eq!(ring.pop(), Some(2));
    assert_eq!(ring.pop(), Some(3));
    assert_eq!(ring.pop(), Some(5));
    assert_eq!(ring.pop(), None);
}

#[test]
fn latency_percentiles_use_bucket_edges() {
    let mut stats = LatencyStats::new();
    assert_eq!(stats.p50(), 0);
    for v in [50u64, 150, 250, 350] {
        stats.record(v);
    }
    assert_eq!(stats.count(), 4);
    assert_eq!(stats.min(), 50);
    assert_eq!(stats.max(), 350);
    assert_eq!(stats.p50(), 200);
    assert_eq!(stats.p90(), 400);
    assert_eq!(stats.p99(), 400);
    assert_eq!(stats.value_at_rank(1), 100);
    stats.record(1_000_000);
    assert_eq!(stats.value_at_rank(5), 100_000);
}

#[test]
fn generated_orders_follow_the_pattern() {
    let orders = generate_orders(12);
    assert_eq!(orders.len(), 12);
    assert_eq!(orders[0].side, OrderSide::Sell);
    assert_eq!(orders[1].side, OrderSide::Buy);
    assert_eq!(orders[0].price, 99_900);
    assert_eq!(orders[11].price, 99_911);
    assert_eq!(orders[0].quantity, 100);
    assert_eq!(orders[9].quantity, 1000);
    assert_eq!(orders[10].quantity, 100);
    let far = generate_orders(150);
    assert_eq!(far[149].price, 100_049);
}

#[test]
fn resting_quantity_is_asked_less_traded() {
    let mut book = OrderBook::new(OrderPool::new());
    let mut traded: u32 = 0;
    traded += book.process_order(req(OrderSide::Sell, 10, 100)).iter().map(|t| t.quantity).sum::<u32>();
    traded += book.process_order(req(OrderSide::Buy, 10, 30)).iter().map(|t| t.quantity).sum::<u32>();
    assert_eq!(traded, 30);
    assert_eq!(book.best_ask(), Some(10));
    traded += book.process_order(req(OrderSide::Buy, 10, 70)).iter().map(|t| t.quantity).sum::<u32>();
    assert_eq!(traded, 100);
    assert_eq!(book.best_ask(), None);
    assert_eq!(book.best_bid(), None);
    traded += book.process_order(req(OrderSide::Buy, 10, 5)).iter().map(|t| t.quantity).sum::<u32>();
    assert_eq!(traded, 100);
    assert_eq!(book.best_bid(), Some(10));
    assert_eq!(book.bid_levels()[0].order_count(), 1);
}

#[test]
fn the_top_rank_is_the_largest_samples_bucket() {
    let mut stats = LatencyStats::new();
    for l in [120u64, 5_000, 349, 77] {
        stats.record(l);
    }
    assert_eq!(stats.value_at_rank(stats.count()), 5_100);
    assert!(stats.p50() <= stats.p90() && stats.p90() <= stats.p99());
    assert!(stats.p99() <= stats.value_at_rank(stats.count()));
}
