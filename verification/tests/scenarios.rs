use matchine::decimal::Decimal;
use matchine::order::{Order, OrderId, OrderSide, TimeInForce};
use matchine::orderbook::{Orderbook, OrderbookError};

fn dec(units: u128) -> Decimal {
    Decimal::new(units)
}

fn limit(id: u64, side: OrderSide, quantity: u128, price: u128) -> Order {
    Order::limit_order(OrderId::new(id), side, dec(quantity), dec(price))
}

#[test]
fn rest_and_peek() {
    let mut book = Orderbook::new();
    assert_eq!(book.handle_create(limit(1, OrderSide::Ask, 100, 15)), Ok(false));
    assert_eq!(book.handle_create(limit(2, OrderSide::Bid, 25, 14)), Ok(false));
    assert_eq!(book.trades.len(), 0);
    let top_ask = book.peek_top(&OrderSide::Ask).unwrap();
    assert_eq!(top_ask.id(), OrderId::new(1));
    assert_eq!(top_ask.remaining(), dec(100));
    let top_bid = book.peek_top(&OrderSide::Bid).unwrap();
    assert_eq!(top_bid.id(), OrderId::new(2));
    assert_eq!(top_bid.remaining(), dec(25));
}

#[test]
fn full_fill_maker() {
    let mut book = Orderbook::new();
    assert_eq!(book.handle_create(limit(2, OrderSide::Bid, 99, 15)), Ok(false));
    assert_eq!(book.handle_create(limit(1, OrderSide::Ask, 100, 15)), Ok(true));
    assert_eq!(book.trades.len(), 1);
    let t = &book.trades[0];
    assert_eq!(t.taker, OrderId::new(1));
    assert_eq!(t.maker, OrderId::new(2));
    assert_eq!(t.price, dec(15));
    assert_eq!(t.quantity, dec(99));
    assert!(book.peek_top(&OrderSide::Bid).is_none());
    let top_ask = book.peek_top(&OrderSide::Ask).unwrap();
    assert_eq!(top_ask.id(), OrderId::new(1));
    assert_eq!(top_ask.remaining(), dec(1));
}

#[test]
fn walk_two_levels() {
    let mut book = Orderbook::new();
    assert_eq!(book.handle_create(limit(2, OrderSide::Bid, 99, 15)), Ok(false));
    assert_eq!(book.handle_create(limit(3, OrderSide::Bid, 20, 16)), Ok(false));
    assert_eq!(book.handle_create(limit(1, OrderSide::Ask, 100, 15)), Ok(true));
    assert_eq!(book.trades.len(), 2);
    // Better price first, then the worse level; trade ids strictly increase.
    assert_eq!(book.trades[0].taker, OrderId::new(1));
    assert_eq!(book.trades[0].maker, OrderId::new(3));
    assert_eq!(book.trades[0].price, dec(16));
    assert_eq!(book.trades[0].quantity, dec(20));
    assert_eq!(book.trades[1].taker, OrderId::new(1));
    assert_eq!(book.trades[1].maker, OrderId::new(2));
    assert_eq!(book.trades[1].price, dec(15));
    assert_eq!(book.trades[1].quantity, dec(80));
    assert!(book.trades[0].id.0 < book.trades[1].id.0);
    let top_bid = book.peek_top(&OrderSide::Bid).unwrap();
    assert_eq!(top_bid.id(), OrderId::new(2));
    assert_eq!(top_bid.remaining(), dec(19));
    assert!(book.peek_top(&OrderSide::Ask).is_none());
}

#[test]
fn fifo_within_level() {
    let mut book = Orderbook::new();
    assert_eq!(book.handle_create(limit(1, OrderSide::Ask, 100, 15)), Ok(false));
    assert_eq!(book.handle_create(limit(2, OrderSide::Ask, 80, 15)), Ok(false));
    assert_eq!(book.handle_create(limit(3, OrderSide::Bid, 120, 15)), Ok(true));
    assert_eq!(book.trades.len(), 2);
    assert_eq!(book.trades[0].maker, OrderId::new(1));
    assert_eq!(book.trades[0].quantity, dec(100));
    assert_eq!(book.trades[1].maker, OrderId::new(2));
    assert_eq!(book.trades[1].quantity, dec(20));
    let top_ask = book.peek_top(&OrderSide::Ask).unwrap();
    assert_eq!(top_ask.id(), OrderId::new(2));
    assert_eq!(top_ask.remaining(), dec(60));
    assert!(book.peek_top(&OrderSide::Bid).is_none());
}

#[test]
fn fok_infeasible() {
    let mut book = Orderbook::new();
    assert_eq!(book.handle_create(limit(1, OrderSide::Ask, 80, 15)), Ok(false));
    let fok = Order::limit_order_with(
        OrderId::new(2),
        OrderSide::Bid,
        dec(99),
        dec(15),
        TimeInForce::FillOrKill,
    );
    assert_eq!(book.handle_create(fok), Ok(false));
    assert_eq!(book.trades.len(), 0);
    let top_ask = book.peek_top(&OrderSide::Ask).unwrap();
    assert_eq!(top_ask.id(), OrderId::new(1));
    assert_eq!(top_ask.remaining(), dec(80));
    assert!(book.peek_top(&OrderSide::Bid).is_none());
    assert_eq!(
        book.handle_cancel(OrderId::new(2)),
        Err(OrderbookError::OrderToCancelNotFound(OrderId::new(2)))
    );
}

#[test]
fn fok_feasible_over_two_levels() {
    let mut book = Orderbook::new();
    assert_eq!(book.handle_create(limit(1, OrderSide::Ask, 80, 15)), Ok(false));
    assert_eq!(book.handle_create(limit(2, OrderSide::Ask, 100, 15)), Ok(false));
    let fok = Order::limit_order_with(
        OrderId::new(3),
        OrderSide::Bid,
        dec(99),
        dec(15),
        TimeInForce::FillOrKill,
    );
    assert_eq!(book.handle_create(fok), Ok(true));
    assert_eq!(book.trades.len(), 2);
    let top_ask = book.peek_top(&OrderSide::Ask).unwrap();
    assert_eq!(top_ask.remaining(), dec(81));
    assert!(book.peek_top(&OrderSide::Bid).is_none());
}

#[test]
fn post_only_crossing() {
    let mut book = Orderbook::new();
    assert_eq!(book.handle_create(limit(1, OrderSide::Ask, 100, 15)), Ok(false));
    let post_only = Order::limit_order_with(
        OrderId::new(2),
        OrderSide::Bid,
        dec(99),
        dec(15),
        TimeInForce::GoodTilCancel { post_only: true },
    );
    assert_eq!(book.handle_create(post_only), Ok(false));
    assert_eq!(book.trades.len(), 0);
    let top_ask = book.peek_top(&OrderSide::Ask).unwrap();
    assert_eq!(top_ask.id(), OrderId::new(1));
    assert_eq!(top_ask.remaining(), dec(100));
    assert!(book.peek_top(&OrderSide::Bid).is_none());
}

#[test]
fn post_only_rests_when_not_crossing() {
    let mut book = Orderbook::new();
    assert_eq!(book.handle_create(limit(1, OrderSide::Ask, 100, 15)), Ok(false));
    let post_only = Order::limit_order_with(
        OrderId::new(2),
        OrderSide::Bid,
        dec(99),
        dec(14),
        TimeInForce::GoodTilCancel { post_only: true },
    );
    assert_eq!(book.handle_create(post_only), Ok(false));
    let top_bid = book.peek_top(&OrderSide::Bid).unwrap();
    assert_eq!(top_bid.id(), OrderId::new(2));
}

#[test]
fn market_taker() {
    let mut book = Orderbook::new();
    assert_eq!(book.handle_create(limit(1, OrderSide::Ask, 10, 100)), Ok(false));
    let market = Order::market_order(OrderId::new(2), OrderSide::Bid, dec(15));
    assert_eq!(book.handle_create(market), Ok(true));
    assert_eq!(book.trades.len(), 1);
    let t = &book.trades[0];
    assert_eq!(t.taker, OrderId::new(2));
    assert_eq!(t.maker, OrderId::new(1));
    assert_eq!(t.price, dec(100));
    assert_eq!(t.quantity, dec(10));
    // The market remainder never rests.
    assert!(book.peek_top(&OrderSide::Bid).is_none());
    assert!(book.peek_top(&OrderSide::Ask).is_none());
}

#[test]
fn ioc_remainder_not_rested() {
    let mut book = Orderbook::new();
    assert_eq!(book.handle_create(limit(1, OrderSide::Ask, 80, 15)), Ok(false));
    let ioc = Order::limit_order_with(
        OrderId::new(2),
        OrderSide::Bid,
        dec(99),
        dec(15),
        TimeInForce::ImmediateOrCancel { all_or_none: false },
    );
    assert_eq!(book.handle_create(ioc), Ok(true));
    assert_eq!(book.trades.len(), 1);
    assert_eq!(book.trades[0].quantity, dec(80));
    assert!(book.peek_top(&OrderSide::Ask).is_none());
    assert!(book.peek_top(&OrderSide::Bid).is_none());
}

#[test]
fn cancel_returns_resting_order() {
    let mut book = Orderbook::new();
    let o = limit(1, OrderSide::Ask, 100, 15);
    assert_eq!(book.handle_create(o), Ok(false));
    let cancelled = book.handle_cancel(OrderId::new(1)).unwrap();
    assert_eq!(cancelled, o);
    assert_eq!(cancelled.remaining(), dec(100));
    assert!(book.peek_top(&OrderSide::Ask).is_none());
}

#[test]
fn non_crossing_rest_then_cancel_both() {
    let mut book = Orderbook::new();
    let ask = limit(1, OrderSide::Ask, 100, 15);
    let bid = limit(2, OrderSide::Bid, 25, 14);
    assert_eq!(book.handle_create(ask), Ok(false));
    assert_eq!(book.handle_create(bid), Ok(false));
    assert!(book.peek_top(&OrderSide::Ask).is_some());
    assert!(book.peek_top(&OrderSide::Bid).is_some());
    assert_eq!(book.handle_cancel(OrderId::new(1)), Ok(ask));
    assert_eq!(book.handle_cancel(OrderId::new(2)), Ok(bid));
    assert!(book.peek_top(&OrderSide::Ask).is_none());
    assert!(book.peek_top(&OrderSide::Bid).is_none());
}

#[test]
fn cancel_then_cancel_not_found() {
    let mut book = Orderbook::new();
    assert_eq!(book.handle_create(limit(1, OrderSide::Ask, 100, 15)), Ok(false));
    assert!(book.handle_cancel(OrderId::new(1)).is_ok());
    assert_eq!(
        book.handle_cancel(OrderId::new(1)),
        Err(OrderbookError::OrderToCancelNotFound(OrderId::new(1)))
    );
}

#[test]
fn duplicate_id_rejected() {
    let mut book = Orderbook::new();
    assert_eq!(book.handle_create(limit(1, OrderSide::Ask, 100, 15)), Ok(false));
    assert_eq!(
        book.handle_create(limit(1, OrderSide::Ask, 50, 16)),
        Err(OrderbookError::OrderDuplicated(OrderId::new(1)))
    );
    // The rejection leaves the book as it was.
    let top_ask = book.peek_top(&OrderSide::Ask).unwrap();
    assert_eq!(top_ask.remaining(), dec(100));
}

#[test]
fn cancel_after_full_fill_not_found() {
    let mut book = Orderbook::new();
    assert_eq!(book.handle_create(limit(2, OrderSide::Bid, 99, 15)), Ok(false));
    assert_eq!(book.handle_create(limit(1, OrderSide::Ask, 100, 15)), Ok(true));
    // The bid was completed and removed, so it cannot be cancelled.
    assert_eq!(
        book.handle_cancel(OrderId::new(2)),
        Err(OrderbookError::OrderToCancelNotFound(OrderId::new(2)))
    );
    // The ask's remainder rests and can be cancelled.
    assert!(book.handle_cancel(OrderId::new(1)).is_ok());
}

#[test]
fn trade_ids_strictly_increase_across_submits() {
    let mut book = Orderbook::new();
    assert_eq!(book.handle_create(limit(1, OrderSide::Ask, 10, 15)), Ok(false));
    assert_eq!(book.handle_create(limit(2, OrderSide::Bid, 10, 15)), Ok(true));
    assert_eq!(book.handle_create(limit(3, OrderSide::Ask, 7, 14)), Ok(false));
    assert_eq!(book.handle_create(limit(4, OrderSide::Bid, 9, 14)), Ok(true));
    assert!(book.trades.len() >= 2);
    for i in 1..book.trades.len() {
        assert!(book.trades[i - 1].id.0 < book.trades[i].id.0);
    }
}
