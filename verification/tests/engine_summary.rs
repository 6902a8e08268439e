use matchine::decimal::Decimal;
use matchine::engine::Engine;
use matchine::order::{Order, OrderId, OrderRequest, OrderSide};
use matchine::orderbook::Orderbook;
use matchine::policy::{AllOrNone, ImmediateOrCancel, Policy, PostOnly};
use matchine::summary::compute;

fn dec(units: u128) -> Decimal {
    Decimal::new(units)
}

fn create(order_id: u64, side: OrderSide, quantity: u128, price: Option<u128>) -> OrderRequest {
    OrderRequest::Create {
        account_id: String::from("1"),
        order_id,
        pair: String::from("ETH/USDT"),
        side,
        limit_price: price.map(dec),
        quantity: dec(quantity),
    }
}

#[test]
fn engine_processes_creates_and_cancels() {
    let mut engine = Engine::new("ETH/USDT");
    assert_eq!(engine.process(create(1, OrderSide::Ask, 100, Some(15))), Ok(()));
    assert_eq!(engine.process(create(2, OrderSide::Bid, 25, Some(14))), Ok(()));
    let top_ask = engine.orderbook().peek_top(&OrderSide::Ask).unwrap();
    assert_eq!(top_ask.id(), OrderId::new(1));
    assert_eq!(engine.process(OrderRequest::Cancel { order_id: 1 }), Ok(()));
    assert!(engine.orderbook().peek_top(&OrderSide::Ask).is_none());
    // A cancel of an unknown id is absorbed and changes nothing.
    assert_eq!(engine.process(OrderRequest::Cancel { order_id: 9 }), Ok(()));
    let top_bid = engine.orderbook().peek_top(&OrderSide::Bid).unwrap();
    assert_eq!(top_bid.remaining(), dec(25));
}

#[test]
fn engine_matches_market_request() {
    let mut engine = Engine::new("ETH/USDT");
    assert_eq!(engine.process(create(1, OrderSide::Ask, 10, Some(100))), Ok(()));
    assert_eq!(engine.process(create(2, OrderSide::Bid, 15, None)), Ok(()));
    assert_eq!(engine.orderbook().trades.len(), 1);
    assert_eq!(engine.orderbook().trades[0].quantity, dec(10));
    assert!(engine.orderbook().peek_top(&OrderSide::Ask).is_none());
}

#[test]
fn summary_quotes_both_sides_and_spread() {
    let mut book = Orderbook::new();
    let _ = book.handle_create(Order::limit_order(
        OrderId::new(1),
        OrderSide::Ask,
        dec(100),
        dec(15),
    ));
    let _ = book.handle_create(Order::limit_order(
        OrderId::new(2),
        OrderSide::Bid,
        dec(25),
        dec(14),
    ));
    let summary = compute(&book);
    assert_eq!(summary.best_ask, Some(dec(15)));
    assert_eq!(summary.best_bid, Some(dec(14)));
    assert_eq!(summary.spread(), Some(dec(1)));
}

#[test]
fn summary_of_empty_book_has_no_quotes() {
    let book = Orderbook::new();
    let summary = compute(&book);
    assert_eq!(summary.best_ask, None);
    assert_eq!(summary.best_bid, None);
    assert_eq!(summary.spread(), None);
}

#[test]
fn post_only_rule_cancels_crossing_order() {
    let mut book = Orderbook::new();
    let _ = book.handle_create(Order::limit_order(
        OrderId::new(1),
        OrderSide::Ask,
        dec(100),
        dec(15),
    ));
    let mut crossing = Order::limit_order_with(
        OrderId::new(2),
        OrderSide::Bid,
        dec(99),
        dec(15),
        matchine::order::TimeInForce::GoodTilCancel { post_only: true },
    );
    PostOnly.enforce(&mut crossing, &book);
    assert!(crossing.is_closed());
    let mut resting = Order::limit_order_with(
        OrderId::new(3),
        OrderSide::Bid,
        dec(99),
        dec(14),
        matchine::order::TimeInForce::GoodTilCancel { post_only: true },
    );
    PostOnly.enforce(&mut resting, &book);
    assert!(!resting.is_closed());
}

#[test]
fn all_or_none_rule_cancels_uncoverable_order() {
    let mut book = Orderbook::new();
    let _ = book.handle_create(Order::limit_order(
        OrderId::new(1),
        OrderSide::Ask,
        dec(80),
        dec(15),
    ));
    let mut too_big = Order::market_order_with(OrderId::new(2), OrderSide::Bid, dec(99), true);
    AllOrNone.enforce(&mut too_big, &book);
    assert!(too_big.is_closed());
    let mut coverable = Order::market_order_with(OrderId::new(3), OrderSide::Bid, dec(50), true);
    AllOrNone.enforce(&mut coverable, &book);
    assert!(!coverable.is_closed());
}

#[test]
fn ioc_rule_cancels_unconditionally() {
    let book = Orderbook::new();
    let mut market = Order::market_order(OrderId::new(1), OrderSide::Bid, dec(5));
    ImmediateOrCancel.enforce(&mut market, &book);
    assert!(market.is_closed());
    let mut gtc = Order::limit_order(OrderId::new(2), OrderSide::Bid, dec(5), dec(10));
    ImmediateOrCancel.enforce(&mut gtc, &book);
    assert!(!gtc.is_closed());
}
