use matchine::decimal::Decimal;
use matchine::order::{Flags, Order, OrderError, OrderId, OrderSide, OrderStatus};
use matchine::trade::{Trade, TradeError, TradeId};

fn dec(units: u128) -> Decimal {
    Decimal::new(units)
}

#[test]
fn decimal_arithmetic_is_exact() {
    assert_eq!(dec(3).plus(dec(4)), dec(7));
    assert_eq!(dec(9).minus(dec(2)), dec(7));
    assert_eq!(dec(5).min_with(dec(8)), dec(5));
    assert_eq!(dec(8).min_with(dec(5)), dec(5));
    assert!(Decimal::zero().is_zero());
    assert!(!dec(1).is_zero());
}

#[test]
fn match_same_price() {
    let ask = Order::limit_order(OrderId::new(1), OrderSide::Ask, dec(70), dec(14));
    let bid = Order::limit_order(OrderId::new(2), OrderSide::Bid, dec(20), dec(14));
    assert!(ask.matches(&bid));
    assert!(bid.matches(&ask));
}

#[test]
fn match_crossing_price() {
    let ask = Order::limit_order(OrderId::new(1), OrderSide::Ask, dec(50), dec(13));
    let bid = Order::limit_order(OrderId::new(2), OrderSide::Bid, dec(20), dec(14));
    assert!(ask.matches(&bid));
}

#[test]
fn no_match_when_prices_apart() {
    let ask = Order::limit_order(OrderId::new(1), OrderSide::Ask, dec(70), dec(14));
    let bid = Order::limit_order(OrderId::new(2), OrderSide::Bid, dec(40), dec(13));
    assert!(!ask.matches(&bid));
    assert!(!bid.matches(&ask));
}

#[test]
fn market_taker_matches_limit_maker_only() {
    let ask = Order::limit_order(OrderId::new(1), OrderSide::Ask, dec(70), dec(14));
    let market_bid = Order::market_order(OrderId::new(2), OrderSide::Bid, dec(40));
    // A market taker is price-indifferent; a market maker is rejected by an
    // ask taker comparing against an absent price.
    assert!(market_bid.matches(&ask));
    assert!(!ask.matches(&market_bid));
}

#[test]
fn fill_partial_then_complete() {
    let mut o = Order::limit_order(OrderId::new(1), OrderSide::Ask, dec(10), dec(5));
    assert_eq!(o.status(), OrderStatus::Open);
    assert_eq!(o.fill(dec(4)), Ok(()));
    assert_eq!(o.status(), OrderStatus::Partial);
    assert_eq!(o.remaining(), dec(6));
    assert_eq!(o.fill(dec(6)), Ok(()));
    assert_eq!(o.status(), OrderStatus::Completed);
    assert_eq!(o.remaining(), dec(0));
    assert!(o.is_closed());
}

#[test]
fn overfill_is_rejected() {
    let mut o = Order::limit_order(OrderId::new(1), OrderSide::Ask, dec(10), dec(5));
    assert_eq!(
        o.fill(dec(11)),
        Err(OrderError::Overfill { fill: dec(11), remaining: dec(10) })
    );
    // The failed fill changes nothing.
    assert_eq!(o.status(), OrderStatus::Open);
    assert_eq!(o.remaining(), dec(10));
}

#[test]
fn cancel_transitions() {
    let mut open = Order::limit_order(OrderId::new(1), OrderSide::Ask, dec(10), dec(5));
    open.cancel();
    assert_eq!(open.status(), OrderStatus::Cancelled);
    let mut partial = Order::limit_order(OrderId::new(2), OrderSide::Ask, dec(10), dec(5));
    assert_eq!(partial.fill(dec(4)), Ok(()));
    partial.cancel();
    assert_eq!(partial.status(), OrderStatus::Closed);
    // Terminal statuses never leave.
    partial.cancel();
    assert_eq!(partial.status(), OrderStatus::Closed);
}

#[test]
fn flags_of_order_kinds() {
    let gtc = Order::limit_order(OrderId::new(1), OrderSide::Ask, dec(1), dec(1));
    assert!(!gtc.is_post_only());
    assert!(!gtc.is_immediate_or_cancel());
    assert!(!gtc.is_all_or_none());
    assert!(!gtc.is_fill_or_kill());
    assert!(gtc.is_bookable());
    let market = Order::market_order_with(OrderId::new(2), OrderSide::Bid, dec(1), true);
    assert!(market.is_immediate_or_cancel());
    assert!(market.is_all_or_none());
    assert!(market.is_fill_or_kill());
    assert!(!market.is_bookable());
}

#[test]
fn can_trade_is_min_of_remainders() {
    let a = Order::limit_order(OrderId::new(1), OrderSide::Ask, dec(10), dec(5));
    let b = Order::limit_order(OrderId::new(2), OrderSide::Bid, dec(15), dec(5));
    assert_eq!(a.can_trade(&b), dec(10));
    assert_eq!(b.can_trade(&a), dec(10));
}

#[test]
fn trade_fills_both_sides_at_maker_price() {
    let mut taker = Order::limit_order(OrderId::new(2), OrderSide::Bid, dec(15), dec(100));
    let mut maker = Order::limit_order(OrderId::new(1), OrderSide::Ask, dec(10), dec(100));
    let traded = taker.can_trade(&maker);
    let trade = Trade::new(&mut taker, &mut maker, traded, TradeId::new(7)).unwrap();
    assert_eq!(taker.remaining(), dec(5));
    assert_eq!(maker.remaining(), dec(0));
    assert_eq!(trade.id(), TradeId::new(7));
    assert_eq!(trade.taker, OrderId::new(2));
    assert_eq!(trade.maker, OrderId::new(1));
    assert_eq!(trade.price(), dec(100));
    assert_eq!(trade.quantity, dec(10));
}

#[test]
fn trade_rejects_market_maker() {
    let mut taker = Order::limit_order(OrderId::new(2), OrderSide::Bid, dec(15), dec(100));
    let mut maker = Order::market_order(OrderId::new(1), OrderSide::Ask, dec(10));
    let r = Trade::new(&mut taker, &mut maker, dec(5), TradeId::new(0));
    assert_eq!(r, Err(TradeError::MakerWithoutLimitPrice(OrderId::new(1))));
    // Nothing was filled.
    assert_eq!(taker.remaining(), dec(15));
    assert_eq!(maker.remaining(), dec(10));
}

#[test]
fn opposite_side() {
    assert_eq!(OrderSide::Ask.opposite(), OrderSide::Bid);
    assert_eq!(OrderSide::Bid.opposite(), OrderSide::Ask);
}
