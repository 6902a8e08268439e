use vstd::prelude::*;

use crate::model::{fok_feasible, post_only_blocked};
use crate::order::{Flags, Order};
use crate::orderbook::Orderbook;

verus! {

/// A pre-match rule: it may cancel an incoming order against the book's
/// current state, before any matching.
pub trait Policy {
    /// The order as the rule leaves it.
    spec fn spec_enforce(&self, order: Order, orderbook: &Orderbook) -> Order;

    fn enforce(&self, order: &mut Order, orderbook: &Orderbook)
        requires
            orderbook.wf(),
            old(order).filled_quantity.units <= old(order).order_quantity.units,
        ensures
            *final(order) == self.spec_enforce(*old(order), orderbook),
    ;
}

/// Cancels an all-or-none order that the opposite ladder cannot cover.
pub struct AllOrNone;

impl Policy for AllOrNone {
    open spec fn spec_enforce(&self, order: Order, orderbook: &Orderbook) -> Order {
        if order.spec_is_all_or_none() && !fok_feasible(
            order,
            orderbook@.side_levels(order.side.spec_opposite()),
        ) {
            order.spec_cancel()
        } else {
            order
        }
    }

    #[inline]
    fn enforce(&self, order: &mut Order, orderbook: &Orderbook) {
        if order.is_all_or_none() {
            let covered = match order.side() {
                crate::order::OrderSide::Ask => orderbook.bids.covers(order),
                crate::order::OrderSide::Bid => orderbook.asks.covers(order),
            };
            if !covered {
                order.cancel();
            }
        }
    }
}

/// Cancels a post-only order that would cross the best opposite order
/// instead of adding liquidity.
pub struct PostOnly;

impl Policy for PostOnly {
    open spec fn spec_enforce(&self, order: Order, orderbook: &Orderbook) -> Order {
        if post_only_blocked(order, orderbook@.side_levels(order.side.spec_opposite())) {
            order.spec_cancel()
        } else {
            order
        }
    }

    #[inline]
    fn enforce(&self, order: &mut Order, orderbook: &Orderbook) {
        if order.is_post_only() {
            let blocked = match orderbook.peek_top(&order.side().opposite()) {
                Some(top) => order.matches(top),
                None => false,
            };
            if blocked {
                order.cancel();
            }
        }
    }
}

/// Cancels the remainder of an immediate-or-cancel order once matching is
/// over: it never rests.
pub struct ImmediateOrCancel;

impl Policy for ImmediateOrCancel {
    open spec fn spec_enforce(&self, order: Order, orderbook: &Orderbook) -> Order {
        if order.spec_is_immediate_or_cancel() {
            order.spec_cancel()
        } else {
            order
        }
    }

    #[inline]
    fn enforce(&self, order: &mut Order, orderbook: &Orderbook) {
        if order.is_immediate_or_cancel() {
            order.cancel();
        }
    }
}

} // verus!
