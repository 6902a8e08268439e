use vstd::prelude::*;

use crate::model::spec_peek_top;
use crate::order::{OrderPrice, OrderSide};
use crate::orderbook::Orderbook;

verus! {

/// The top of the book: the best quoted price of each side.
pub struct Summary {
    pub best_bid: Option<OrderPrice>,
    pub best_ask: Option<OrderPrice>,
}

impl Summary {
    /// The spread a summary quotes: ask over bid when both sides quote.
    /// Prices are unsigned here, so a crossed pair of quotes — which a
    /// well-formed book never produces — yields nothing.
    pub open spec fn spec_spread(self) -> Option<OrderPrice> {
        match (self.best_bid, self.best_ask) {
            (Some(bid_price), Some(ask_price)) => if ask_price.units >= bid_price.units {
                Some(crate::decimal::Decimal { units: (ask_price.units - bid_price.units) as u128 })
            } else {
                None
            },
            _ => None,
        }
    }

    pub fn spread(&self) -> (r: Option<OrderPrice>)
        ensures
            r == self.spec_spread(),
    {
        match (self.best_bid, self.best_ask) {
            (Some(bid_price), Some(ask_price)) => if ask_price.units >= bid_price.units {
                Some(ask_price.minus(bid_price))
            } else {
                None
            },
            _ => None,
        }
    }
}

/// Read the current top of the book: each side's best price, when the side
/// has a resting order.
pub fn compute(orderbook: &Orderbook) -> (r: Summary)
    requires
        orderbook.wf(),
    ensures
        r.best_bid == (match spec_peek_top(orderbook@, OrderSide::Bid) {
            Some(o) => o.spec_limit_price(),
            None => None::<OrderPrice>,
        }),
        r.best_ask == (match spec_peek_top(orderbook@, OrderSide::Ask) {
            Some(o) => o.spec_limit_price(),
            None => None::<OrderPrice>,
        }),
{
    Summary {
        best_bid: match orderbook.peek_top(&OrderSide::Bid) {
            Some(bid) => bid.limit_price(),
            None => None,
        },
        best_ask: match orderbook.peek_top(&OrderSide::Ask) {
            Some(ask) => ask.limit_price(),
            None => None,
        },
    }
}

} // verus!
