use vstd::prelude::*;

use crate::decimal::Decimal;
use crate::model::{spec_cancel, spec_submit, submit_safe, BookView};
use crate::order::{Order, OrderId, OrderRequest};
use crate::orderbook::Orderbook;

verus! {

/// The matching engine for one trading pair. The pair identifier is kept
/// for bookkeeping only; it does not affect matching.
pub struct Engine {
    pub pair: String,
    pub orderbook: Orderbook,
}

/// The order a creation request asks for: a limit order when a limit price
/// is given, a market order otherwise, with the defaulted flags.
pub open spec fn spec_requested_order(
    order_id: u64,
    side: crate::order::OrderSide,
    limit_price: Option<Decimal>,
    quantity: Decimal,
) -> Order {
    match limit_price {
        Some(price) => Order {
            id: OrderId(order_id),
            side,
            kind: crate::order::OrderType::Limit {
                limit_price: price,
                time_in_force: crate::order::TimeInForce::GoodTilCancel { post_only: false },
            },
            order_quantity: quantity,
            filled_quantity: Decimal { units: 0 },
            status: crate::order::OrderStatus::Open,
        },
        None => Order {
            id: OrderId(order_id),
            side,
            kind: crate::order::OrderType::Market { all_or_none: false },
            order_quantity: quantity,
            filled_quantity: Decimal { units: 0 },
            status: crate::order::OrderStatus::Open,
        },
    }
}

/// What processing a request does to the book: a creation is submitted, a
/// cancellation is attempted; rejections leave the book unchanged.
pub open spec fn spec_process(b: BookView, order_request: OrderRequest) -> BookView {
    match order_request {
        OrderRequest::Create { account_id: _, order_id, pair: _, side, limit_price, quantity } =>
            spec_submit(b, spec_requested_order(order_id, side, limit_price, quantity)).0,
        OrderRequest::Cancel { order_id } => spec_cancel(b, order_id).0,
    }
}

/// Whether a request is one the collaborators promise to deliver: a
/// creation carries a positive quantity and stays within machine limits.
pub open spec fn request_safe(b: BookView, order_request: OrderRequest) -> bool {
    match order_request {
        OrderRequest::Create { account_id: _, order_id, pair: _, side, limit_price, quantity } =>
            quantity.units > 0 && submit_safe(
                b,
                spec_requested_order(order_id, side, limit_price, quantity),
            ),
        OrderRequest::Cancel { .. } => true,
    }
}

/// Relies on str::to_string: copies the characters of the slice into an
/// owned string.
#[verifier::external_body]
fn str_to_string(s: &str) -> (r: String)
    ensures
        r@ == s@,
{
    s.to_string()
}

impl Engine {
    /// The engine's book is well-formed.
    pub open spec fn wf(self) -> bool {
        self.orderbook.wf()
    }

    #[inline]
    pub fn new(pair: &str) -> (r: Self)
        ensures
            r.wf(),
            r.orderbook@ == BookView::empty(),
            r.pair@ == pair@,
    {
        Self { pair: str_to_string(pair), orderbook: Orderbook::new() }
    }

    /// Process one request against the book. Book-level rejections (a
    /// duplicate id, an id not resting) are absorbed: the engine drains a
    /// stream of requests and the book is left as the rejection left it.
    #[inline]
    pub fn process(&mut self, order_request: OrderRequest) -> (r: Result<(), EngineError>)
        requires
            old(self).wf(),
            request_safe(old(self).orderbook@, order_request),
        ensures
            final(self).wf(),
            final(self).orderbook@ == spec_process(old(self).orderbook@, order_request),
            final(self).pair == old(self).pair,
            r == Ok::<(), EngineError>(()),
    {
        match order_request {
            OrderRequest::Create {
                account_id: _,
                order_id,
                pair: _,
                side,
                limit_price,
                quantity,
            } => {
                let order = match limit_price {
                    Some(price) => Order::limit_order(
                        OrderId::new(order_id),
                        side,
                        quantity,
                        price,
                    ),
                    None => Order::market_order(OrderId::new(order_id), side, quantity),
                };
                let _ = self.orderbook.handle_create(order);
            },
            OrderRequest::Cancel { order_id } => {
                let _ = self.orderbook.handle_cancel(OrderId::new(order_id));
            },
        };
        Ok(())
    }

    #[inline]
    pub fn orderbook(&self) -> (r: &Orderbook)
        ensures
            *r == self.orderbook,
    {
        &self.orderbook
    }
}

#[derive(Debug, PartialEq, Eq)]
pub enum EngineError {
    /// A request named another pair than the engine's.
    InvalidPair { expected: String, found: String },
}

} // verus!
