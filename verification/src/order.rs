use vstd::prelude::*;

use crate::decimal::Decimal;

verus! {

/// Opaque identifier of an order, unique within a book.
#[derive(Clone, Copy, Debug, Hash, PartialEq, Eq, Structural)]
pub struct OrderId(pub u64);

impl OrderId {
    #[inline]
    pub fn new(order_id: u64) -> (r: Self)
        ensures
            r.0 == order_id,
    {
        Self(order_id)
    }
}

impl From<u64> for OrderId {
    fn from(value: u64) -> (r: OrderId)
        ensures
            r.0 == value,
    {
        OrderId::new(value)
    }
}

impl vstd::std_specs::convert::FromSpecImpl<u64> for OrderId {
    open spec fn obeys_from_spec() -> bool {
        true
    }

    open spec fn from_spec(value: u64) -> Self {
        OrderId(value)
    }
}

pub type OrderPrice = Decimal;

pub type OrderQuantity = Decimal;

/// A request handed to the engine by its collaborators: create a new order
/// or cancel a resting one.
#[derive(Clone, Debug, PartialEq, Eq)]
pub enum OrderRequest {
    Create {
        account_id: String,
        order_id: u64,
        pair: String,
        side: OrderSide,
        /// `None` stands for a market order.
        limit_price: Option<Decimal>,
        quantity: Decimal,
    },
    Cancel {
        order_id: u64,
    },
}

#[derive(Clone, Copy, Debug, Hash, PartialEq, Eq, Structural)]
pub enum OrderSide {
    Ask,
    Bid,
}

impl OrderSide {
    /// The other side of the book.
    #[inline]
    pub fn opposite(self) -> (r: Self)
        ensures
            r == self.spec_opposite(),
    {
        match self {
            Self::Ask => Self::Bid,
            Self::Bid => Self::Ask,
        }
    }

    pub open spec fn spec_opposite(self) -> Self {
        match self {
            Self::Ask => Self::Bid,
            Self::Bid => Self::Ask,
        }
    }
}

#[derive(Clone, Copy, Debug, PartialEq, Eq, Structural)]
pub enum OrderType {
    Limit { limit_price: OrderPrice, time_in_force: TimeInForce },
    Market { all_or_none: bool },
}

#[derive(Clone, Copy, Debug, PartialEq, Eq, Structural)]
pub enum TimeInForce {
    GoodTilCancel { post_only: bool },
    ImmediateOrCancel { all_or_none: bool },
    FillOrKill,
}

impl Default for TimeInForce {
    fn default() -> (r: Self)
        ensures
            r == (TimeInForce::GoodTilCancel { post_only: false }),
    {
        Self::GoodTilCancel { post_only: false }
    }
}

#[derive(Clone, Copy, Debug, PartialEq, Eq, Structural)]
pub enum OrderStatus {
    Open,
    Partial,
    Cancelled,
    Closed,
    Completed,
}

/// One order, from creation to its terminal status.
#[derive(Clone, Copy, Debug, PartialEq, Eq, Structural)]
pub struct Order {
    pub id: OrderId,
    pub side: OrderSide,
    pub kind: OrderType,
    pub order_quantity: OrderQuantity,
    pub filled_quantity: OrderQuantity,
    pub status: OrderStatus,
}

impl Order {
    /// The quantity still to be filled.
    pub open spec fn spec_remaining(self) -> int {
        self.order_quantity.units - self.filled_quantity.units
    }

    /// The limit price, absent on market orders.
    pub open spec fn spec_limit_price(self) -> Option<OrderPrice> {
        match self.kind {
            OrderType::Limit { limit_price, .. } => Some(limit_price),
            OrderType::Market { .. } => None,
        }
    }

    pub open spec fn spec_is_bookable(self) -> bool {
        self.kind is Limit
    }

    pub open spec fn spec_is_closed(self) -> bool {
        match self.status {
            OrderStatus::Cancelled | OrderStatus::Closed | OrderStatus::Completed => true,
            _ => false,
        }
    }

    /// The per-order invariant: a positive total quantity, fills that never
    /// exceed it, and a status that agrees with the fill level.
    pub open spec fn wf(self) -> bool {
        &&& self.order_quantity.units > 0
        &&& self.filled_quantity.units <= self.order_quantity.units
        &&& (self.status is Completed <==> self.filled_quantity.units
            == self.order_quantity.units)
        &&& (self.status is Open ==> self.filled_quantity.units == 0)
        &&& (self.status is Cancelled ==> self.filled_quantity.units == 0)
        &&& (self.status is Partial || self.status is Closed ==> 0 < self.filled_quantity.units
            < self.order_quantity.units)
    }

    /// Whether an incoming `self` can trade against a resting `maker`:
    /// both sides open, opposite sides, and the taker's limit price, when it
    /// has one, reaching the maker's price. A market taker is
    /// price-indifferent.
    pub open spec fn spec_matches(self, maker: Order) -> bool {
        if self.spec_is_closed() || maker.spec_is_closed() {
            false
        } else {
            match self.kind {
                OrderType::Market { .. } => true,
                OrderType::Limit { limit_price, .. } => match (self.side, maker.side) {
                    (OrderSide::Ask, OrderSide::Bid) => match maker.spec_limit_price() {
                        Some(maker_price) => limit_price.units <= maker_price.units,
                        None => false,
                    },
                    (OrderSide::Bid, OrderSide::Ask) => match maker.spec_limit_price() {
                        Some(maker_price) => limit_price.units >= maker_price.units,
                        None => true,
                    },
                    _ => false,
                },
            }
        }
    }

    /// The order after a fill of `quantity`.
    pub open spec fn spec_fill(self, quantity: Decimal) -> Order {
        Order {
            filled_quantity: Decimal {
                units: (self.filled_quantity.units + quantity.units) as u128,
            },
            status: if self.filled_quantity.units + quantity.units
                == self.order_quantity.units {
                OrderStatus::Completed
            } else {
                OrderStatus::Partial
            },
            ..self
        }
    }

    /// The order after a cancel: `Open` becomes `Cancelled`, `Partial`
    /// becomes `Closed`, terminal states stay.
    pub open spec fn spec_cancel(self) -> Order {
        match self.status {
            OrderStatus::Open => Order { status: OrderStatus::Cancelled, ..self },
            OrderStatus::Partial => Order { status: OrderStatus::Closed, ..self },
            _ => self,
        }
    }

    /// A fresh limit order, good-til-cancel.
    #[inline]
    pub fn limit_order(
        id: OrderId,
        side: OrderSide,
        quantity: OrderQuantity,
        limit_price: OrderPrice,
    ) -> (r: Self)
        ensures
            r == (Order {
                id,
                side,
                kind: OrderType::Limit {
                    limit_price,
                    time_in_force: TimeInForce::GoodTilCancel { post_only: false },
                },
                order_quantity: quantity,
                filled_quantity: Decimal { units: 0 },
                status: OrderStatus::Open,
            }),
    {
        Self {
            id,
            side,
            kind: OrderType::Limit { limit_price, time_in_force: TimeInForce::default() },
            order_quantity: quantity,
            filled_quantity: Decimal::zero(),
            status: OrderStatus::Open,
        }
    }

    /// A fresh limit order with an explicit time-in-force.
    #[inline]
    pub fn limit_order_with(
        id: OrderId,
        side: OrderSide,
        quantity: OrderQuantity,
        limit_price: OrderPrice,
        time_in_force: TimeInForce,
    ) -> (r: Self)
        ensures
            r == (Order {
                id,
                side,
                kind: OrderType::Limit { limit_price, time_in_force },
                order_quantity: quantity,
                filled_quantity: Decimal { units: 0 },
                status: OrderStatus::Open,
            }),
    {
        Self {
            id,
            side,
            kind: OrderType::Limit { limit_price, time_in_force },
            order_quantity: quantity,
            filled_quantity: Decimal::zero(),
            status: OrderStatus::Open,
        }
    }

    /// A fresh market order.
    #[inline]
    pub fn market_order(id: OrderId, side: OrderSide, quantity: OrderQuantity) -> (r: Self)
        ensures
            r == (Order {
                id,
                side,
                kind: OrderType::Market { all_or_none: false },
                order_quantity: quantity,
                filled_quantity: Decimal { units: 0 },
                status: OrderStatus::Open,
            }),
    {
        Self {
            id,
            side,
            kind: OrderType::Market { all_or_none: false },
            order_quantity: quantity,
            filled_quantity: Decimal::zero(),
            status: OrderStatus::Open,
        }
    }

    /// A fresh market order with an explicit all-or-none flag.
    #[inline]
    pub fn market_order_with(
        id: OrderId,
        side: OrderSide,
        quantity: OrderQuantity,
        all_or_none: bool,
    ) -> (r: Self)
        ensures
            r == (Order {
                id,
                side,
                kind: OrderType::Market { all_or_none },
                order_quantity: quantity,
                filled_quantity: Decimal { units: 0 },
                status: OrderStatus::Open,
            }),
    {
        Self {
            id,
            side,
            kind: OrderType::Market { all_or_none },
            order_quantity: quantity,
            filled_quantity: Decimal::zero(),
            status: OrderStatus::Open,
        }
    }

    #[inline]
    pub fn id(&self) -> (r: OrderId)
        ensures
            r == self.id,
    {
        self.id
    }

    #[inline]
    pub fn side(&self) -> (r: OrderSide)
        ensures
            r == self.side,
    {
        self.side
    }

    #[inline]
    pub fn remaining(&self) -> (r: OrderQuantity)
        requires
            self.filled_quantity.units <= self.order_quantity.units,
        ensures
            r.units == self.spec_remaining(),
    {
        self.order_quantity.minus(self.filled_quantity)
    }

    #[inline]
    pub fn status(&self) -> (r: OrderStatus)
        ensures
            r == self.status,
    {
        self.status
    }

    #[inline]
    pub fn limit_price(&self) -> (r: Option<OrderPrice>)
        ensures
            r == self.spec_limit_price(),
    {
        match self.kind {
            OrderType::Limit { limit_price, .. } => Some(limit_price),
            OrderType::Market { .. } => None,
        }
    }

    /// The quantity the two orders can trade: the smaller of the remainders.
    pub fn can_trade(&self, order: &Order) -> (r: OrderQuantity)
        requires
            self.filled_quantity.units <= self.order_quantity.units,
            order.filled_quantity.units <= order.order_quantity.units,
        ensures
            r.units == if self.spec_remaining() <= order.spec_remaining() {
                self.spec_remaining()
            } else {
                order.spec_remaining()
            },
    {
        self.remaining().min_with(order.remaining())
    }

    /// Only limit orders may rest on the book.
    #[inline]
    pub fn is_bookable(&self) -> (r: bool)
        ensures
            r == self.spec_is_bookable(),
    {
        match self.kind {
            OrderType::Limit { .. } => true,
            OrderType::Market { .. } => false,
        }
    }

    /// Whether the order is in a terminal status.
    #[inline]
    pub fn is_closed(&self) -> (r: bool)
        ensures
            r == self.spec_is_closed(),
    {
        matches!(
            self.status,
            OrderStatus::Cancelled | OrderStatus::Closed | OrderStatus::Completed
        )
    }

    /// Whether the incoming `self` can trade against the resting `maker`.
    #[inline]
    pub fn matches(&self, maker: &Self) -> (r: bool)
        ensures
            r == self.spec_matches(*maker),
    {
        if self.is_closed() || maker.is_closed() {
            return false;
        }
        match self.kind {
            OrderType::Market { .. } => true,
            OrderType::Limit { limit_price, .. } => match (self.side, maker.side) {
                (OrderSide::Ask, OrderSide::Bid) => match maker.limit_price() {
                    Some(maker_price) => limit_price.units <= maker_price.units,
                    None => false,
                },
                (OrderSide::Bid, OrderSide::Ask) => match maker.limit_price() {
                    Some(maker_price) => limit_price.units >= maker_price.units,
                    None => true,
                },
                _ => false,
            },
        }
    }

    /// Record a fill of `quantity`. Fails with `Overfill`, changing nothing,
    /// when `quantity` exceeds the remainder; otherwise the fill is recorded
    /// and the status becomes `Completed` on a full fill, else `Partial`.
    #[inline]
    pub fn fill(&mut self, quantity: OrderQuantity) -> (r: Result<(), OrderError>)
        requires
            old(self).filled_quantity.units <= old(self).order_quantity.units,
        ensures
            quantity.units > old(self).spec_remaining() ==> r == Err::<(), OrderError>(
                OrderError::Overfill {
                    fill: quantity,
                    remaining: Decimal { units: old(self).spec_remaining() as u128 },
                },
            ) && *final(self) == *old(self),
            quantity.units <= old(self).spec_remaining() ==> r == Ok::<(), OrderError>(())
                && *final(self) == old(self).spec_fill(quantity),
    {
        let remaining = self.remaining();
        if quantity.units > remaining.units {
            return Err(OrderError::Overfill { fill: quantity, remaining });
        }
        self.filled_quantity = self.filled_quantity.plus(quantity);
        self.status = if self.filled_quantity.units == self.order_quantity.units {
            OrderStatus::Completed
        } else {
            OrderStatus::Partial
        };
        Ok(())
    }

    /// Cancel the order: `Open` becomes `Cancelled`, `Partial` becomes
    /// `Closed`; a terminal status is left as it is.
    #[inline]
    pub fn cancel(&mut self)
        ensures
            *final(self) == old(self).spec_cancel(),
    {
        match self.status {
            OrderStatus::Open => self.status = OrderStatus::Cancelled,
            OrderStatus::Partial => self.status = OrderStatus::Closed,
            _ => (),
        }
    }
}

/// The time-in-force and liquidity flags of an order.
pub trait Flags {
    spec fn spec_is_all_or_none(&self) -> bool;

    spec fn spec_is_immediate_or_cancel(&self) -> bool;

    spec fn spec_is_post_only(&self) -> bool;

    /// Whether the order must be filled in its entirety or not at all.
    fn is_all_or_none(&self) -> (r: bool)
        ensures
            r == self.spec_is_all_or_none(),
    ;

    /// Whether any unfilled remainder is discarded instead of rested.
    fn is_immediate_or_cancel(&self) -> (r: bool)
        ensures
            r == self.spec_is_immediate_or_cancel(),
    ;

    /// Whether the order may only add liquidity, never cross.
    fn is_post_only(&self) -> (r: bool)
        ensures
            r == self.spec_is_post_only(),
    ;
}

impl Flags for Order {
    open spec fn spec_is_all_or_none(&self) -> bool {
        match self.kind {
            OrderType::Market { all_or_none } => all_or_none,
            OrderType::Limit {
                time_in_force: TimeInForce::ImmediateOrCancel { all_or_none },
                ..
            } => all_or_none,
            _ => false,
        }
    }

    open spec fn spec_is_immediate_or_cancel(&self) -> bool {
        match self.kind {
            OrderType::Market { .. } => true,
            OrderType::Limit { time_in_force: TimeInForce::ImmediateOrCancel { .. }, .. } => true,
            OrderType::Limit { time_in_force: TimeInForce::FillOrKill, .. } => true,
            _ => false,
        }
    }

    open spec fn spec_is_post_only(&self) -> bool {
        match self.kind {
            OrderType::Limit {
                time_in_force: TimeInForce::GoodTilCancel { post_only },
                ..
            } => post_only,
            _ => false,
        }
    }

    #[inline]
    fn is_all_or_none(&self) -> (r: bool) {
        match self.kind {
            OrderType::Market { all_or_none } => all_or_none,
            OrderType::Limit {
                time_in_force: TimeInForce::ImmediateOrCancel { all_or_none },
                ..
            } => all_or_none,
            _ => false,
        }
    }

    #[inline]
    fn is_immediate_or_cancel(&self) -> (r: bool) {
        matches!(
            self.kind,
            OrderType::Market { .. } | OrderType::Limit {
                time_in_force: TimeInForce::ImmediateOrCancel { .. } | TimeInForce::FillOrKill,
                ..
            }
        )
    }

    #[inline]
    fn is_post_only(&self) -> (r: bool) {
        matches!(
            self.kind,
            OrderType::Limit { time_in_force: TimeInForce::GoodTilCancel { post_only: true }, .. }
        )
    }
}

impl Order {
    /// Whether the order demands a complete fill up front: a fill-or-kill
    /// limit order, or any all-or-none order.
    pub open spec fn spec_is_fill_or_kill(self) -> bool {
        ||| self.kind matches OrderType::Limit { time_in_force: TimeInForce::FillOrKill, .. }
        ||| self.spec_is_all_or_none()
    }

    pub fn is_fill_or_kill(&self) -> (r: bool)
        ensures
            r == self.spec_is_fill_or_kill(),
    {
        match self.kind {
            OrderType::Limit { time_in_force: TimeInForce::FillOrKill, .. } => true,
            _ => self.is_all_or_none(),
        }
    }
}

#[derive(Clone, Copy, Debug, PartialEq, Eq, Structural)]
pub enum OrderError {
    /// A fill was attempted beyond the order's remaining quantity.
    Overfill { fill: OrderQuantity, remaining: OrderQuantity },
}

} // verus!
