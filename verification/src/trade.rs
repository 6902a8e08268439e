use vstd::prelude::*;

use crate::decimal::Decimal;
use crate::order::{Order, OrderError, OrderId, OrderPrice, OrderQuantity};

verus! {

/// Identifier of a trade; the engine assigns them monotonically per book.
#[derive(Clone, Copy, Debug, Hash, PartialEq, Eq, Structural)]
pub struct TradeId(pub u64);

impl TradeId {
    #[inline]
    pub fn new(trade_id: u64) -> (r: Self)
        ensures
            r.0 == trade_id,
    {
        Self(trade_id)
    }
}

impl From<u64> for TradeId {
    fn from(value: u64) -> (r: TradeId)
        ensures
            r.0 == value,
    {
        TradeId::new(value)
    }
}

impl vstd::std_specs::convert::FromSpecImpl<u64> for TradeId {
    open spec fn obeys_from_spec() -> bool {
        true
    }

    open spec fn from_spec(value: u64) -> Self {
        TradeId(value)
    }
}

/// The immutable record of one fill between a taker and a maker.
#[derive(Clone, Copy, Debug, PartialEq, Eq, Structural)]
pub struct Trade {
    pub id: TradeId,
    pub taker: OrderId,
    pub maker: OrderId,
    pub price: OrderPrice,
    pub quantity: OrderQuantity,
}

impl Trade {
    /// Execute one fill: both orders are filled by `traded` in lockstep and
    /// the record is created at the maker's limit price (the resting side
    /// sets the price). The maker must be a limit order; a market maker
    /// fails with `MakerWithoutLimitPrice` and changes nothing.
    #[inline]
    pub fn new(
        taker: &mut Order,
        maker: &mut Order,
        traded: OrderQuantity,
        trade_id: TradeId,
    ) -> (r: Result<Trade, TradeError>)
        requires
            old(taker).filled_quantity.units <= old(taker).order_quantity.units,
            old(maker).filled_quantity.units <= old(maker).order_quantity.units,
            traded.units <= old(taker).spec_remaining(),
            traded.units <= old(maker).spec_remaining(),
        ensures
            match old(maker).spec_limit_price() {
                Some(price) => {
                    &&& r == Ok::<Trade, TradeError>(Trade {
                        id: trade_id,
                        taker: old(taker).id,
                        maker: old(maker).id,
                        price,
                        quantity: traded,
                    })
                    &&& *final(taker) == old(taker).spec_fill(traded)
                    &&& *final(maker) == old(maker).spec_fill(traded)
                },
                None => {
                    &&& r == Err::<Trade, TradeError>(
                        TradeError::MakerWithoutLimitPrice(old(maker).id),
                    )
                    &&& *final(taker) == *old(taker)
                    &&& *final(maker) == *old(maker)
                },
            },
    {
        let price = match maker.limit_price() {
            Some(price) => price,
            None => {
                return Err(TradeError::MakerWithoutLimitPrice(maker.id()));
            },
        };
        let taker_fill = taker.fill(traded);
        proof {
            assert(taker_fill is Ok);
        }
        let maker_fill = maker.fill(traded);
        proof {
            assert(maker_fill is Ok);
        }
        Ok(Trade { id: trade_id, taker: taker.id(), maker: maker.id(), price, quantity: traded })
    }

    #[inline]
    pub fn id(&self) -> (r: TradeId)
        ensures
            r == self.id,
    {
        self.id
    }

    #[inline]
    pub fn price(&self) -> (r: OrderPrice)
        ensures
            r == self.price,
    {
        self.price
    }
}

#[derive(Clone, Copy, Debug, PartialEq, Eq, Structural)]
pub enum TradeError {
    /// A maker must be a limit order; the book only ever rests limits.
    MakerWithoutLimitPrice(OrderId),
    /// A fill failed on one of the two sides.
    OrderError(OrderError),
}

} // verus!
