//! The mathematical model of the book: price levels and ladders as
//! sequences, the id index as a map, and the matching algorithm as a
//! recursive function. The executable operations in `orderbook` promise to
//! compute exactly what these functions describe.
use vstd::prelude::*;

use crate::decimal::Decimal;
use crate::idindex::OrderLocation;
use crate::order::{Flags, Order, OrderId, OrderSide};
use crate::trade::{Trade, TradeId};

verus! {

/// One price level: the resting orders at one price, first come first.
#[verifier::ext_equal]
pub ghost struct LevelView {
    pub price: Decimal,
    pub orders: Seq<Order>,
}

/// The sum of the remaining quantities of a queue of orders.
pub open spec fn qty_sum(s: Seq<Order>) -> int
    decreases s.len(),
{
    if s.len() == 0 {
        0
    } else {
        s[0].spec_remaining() + qty_sum(s.drop_first())
    }
}

/// Whether `a` is a strictly better price than `b` on the given side:
/// lower for asks, higher for bids.
pub open spec fn better_price(side: OrderSide, a: Decimal, b: Decimal) -> bool {
    match side {
        OrderSide::Ask => a.units < b.units,
        OrderSide::Bid => a.units > b.units,
    }
}

/// A level is sound for its side: non-empty, and every queued order is a
/// well-formed, still-open limit order of that side at exactly this price.
pub open spec fn level_wf(l: LevelView, side: OrderSide) -> bool {
    &&& l.orders.len() > 0
    &&& forall|j: int|
        0 <= j < l.orders.len() ==> {
            &&& (#[trigger] l.orders[j]).wf()
            &&& l.orders[j].side == side
            &&& l.orders[j].spec_limit_price() == Some(l.price)
            &&& !l.orders[j].spec_is_closed()
        }
}

/// A ladder is sound: every level is, and levels stand best price first,
/// strictly ordered.
pub open spec fn ladder_wf(levels: Seq<LevelView>, side: OrderSide) -> bool {
    &&& forall|i: int| 0 <= i < levels.len() ==> level_wf(#[trigger] levels[i], side)
    &&& forall|i: int, j: int|
        0 <= i < j < levels.len() ==> better_price(
            side,
            (#[trigger] levels[i]).price,
            (#[trigger] levels[j]).price,
        )
}

/// All resting orders of a ladder in priority order: best level first,
/// first in first out within a level.
pub open spec fn all_orders(levels: Seq<LevelView>) -> Seq<Order>
    decreases levels.len(),
{
    if levels.len() == 0 {
        Seq::empty()
    } else {
        levels[0].orders + all_orders(levels.drop_first())
    }
}

/// Whether the taker's price reaches a level at `price`: a market taker
/// always does, a limit taker when its price crosses on its side.
pub open spec fn crosses(taker: Order, price: Decimal) -> bool {
    match taker.spec_limit_price() {
        Some(p) => match taker.side {
            OrderSide::Ask => p.units <= price.units,
            OrderSide::Bid => p.units >= price.units,
        },
        None => true,
    }
}

pub open spec fn first_level_len(levels: Seq<LevelView>) -> nat {
    if levels.len() == 0 {
        0
    } else {
        levels[0].orders.len()
    }
}

/// Loop measure: an open taker may still act once, a closed one cannot.
pub open spec fn taker_open_measure(o: Order) -> int {
    if o.spec_is_closed() {
        0
    } else {
        1
    }
}

/// The price at which a bookable order rests.
pub open spec fn rest_price(o: Order) -> Decimal {
    match o.spec_limit_price() {
        Some(p) => p,
        None => Decimal { units: 0 },
    }
}

/// The machine limits under which a submission is served: trade ids must
/// not exhaust `u64` and no level's quantity may overflow its `u128`.
pub open spec fn submit_safe(b: BookView, order: Order) -> bool {
    &&& b.next_trade_id + all_orders(b.side_levels(order.side.spec_opposite())).len()
        <= u64::MAX
    &&& forall|i: int|
        0 <= i < b.side_levels(order.side).len() ==> qty_sum(
            (#[trigger] b.side_levels(order.side)[i]).orders,
        ) + order.spec_remaining() <= u128::MAX
}

/// What one matching walk produces: the taker as it stands afterwards, the
/// opposite ladder as it is left, the trades in the order they were struck,
/// and the ids of the makers that were completed and removed.
#[verifier::ext_equal]
pub ghost struct WalkResult {
    pub taker: Order,
    pub levels: Seq<LevelView>,
    pub trades: Seq<Trade>,
    pub removed: Seq<u64>,
}

/// The match walk. While the taker is open and the best opposite level is
/// priced within reach, the taker trades with the head maker for the
/// smaller of the two remainders; a completed maker leaves its level, an
/// emptied level leaves the ladder, and a maker left open ends the walk
/// (the taker is then spent).
pub open spec fn walk(taker: Order, levels: Seq<LevelView>, next_tid: u64) -> WalkResult
    decreases levels.len(), first_level_len(levels),
{
    if levels.len() == 0 || taker.spec_is_closed() || !crosses(taker, levels[0].price)
        || levels[0].orders.len() == 0 {
        WalkResult { taker, levels, trades: Seq::empty(), removed: Seq::empty() }
    } else {
        let maker = levels[0].orders[0];
        let q = Decimal {
            units: (if taker.spec_remaining() <= maker.spec_remaining() {
                taker.spec_remaining()
            } else {
                maker.spec_remaining()
            }) as u128,
        };
        let taker1 = taker.spec_fill(q);
        let maker1 = maker.spec_fill(q);
        let trade = Trade {
            id: TradeId(next_tid),
            taker: taker.id,
            maker: maker.id,
            price: levels[0].price,
            quantity: q,
        };
        if maker1.spec_is_closed() {
            let levels1 = if levels[0].orders.len() == 1 {
                levels.drop_first()
            } else {
                levels.update(
                    0,
                    LevelView { price: levels[0].price, orders: levels[0].orders.drop_first() },
                )
            };
            let r = walk(taker1, levels1, (next_tid + 1) as u64);
            WalkResult {
                taker: r.taker,
                levels: r.levels,
                trades: seq![trade] + r.trades,
                removed: seq![maker.id.0] + r.removed,
            }
        } else {
            WalkResult {
                taker: taker1,
                levels: levels.update(
                    0,
                    LevelView {
                        price: levels[0].price,
                        orders: levels[0].orders.update(0, maker1),
                    },
                ),
                trades: seq![trade],
                removed: Seq::empty(),
            }
        }
    }
}

/// The fill-or-kill probe, walking level quantities while `need` is left:
/// feasible when the matching levels reached cover the taker's remainder.
pub open spec fn fok_feasible_from(need: int, taker: Order, levels: Seq<LevelView>) -> bool
    decreases levels.len(),
{
    if need <= 0 {
        true
    } else if levels.len() == 0 || taker.spec_is_closed() || !crosses(taker, levels[0].price)
        || levels[0].orders.len() == 0 {
        false
    } else {
        fok_feasible_from(need - qty_sum(levels[0].orders), taker, levels.drop_first())
    }
}

/// Whether a fill-or-kill taker could be filled completely against the
/// ladder, best levels first. Nothing is mutated by the probe.
pub open spec fn fok_feasible(taker: Order, levels: Seq<LevelView>) -> bool {
    fok_feasible_from(taker.spec_remaining(), taker, levels)
}

/// Whether a post-only order would cross: there is a best opposite order
/// and the incoming order matches it.
pub open spec fn post_only_blocked(o: Order, opp: Seq<LevelView>) -> bool {
    &&& o.spec_is_post_only()
    &&& opp.len() > 0
    &&& opp[0].orders.len() > 0
    &&& o.spec_matches(opp[0].orders[0])
}

/// A ladder after resting `o` at `price`: the level at that price gains the
/// order at its tail; a missing level is created where price order puts it.
pub open spec fn ladder_insert(
    levels: Seq<LevelView>,
    side: OrderSide,
    o: Order,
    price: Decimal,
) -> Seq<LevelView>
    decreases levels.len(),
{
    if levels.len() == 0 {
        seq![LevelView { price, orders: seq![o] }]
    } else if better_price(side, price, levels[0].price) {
        seq![LevelView { price, orders: seq![o] }] + levels
    } else if price == levels[0].price {
        seq![LevelView { price, orders: levels[0].orders.push(o) }] + levels.drop_first()
    } else {
        seq![levels[0]] + ladder_insert(levels.drop_first(), side, o, price)
    }
}

/// The position of the first order with the given id, or the length when
/// there is none.
pub open spec fn index_of_id(s: Seq<Order>, id: u64) -> int
    decreases s.len(),
{
    if s.len() == 0 {
        0
    } else if s[0].id.0 == id {
        0
    } else {
        1 + index_of_id(s.drop_first(), id)
    }
}

/// The queue with the first order of the given id taken out.
pub open spec fn remove_id(s: Seq<Order>, id: u64) -> Seq<Order>
    decreases s.len(),
{
    if s.len() == 0 {
        s
    } else if s[0].id.0 == id {
        s.drop_first()
    } else {
        seq![s[0]] + remove_id(s.drop_first(), id)
    }
}

/// The position of the level at the given price, or the length when there
/// is none.
pub open spec fn level_index_at(levels: Seq<LevelView>, price: Decimal) -> int
    decreases levels.len(),
{
    if levels.len() == 0 {
        0
    } else if levels[0].price == price {
        0
    } else {
        1 + level_index_at(levels.drop_first(), price)
    }
}

/// A ladder after removing the order with the given id from the level at
/// `price`; the level leaves the ladder when it empties.
pub open spec fn ladder_remove(levels: Seq<LevelView>, id: u64, price: Decimal) -> Seq<LevelView>
    decreases levels.len(),
{
    if levels.len() == 0 {
        levels
    } else if levels[0].price == price {
        if remove_id(levels[0].orders, id).len() == 0 {
            levels.drop_first()
        } else {
            seq![LevelView { price, orders: remove_id(levels[0].orders, id) }]
                + levels.drop_first()
        }
    } else {
        seq![levels[0]] + ladder_remove(levels.drop_first(), id, price)
    }
}

/// A map after removing every id of the sequence.
pub open spec fn remove_ids(m: Map<u64, OrderLocation>, ids: Seq<u64>) -> Map<u64, OrderLocation>
    decreases ids.len(),
{
    if ids.len() == 0 {
        m
    } else {
        remove_ids(m, ids.drop_last()).remove(ids.last())
    }
}

/// Whether an order with the given id rests somewhere in the ladder, at a
/// level carrying the given price.
pub open spec fn ladder_has(levels: Seq<LevelView>, id: u64, price: Decimal) -> bool {
    exists|i: int, j: int|
        0 <= i < levels.len() && 0 <= j < levels[i].orders.len() && levels[i].price == price
            && (#[trigger] levels[i].orders[j]).id.0 == id
}

/// Whether an order with the given id rests somewhere in the ladder.
pub open spec fn ladder_has_id(levels: Seq<LevelView>, id: u64) -> bool {
    exists|i: int, j: int|
        0 <= i < levels.len() && 0 <= j < levels[i].orders.len() && (#[trigger] levels[i].orders[
        j]).id.0 == id
}

/// No id occurs at two places of the ladder.
pub open spec fn ladder_ids_unique(levels: Seq<LevelView>) -> bool {
    forall|i1: int, j1: int, i2: int, j2: int|
        0 <= i1 < levels.len() && 0 <= j1 < levels[i1].orders.len() && 0 <= i2 < levels.len()
            && 0 <= j2 < levels[i2].orders.len() && (#[trigger] levels[i1].orders[j1]).id.0
            == (#[trigger] levels[i2].orders[j2]).id.0 ==> i1 == i2 && j1 == j2
}

/// The total traded quantity of a trade sequence.
pub open spec fn trades_qty(ts: Seq<Trade>) -> int
    decreases ts.len(),
{
    if ts.len() == 0 {
        0
    } else {
        ts[0].quantity.units + trades_qty(ts.drop_first())
    }
}

/// The total resting quantity of a ladder.
pub open spec fn ladder_qty(levels: Seq<LevelView>) -> int
    decreases levels.len(),
{
    if levels.len() == 0 {
        0
    } else {
        qty_sum(levels[0].orders) + ladder_qty(levels.drop_first())
    }
}

/// Two orders with the same identity: only fill and status may differ, and
/// the fill has not shrunk.
pub open spec fn same_core(a: Order, b: Order) -> bool {
    &&& a.id == b.id
    &&& a.side == b.side
    &&& a.kind == b.kind
    &&& a.order_quantity == b.order_quantity
    &&& a.filled_quantity.units >= b.filled_quantity.units
}

/// The whole book: both ladders, the id index, and the trade log.
#[verifier::ext_equal]
pub ghost struct BookView {
    pub asks: Seq<LevelView>,
    pub bids: Seq<LevelView>,
    pub index: Map<u64, OrderLocation>,
    pub trades: Seq<Trade>,
    pub next_trade_id: u64,
}

impl BookView {
    pub open spec fn side_levels(self, side: OrderSide) -> Seq<LevelView> {
        match side {
            OrderSide::Ask => self.asks,
            OrderSide::Bid => self.bids,
        }
    }

    pub open spec fn with_side(self, side: OrderSide, levels: Seq<LevelView>) -> BookView {
        match side {
            OrderSide::Ask => BookView { asks: levels, ..self },
            OrderSide::Bid => BookView { bids: levels, ..self },
        }
    }

    /// Every resting order is an open limit order standing in exactly one
    /// level of its side's ladder, at its limit price.
    pub open spec fn inv_resting_orders(self) -> bool {
        &&& ladder_wf(self.asks, OrderSide::Ask)
        &&& ladder_wf(self.bids, OrderSide::Bid)
    }

    /// The id of every queued order is indexed with its side and price.
    pub open spec fn inv_index_complete(self) -> bool {
        forall|side: OrderSide, i: int, j: int|
            0 <= i < self.side_levels(side).len() && 0 <= j < self.side_levels(
                side,
            )[i].orders.len() ==> {
                &&& self.index.contains_key(
                    (#[trigger] self.side_levels(side)[i].orders[j]).id.0,
                )
                &&& self.index[self.side_levels(side)[i].orders[j].id.0] == (OrderLocation {
                    side,
                    price: self.side_levels(side)[i].price,
                })
            }
    }

    /// Every indexed id stands in the ladder and level its location names.
    pub open spec fn loc_found(self, id: u64) -> bool {
        let loc = self.index[id];
        let levels = self.side_levels(loc.side);
        let i = level_index_at(levels, loc.price);
        &&& i < levels.len()
        &&& levels[i].price == loc.price
        &&& index_of_id(levels[i].orders, id) < levels[i].orders.len()
    }

    pub open spec fn inv_index_sound(self) -> bool {
        forall|id: u64| #[trigger] self.index.contains_key(id) ==> self.loc_found(id)
    }

    /// No id occurs twice in one level (two levels cannot share a price, and
    /// the index pins an id to one side and price).
    pub open spec fn inv_ids_unique(self) -> bool {
        forall|side: OrderSide, i: int, j1: int, j2: int|
            0 <= i < self.side_levels(side).len() && 0 <= j1 < self.side_levels(
                side,
            )[i].orders.len() && 0 <= j2 < self.side_levels(side)[i].orders.len()
                && (#[trigger] self.side_levels(side)[i].orders[j1]).id.0
                == (#[trigger] self.side_levels(side)[i].orders[j2]).id.0 ==> j1 == j2
    }

    /// The book is never crossed: the best ask asks at least the best bid.
    pub open spec fn inv_not_crossed(self) -> bool {
        self.asks.len() > 0 && self.bids.len() > 0 ==> self.asks[0].price.units
            >= self.bids[0].price.units
    }

    /// Trade ids are the positions in the log: the log is append-only with
    /// strictly increasing ids, and every trade carries some quantity.
    pub open spec fn inv_trades(self) -> bool {
        &&& self.next_trade_id == self.trades.len()
        &&& forall|i: int|
            0 <= i < self.trades.len() ==> (#[trigger] self.trades[i]).id.0 == i
                && self.trades[i].quantity.units > 0
    }

    /// The well-formed book.
    pub open spec fn wf(self) -> bool {
        &&& self.inv_resting_orders()
        &&& self.inv_index_complete()
        &&& self.inv_index_sound()
        &&& self.inv_ids_unique()
        &&& self.inv_not_crossed()
        &&& self.inv_trades()
        &&& self.index.dom().finite()
    }

    /// The empty book.
    pub open spec fn empty() -> BookView {
        BookView {
            asks: Seq::empty(),
            bids: Seq::empty(),
            index: Map::empty(),
            trades: Seq::empty(),
            next_trade_id: 0,
        }
    }
}

/// What `submit` does, in full: reject a duplicate id; cancel a post-only
/// order that would cross or a fill-or-kill order that cannot be covered,
/// touching nothing; otherwise run the match walk against the opposite
/// ladder, append its trades, drop its completed makers from the index, and
/// rest the remainder when the order is a limit order that is neither
/// spent nor immediate-or-cancel. The outcome is `Matched` exactly when
/// some trade was struck.
pub open spec fn spec_submit(b: BookView, order: Order) -> (BookView, Result<
    bool,
    crate::orderbook::OrderbookError,
>) {
    if b.index.contains_key(order.id.0) {
        (b, Err(crate::orderbook::OrderbookError::OrderDuplicated(order.id)))
    } else {
        let opp_side = order.side.spec_opposite();
        let opp = b.side_levels(opp_side);
        if post_only_blocked(order, opp) {
            (b, Ok(false))
        } else if order.spec_is_fill_or_kill() && !fok_feasible(order, opp) {
            (b, Ok(false))
        } else {
            let w = walk(order, opp, b.next_trade_id);
            let matched = w.trades.len() > 0;
            let b1 = BookView {
                index: remove_ids(b.index, w.removed),
                trades: b.trades + w.trades,
                next_trade_id: (b.next_trade_id + w.trades.len()) as u64,
                ..b.with_side(opp_side, w.levels)
            };
            let rest = !w.taker.spec_is_immediate_or_cancel() && !w.taker.spec_is_closed()
                && w.taker.spec_is_bookable();
            if rest {
                let price = rest_price(w.taker);
                let own1 = ladder_insert(b1.side_levels(order.side), order.side, w.taker, price);
                let b2 = BookView {
                    index: b1.index.insert(
                        order.id.0,
                        OrderLocation { side: order.side, price },
                    ),
                    ..b1.with_side(order.side, own1)
                };
                (b2, Ok(matched))
            } else {
                (b1, Ok(matched))
            }
        }
    }
}

/// What `cancel` does: an id that is not resting fails with
/// `OrderToCancelNotFound` and changes nothing; a resting id leaves the
/// index and its level, the level leaves its ladder when it empties, and
/// the removed order is returned as it stood.
pub open spec fn spec_cancel(b: BookView, id: u64) -> (BookView, Result<
    Order,
    crate::orderbook::OrderbookError,
>) {
    if !b.index.contains_key(id) {
        (b, Err(crate::orderbook::OrderbookError::OrderToCancelNotFound(OrderId(id))))
    } else {
        let loc = b.index[id];
        let levels = b.side_levels(loc.side);
        let i = level_index_at(levels, loc.price);
        let o = levels[i].orders[index_of_id(levels[i].orders, id)];
        let b1 = BookView {
            index: b.index.remove(id),
            ..b.with_side(loc.side, ladder_remove(levels, id, loc.price))
        };
        (b1, Ok(o))
    }
}

/// The best resting order of a side, when the ladder is not empty.
pub open spec fn spec_peek_top(b: BookView, side: OrderSide) -> Option<Order> {
    let levels = b.side_levels(side);
    if levels.len() == 0 {
        None
    } else {
        Some(levels[0].orders[0])
    }
}

} // verus!
