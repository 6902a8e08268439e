//! The engine's laws, each stated over the model and proved once and for
//! all: what a submission conserves, in what order it trades, and what the
//! pre-match rules and cancellation guarantee.
use vstd::prelude::*;

use crate::lemmas::{
    lemma_book_ladder_unique, lemma_spec_cancel_wf, lemma_walk_props, submit_acts,
};
use crate::model::{
    better_price, fok_feasible, ladder_qty, post_only_blocked, spec_cancel, spec_submit,
    trades_qty, walk, BookView,
};
use crate::order::{Order, OrderId};
use crate::orderbook::OrderbookError;

verus! {

/// Conservation: across one submission that reaches the match walk, the
/// taker's filled quantity grows by exactly the total traded quantity, and
/// the opposite ladder's resting quantity shrinks by the same amount; as
/// every trade fills taker and maker alike, the filled total of the
/// involved orders rises by twice the traded quantity.
pub proof fn lemma_submit_conservation(b: BookView, order: Order)
    requires
        b.wf(),
        order.wf(),
        submit_acts(b, order),
    ensures
        ({
            let opp = b.side_levels(order.side.spec_opposite());
            let w = walk(order, opp, b.next_trade_id);
            &&& w.taker.filled_quantity.units == order.filled_quantity.units + trades_qty(
                w.trades,
            )
            &&& ladder_qty(w.levels) == ladder_qty(opp) - trades_qty(w.trades)
        }),
{
    let opp_side = order.side.spec_opposite();
    lemma_book_ladder_unique(b, opp_side);
    lemma_walk_props(order, b.side_levels(opp_side), b.next_trade_id, opp_side);
}

/// Price-time priority: within one submission the trades carry the taker's
/// id, strike at prices that never improve for the resting side as the
/// walk moves away from the best level, start at the best level's price,
/// and consume completed makers in exactly their queue order.
pub proof fn lemma_submit_price_time_priority(b: BookView, order: Order)
    requires
        b.wf(),
        order.wf(),
        submit_acts(b, order),
    ensures
        ({
            let opp_side = order.side.spec_opposite();
            let opp = b.side_levels(opp_side);
            let w = walk(order, opp, b.next_trade_id);
            &&& (forall|x: int, y: int|
                0 <= x < y < w.trades.len() ==> !better_price(
                    opp_side,
                    (#[trigger] w.trades[y]).price,
                    (#[trigger] w.trades[x]).price,
                ))
            &&& (w.trades.len() > 0 ==> w.trades[0].price == opp[0].price)
            &&& (forall|x: int|
                0 <= x < w.trades.len() ==> (#[trigger] w.trades[x]).taker == order.id)
            &&& (forall|x: int|
                0 <= x < w.removed.len() ==> (#[trigger] w.trades[x]).maker.0 == w.removed[x])
        }),
{
    let opp_side = order.side.spec_opposite();
    lemma_book_ladder_unique(b, opp_side);
    lemma_walk_props(order, b.side_levels(opp_side), b.next_trade_id, opp_side);
}

/// Trade ids are the positions of the append-only log, so the emitted ids
/// strictly increase.
pub proof fn lemma_trade_ids_monotone(b: BookView)
    requires
        b.inv_trades(),
    ensures
        forall|i: int, j: int|
            0 <= i < j < b.trades.len() ==> (#[trigger] b.trades[i]).id.0 < (
            #[trigger] b.trades[j]).id.0,
{
}

/// A post-only order that would cross is cancelled before it trades: the
/// submission returns `NotMatched` and the book is left exactly as it was.
pub proof fn lemma_post_only_rejection(b: BookView, order: Order)
    requires
        !b.index.contains_key(order.id.0),
        post_only_blocked(order, b.side_levels(order.side.spec_opposite())),
    ensures
        spec_submit(b, order).0 == b,
        spec_submit(b, order).1 == Ok::<bool, OrderbookError>(false),
{
}

/// A fill-or-kill order the book cannot cover is cancelled before it
/// trades: the submission returns `NotMatched` and the book is left
/// exactly as it was.
pub proof fn lemma_fok_rejection(b: BookView, order: Order)
    requires
        !b.index.contains_key(order.id.0),
        !post_only_blocked(order, b.side_levels(order.side.spec_opposite())),
        order.spec_is_fill_or_kill(),
        !fok_feasible(order, b.side_levels(order.side.spec_opposite())),
    ensures
        spec_submit(b, order).0 == b,
        spec_submit(b, order).1 == Ok::<bool, OrderbookError>(false),
{
}

/// Cancelling twice cannot succeed twice: after a cancel removes an id,
/// a second cancel of the same id fails with `OrderToCancelNotFound` and
/// changes nothing.
pub proof fn lemma_cancel_then_cancel(b: BookView, id: u64)
    requires
        b.wf(),
        b.index.contains_key(id),
    ensures
        spec_cancel(spec_cancel(b, id).0, id).0 == spec_cancel(b, id).0,
        spec_cancel(spec_cancel(b, id).0, id).1 == Err::<Order, OrderbookError>(
            OrderbookError::OrderToCancelNotFound(OrderId(id)),
        ),
{
    lemma_spec_cancel_wf(b, id);
    assert(!spec_cancel(b, id).0.index.contains_key(id));
}

/// A duplicate id is rejected without effect.
pub proof fn lemma_duplicate_rejected(b: BookView, order: Order)
    requires
        b.index.contains_key(order.id.0),
    ensures
        spec_submit(b, order).0 == b,
        spec_submit(b, order).1 == Err::<bool, OrderbookError>(
            OrderbookError::OrderDuplicated(order.id),
        ),
{
}

} // verus!
