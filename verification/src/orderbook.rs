use vstd::prelude::*;

use crate::decimal::Decimal;
use crate::lemmas::{
    lemma_index_of_id_props, lemma_ladder_insert_split, lemma_ladder_insert_wf,
    lemma_ladder_remove_split, lemma_level_index_at_props, lemma_level_index_at_split,
    lemma_qty_sum_bounds, lemma_qty_sum_push, lemma_qty_sum_remove, lemma_qty_sum_update,
    lemma_remove_id_split, lemma_spec_cancel_wf, lemma_spec_submit_wf, lemma_walk_counts,
};
use crate::idindex::{
    id_index_contains, id_index_insert, id_index_new, id_index_remove, id_index_view,
    IdIndexMap, OrderLocation,
};
use crate::model::{
    all_orders, better_price, crosses, first_level_len, fok_feasible, fok_feasible_from,
    index_of_id, ladder_insert, ladder_remove, ladder_wf, level_index_at, level_wf,
    post_only_blocked, qty_sum, remove_id, remove_ids, rest_price, spec_cancel, spec_peek_top,
    spec_submit, submit_safe, taker_open_measure, walk, BookView, LevelView, WalkResult,
};
use crate::order::{Flags, Order, OrderId, OrderPrice, OrderQuantity, OrderSide};
use crate::trade::{Trade, TradeError, TradeId};

verus! {

/// A FIFO queue of resting orders at one price, with the aggregate
/// remaining quantity cached.
#[derive(Debug)]
pub struct PriceLevel {
    pub orders_vec: Vec<Order>,
    pub quantity: OrderQuantity,
    pub price: OrderPrice,
}

impl View for PriceLevel {
    type V = LevelView;

    open spec fn view(&self) -> LevelView {
        LevelView { price: self.price, orders: self.orders_vec@ }
    }
}

impl PriceLevel {
    /// The cache is sound: `quantity` is the sum of the queued remainders.
    pub open spec fn qty_cached(self) -> bool {
        self.quantity.units == qty_sum(self@.orders)
    }

    pub fn new(price: OrderPrice) -> (r: Self)
        ensures
            r@.price == price,
            r@.orders =~= Seq::<Order>::empty(),
            r.quantity.units == 0,
            r.qty_cached(),
    {
        Self { orders_vec: Vec::new(), quantity: Decimal::zero(), price }
    }

    pub fn len(&self) -> (r: usize)
        ensures
            r == self@.orders.len(),
    {
        self.orders_vec.len()
    }

    pub fn front(&self) -> (r: Option<&Order>)
        ensures
            match r {
                Some(o) => self@.orders.len() > 0 && *o == self@.orders[0],
                None => self@.orders.len() == 0,
            },
    {
        if self.orders_vec.len() == 0 {
            None
        } else {
            Some(&self.orders_vec[0])
        }
    }

    /// Whether the level holds nothing more to trade.
    pub fn is_closed(&self) -> (r: bool)
        ensures
            r == (self.quantity.units == 0),
    {
        self.quantity.is_zero()
    }

    /// Whether the level and the order could trade at all: some quantity on
    /// both sides.
    pub fn can_trade(&self, order: &Order) -> (r: bool)
        requires
            order.filled_quantity.units <= order.order_quantity.units,
        ensures
            r == (self.quantity.units != 0 && order.spec_remaining() != 0),
    {
        !self.quantity.min_with(order.remaining()).is_zero()
    }

    /// Whether the incoming order can match this level: the level still
    /// trades, the order is open, and the order's price reaches the
    /// level's (a market order always does).
    pub fn matches(&self, order: &Order) -> (r: bool)
        ensures
            r == (self.quantity.units != 0 && !order.spec_is_closed() && crosses(
                *order,
                self@.price,
            )),
    {
        if self.is_closed() || order.is_closed() {
            return false;
        }
        match order.limit_price() {
            Some(order_limit_price) => match order.side() {
                OrderSide::Ask => order_limit_price.units <= self.price.units,
                OrderSide::Bid => order_limit_price.units >= self.price.units,
            },
            None => true,
        }
    }

    /// Append an order at the tail and grow the cached quantity by its
    /// remainder.
    pub fn push_back(&mut self, order: Order)
        requires
            order.filled_quantity.units <= order.order_quantity.units,
            old(self).quantity.units + order.spec_remaining() <= u128::MAX,
        ensures
            final(self)@.price == old(self)@.price,
            final(self)@.orders =~= old(self)@.orders.push(order),
            final(self).quantity.units == old(self).quantity.units + order.spec_remaining(),
            final(self).price == old(self).price,
    {
        self.quantity = self.quantity.plus(order.remaining());
        self.orders_vec.push(order);
    }

    /// Drop the head order, leaving the cached quantity to the caller.
    pub fn pop_front(&mut self) -> (r: Order)
        requires
            old(self)@.orders.len() > 0,
        ensures
            r == old(self)@.orders[0],
            final(self)@.price == old(self)@.price,
            final(self)@.orders =~= old(self)@.orders.drop_first(),
            final(self).quantity == old(self).quantity,
            final(self).price == old(self).price,
    {
        let r = self.orders_vec.remove(0);
        proof {
            assert(final(self)@.orders =~= old(self)@.orders.drop_first());
        }
        r
    }

    /// Replace the head order.
    pub fn set_front(&mut self, order: Order)
        requires
            old(self)@.orders.len() > 0,
        ensures
            final(self)@.price == old(self)@.price,
            final(self)@.orders =~= old(self)@.orders.update(0, order),
            final(self).quantity == old(self).quantity,
            final(self).price == old(self).price,
    {
        self.orders_vec.remove(0);
        self.orders_vec.insert(0, order);
        proof {
            assert(final(self)@.orders =~= old(self)@.orders.update(0, order));
        }
    }

    /// Shrink the cached quantity after fills totalling `traded`.
    pub fn reduce_quantity(&mut self, traded: OrderQuantity)
        requires
            traded.units <= old(self).quantity.units,
        ensures
            final(self)@.price == old(self)@.price,
            final(self)@.orders == old(self)@.orders,
            final(self).quantity.units == old(self).quantity.units - traded.units,
            final(self).price == old(self).price,
    {
        self.quantity = self.quantity.minus(traded);
    }

    /// Remove the order at a position and shrink the cached quantity by its
    /// remainder.
    pub fn remove_at(&mut self, idx: usize) -> (r: Order)
        requires
            idx < old(self)@.orders.len(),
            old(self)@.orders[idx as int].filled_quantity.units <= old(
                self,
            )@.orders[idx as int].order_quantity.units,
            old(self)@.orders[idx as int].spec_remaining() <= old(self).quantity.units,
        ensures
            r == old(self)@.orders[idx as int],
            final(self)@.price == old(self)@.price,
            final(self)@.orders =~= old(self)@.orders.remove(idx as int),
            final(self).quantity.units == old(self).quantity.units - r.spec_remaining(),
            final(self).price == old(self).price,
    {
        let order = self.orders_vec.remove(idx);
        self.quantity = self.quantity.minus(order.remaining());
        order
    }

    /// The head order, by copy.
    pub fn head(&self) -> (r: Order)
        requires
            self@.orders.len() > 0,
        ensures
            r == self@.orders[0],
    {
        self.orders_vec[0]
    }

    /// The position of the order with the given id, if it is queued.
    pub fn position_of(&self, id: OrderId) -> (r: Option<usize>)
        ensures
            match r {
                Some(idx) => idx < self@.orders.len() && self@.orders[idx as int].id == id
                    && forall|j: int| 0 <= j < idx ==> (#[trigger] self@.orders[j]).id != id,
                None => forall|j: int|
                    0 <= j < self@.orders.len() ==> (#[trigger] self@.orders[j]).id != id,
            },
    {
        let mut idx: usize = 0;
        while idx < self.orders_vec.len()
            invariant
                idx <= self@.orders.len(),
                forall|j: int| 0 <= j < idx ==> (#[trigger] self@.orders[j]).id != id,
            decreases self@.orders.len() - idx,
        {
            if self.orders_vec[idx].id.0 == id.0 {
                return Some(idx);
            }
            idx = idx + 1;
        }
        None
    }
}

/// One side of the book: price levels, best price first.
#[derive(Debug)]
pub struct Ladder {
    pub side: OrderSide,
    pub levels: Vec<PriceLevel>,
}

impl View for Ladder {
    type V = Seq<LevelView>;

    open spec fn view(&self) -> Seq<LevelView> {
        self.levels@.map_values(|l: PriceLevel| l@)
    }
}

/// Whether `a` is a strictly better price than `b` for the given side.
fn better_price_exec(side: OrderSide, a: Decimal, b: Decimal) -> (r: bool)
    ensures
        r == better_price(side, a, b),
{
    match side {
        OrderSide::Ask => a.units < b.units,
        OrderSide::Bid => a.units > b.units,
    }
}

impl Ladder {
    /// The ladder is sound and every level's cached quantity is.
    pub open spec fn wf(self) -> bool {
        &&& ladder_wf(self@, self.side)
        &&& forall|i: int| 0 <= i < self.levels@.len() ==> (#[trigger] self.levels@[i]).qty_cached()
    }

    pub fn new(side: OrderSide) -> (r: Self)
        ensures
            r.side == side,
            r@ =~= Seq::<LevelView>::empty(),
            r.wf(),
    {
        Self { side, levels: Vec::new() }
    }

    /// The best resting order: the head of the first level.
    pub fn peek_top(&self) -> (r: Option<&Order>)
        requires
            self.wf(),
        ensures
            match r {
                Some(o) => self@.len() > 0 && self@[0].orders.len() > 0 && *o
                    == self@[0].orders[0],
                None => self@.len() == 0,
            },
    {
        if self.levels.len() == 0 {
            None
        } else {
            let lvl = &self.levels[0];
            proof {
                assert(level_wf(self@[0], self.side));
            }
            lvl.front()
        }
    }

    /// Rest a limit order: find or create the level at its price, append the
    /// order at its tail. A market order fails with
    /// `OrderToInsertWithNoLimitPrice` and changes nothing.
    pub fn insert(&mut self, order: &Order) -> (r: Result<(), OrderbookError>)
        requires
            old(self).wf(),
            order.wf(),
            !order.spec_is_closed(),
            order.side == old(self).side,
            forall|i: int|
                0 <= i < old(self)@.len() ==> qty_sum(#[trigger] old(self)@[i].orders)
                    + order.spec_remaining() <= u128::MAX,
        ensures
            final(self).side == old(self).side,
            match order.spec_limit_price() {
                Some(price) => {
                    &&& r == Ok::<(), OrderbookError>(())
                    &&& final(self)@ == ladder_insert(old(self)@, old(self).side, *order, price)
                    &&& final(self).wf()
                },
                None => {
                    &&& r == Err::<(), OrderbookError>(
                        OrderbookError::OrderToInsertWithNoLimitPrice(*order),
                    )
                    &&& *final(self) == *old(self)
                },
            },
    {
        let price = match order.limit_price() {
            Some(p) => p,
            None => {
                return Err(OrderbookError::OrderToInsertWithNoLimitPrice(*order));
            },
        };
        let ghost side = self.side;
        let mut idx: usize = 0;
        while idx < self.levels.len() && better_price_exec(
            self.side,
            self.levels[idx].price,
            price,
        )
            invariant
                idx <= self@.len(),
                forall|i: int| 0 <= i < idx ==> better_price(side, (#[trigger] self@[i]).price, price),
                side == self.side,
            decreases self@.len() - idx,
        {
            proof {
                assert(self@[idx as int].price == self.levels@[idx as int]@.price);
            }
            idx = idx + 1;
        }
        proof {
            lemma_ladder_insert_split(self@, side, *order, price, idx as int);
            lemma_qty_sum_bounds(Seq::<Order>::empty());
        }
        if idx < self.levels.len() && self.levels[idx].price.units == price.units {
            proof {
                assert(self@[idx as int].price == price);
                assert(level_wf(self@[idx as int], side));
            }
            let mut lvl = self.levels.remove(idx);
            lvl.push_back(*order);
            self.levels.insert(idx, lvl);
            proof {
                lemma_qty_sum_push(old(self)@[idx as int].orders, *order);
                assert(self@ =~= old(self)@.update(
                    idx as int,
                    LevelView {
                        price,
                        orders: old(self)@[idx as int].orders.push(*order),
                    },
                ));
                lemma_ladder_insert_wf(old(self)@, side, *order, price);
                assert(forall|i: int|
                    0 <= i < self.levels@.len() ==> (#[trigger] self.levels@[i]).qty_cached());
            }
        } else {
            proof {
                if idx < self@.len() {
                    assert(self@[idx as int].price == self.levels@[idx as int]@.price);
                    assert(self@[idx as int].price != price);
                }
            }
            let mut lvl = PriceLevel::new(price);
            lvl.push_back(*order);
            self.levels.insert(idx, lvl);
            proof {
                lemma_qty_sum_push(Seq::<Order>::empty(), *order);
                assert(self@ =~= old(self)@.insert(
                    idx as int,
                    LevelView { price, orders: seq![*order] },
                ));
                lemma_ladder_insert_wf(old(self)@, side, *order, price);
                assert(forall|i: int|
                    0 <= i < self.levels@.len() ==> (#[trigger] self.levels@[i]).qty_cached());
            }
        }
        Ok(())
    }
}

impl Ladder {
    /// Whether the ladder could fill the order completely: the probe of the
    /// fill-or-kill rule, walking matching levels best first and summing
    /// their quantities. Nothing is mutated.
    pub fn covers(&self, order: &Order) -> (r: bool)
        requires
            self.wf(),
            order.filled_quantity.units <= order.order_quantity.units,
        ensures
            r == fok_feasible(*order, self@),
    {
        let mut need = order.remaining();
        let mut feasible = need.units == 0;
        let mut i: usize = 0;
        proof {
            assert(self@.skip(0) =~= self@);
        }
        if need.units > 0 {
            loop
                invariant
                    i <= self@.len(),
                    need.units > 0,
                    self.wf(),
                    order.filled_quantity.units <= order.order_quantity.units,
                    fok_feasible(*order, self@) == fok_feasible_from(
                        need.units as int,
                        *order,
                        self@.skip(i as int),
                    ),
                ensures
                    feasible == fok_feasible(*order, self@),
                decreases self@.len() - i,
            {
                if i == self.levels.len() {
                    feasible = false;
                    proof {
                        assert(self@.skip(i as int) =~= Seq::<LevelView>::empty());
                    }
                    break;
                }
                proof {
                    assert(self@.skip(i as int)[0] == self@[i as int]);
                    assert(level_wf(self@[i as int], self.side));
                    assert(self.levels@[i as int].qty_cached());
                    lemma_qty_sum_bounds(self@[i as int].orders);
                }
                let cont = {
                    let l = &self.levels[i];
                    l.matches(order)
                };
                if !cont {
                    feasible = false;
                    break;
                }
                let lq = {
                    let l = &self.levels[i];
                    l.quantity
                };
                if lq.units >= need.units {
                    feasible = true;
                    proof {
                        assert(qty_sum(self@[i as int].orders) == lq.units);
                        assert(fok_feasible_from(
                            need.units as int,
                            *order,
                            self@.skip(i as int),
                        ) == fok_feasible_from(
                            need.units - lq.units,
                            *order,
                            self@.skip(i as int).drop_first(),
                        ));
                        assert(fok_feasible_from(
                            need.units - lq.units,
                            *order,
                            self@.skip(i as int).drop_first(),
                        ));
                    }
                    break;
                }
                let ghost need_pre = need;
                need = need.minus(lq);
                i = i + 1;
                proof {
                    assert(self@.skip(i as int - 1)[0] == self@[i as int - 1]);
                    assert(self@.skip(i as int - 1).drop_first() =~= self@.skip(i as int));
                    assert(qty_sum(self@[i as int - 1].orders) == lq.units);
                    assert(fok_feasible_from(
                        need_pre.units as int,
                        *order,
                        self@.skip(i as int - 1),
                    ) == fok_feasible_from(need.units as int, *order, self@.skip(i as int)));
                }
            }
        }
        feasible
    }

    /// Take the resting order with the given id out of the level at
    /// `price`; the level leaves the ladder when it empties.
    pub fn remove_resting(&mut self, id: u64, price: Decimal) -> (r: Order)
        requires
            old(self).wf(),
            level_index_at(old(self)@, price) < old(self)@.len(),
            old(self)@[level_index_at(old(self)@, price)].price == price,
            index_of_id(
                old(self)@[level_index_at(old(self)@, price)].orders,
                id,
            ) < old(self)@[level_index_at(old(self)@, price)].orders.len(),
        ensures
            final(self).side == old(self).side,
            final(self)@ == ladder_remove(old(self)@, id, price),
            final(self).wf(),
            r == old(self)@[level_index_at(old(self)@, price)].orders[index_of_id(
                old(self)@[level_index_at(old(self)@, price)].orders,
                id,
            )],
            r.id.0 == id,
    {
        let ghost side = self.side;
        let ghost k_spec = level_index_at(old(self)@, price);
        let ghost j_spec = index_of_id(old(self)@[k_spec].orders, id);
        proof {
            lemma_level_index_at_props(old(self)@, price);
            lemma_index_of_id_props(old(self)@[k_spec].orders, id);
        }
        let mut k: usize = 0;
        while k < self.levels.len() && self.levels[k].price.units != price.units
            invariant
                k <= self@.len(),
                forall|i: int| 0 <= i < k ==> (#[trigger] self@[i]).price != price,
                *self == *old(self),
            decreases self@.len() - k,
        {
            proof {
                assert(self@[k as int].price == self.levels@[k as int]@.price);
            }
            k = k + 1;
        }
        proof {
            lemma_level_index_at_split(self@, price, k as int);
            assert(k == k_spec);
            assert(level_wf(self@[k as int], side));
        }
        let mut lvl = self.levels.remove(k);
        let pos = lvl.position_of(OrderId::new(id));
        let j: usize = match pos {
            Some(j) => j,
            None => {
                proof {
                    assert(false);
                }
                0
            },
        };
        proof {
            lemma_remove_id_split(lvl@.orders, id, j as int);
            assert(j == j_spec);
            lemma_qty_sum_bounds(lvl@.orders);
        }
        let order = lvl.remove_at(j);
        let ghost orders1 = remove_id(old(self)@[k_spec].orders, id);
        proof {
            lemma_ladder_remove_split(old(self)@, id, price, k as int);
            lemma_qty_sum_remove(old(self)@[k_spec].orders, j as int);
        }
        if lvl.len() > 0 {
            self.levels.insert(k, lvl);
            proof {
                assert(self@ =~= old(self)@.update(
                    k as int,
                    LevelView { price, orders: orders1 },
                ));
                assert(self@ == ladder_remove(old(self)@, id, price));
                assert(self.levels@[k as int].qty_cached());
                assert forall|i: int|
                    0 <= i < self.levels@.len() implies (
                #[trigger] self.levels@[i]).qty_cached() by {
                    if i != k {
                        assert(self.levels@[i] == old(self).levels@[i]);
                    }
                }
                assert forall|i: int| 0 <= i < self@.len() implies level_wf(
                    #[trigger] self@[i],
                    side,
                ) by {
                    if i != k {
                        assert(self@[i] == old(self)@[i]);
                    } else {
                        assert(self@[k as int].orders =~= old(self)@[k as int].orders.remove(
                            j as int,
                        ));
                        assert forall|jx: int|
                            0 <= jx < self@[k as int].orders.len() implies (#[trigger] self@[
                        k as int].orders[jx]).wf() && self@[k as int].orders[jx].side == side
                            && self@[k as int].orders[jx].spec_limit_price() == Some(
                            self@[k as int].price,
                        ) && !self@[k as int].orders[jx].spec_is_closed() by {
                            let jy: int = if jx < j {
                                jx
                            } else {
                                jx + 1
                            };
                            assert(self@[k as int].orders[jx] == old(self)@[k as int].orders[jy]);
                        }
                    }
                }
                assert forall|i: int, jx: int| 0 <= i < jx < self@.len() implies better_price(
                    side,
                    (#[trigger] self@[i]).price,
                    (#[trigger] self@[jx]).price,
                ) by {
                    assert(self@[i].price == old(self)@[i].price);
                    assert(self@[jx].price == old(self)@[jx].price);
                }
            }
        } else {
            proof {
                assert(orders1.len() == 0);
                assert(self@ =~= old(self)@.remove(k as int));
                assert(self@ == ladder_remove(old(self)@, id, price));
                assert forall|i: int|
                    0 <= i < self.levels@.len() implies (
                #[trigger] self.levels@[i]).qty_cached() by {
                    let i0: int = if i < k {
                        i
                    } else {
                        i + 1
                    };
                    assert(self.levels@[i] == old(self).levels@[i0]);
                }
                assert forall|i: int| 0 <= i < self@.len() implies level_wf(
                    #[trigger] self@[i],
                    side,
                ) by {
                    let i0: int = if i < k {
                        i
                    } else {
                        i + 1
                    };
                    assert(self@[i] == old(self)@[i0]);
                }
                assert forall|i: int, jx: int| 0 <= i < jx < self@.len() implies better_price(
                    side,
                    (#[trigger] self@[i]).price,
                    (#[trigger] self@[jx]).price,
                ) by {
                    let i0: int = if i < k {
                        i
                    } else {
                        i + 1
                    };
                    let j0x: int = if jx < k {
                        jx
                    } else {
                        jx + 1
                    };
                    assert(self@[i] == old(self)@[i0]);
                    assert(self@[jx] == old(self)@[j0x]);
                }
            }
        }
        order
    }
}

/// Run one submission against the book's parts: screen it, walk the opposite
/// ladder striking trades, and rest what remains when the order is a
/// resting kind. Computes exactly what `spec_submit` describes past its
/// duplicate check.
#[verifier::rlimit(80)]
#[verifier::spinoff_prover]
fn submit_core(
    taker0: Order,
    own: &mut Ladder,
    opp: &mut Ladder,
    index: &mut IdIndexMap,
    trades: &mut Vec<Trade>,
    next_tid: &mut u64,
) -> (r: Result<bool, OrderbookError>)
    requires
        old(own).wf(),
        old(opp).wf(),
        taker0.wf(),
        old(own).side == taker0.side,
        old(opp).side == taker0.side.spec_opposite(),
        *old(next_tid) + all_orders(old(opp)@).len() <= u64::MAX,
        forall|i: int|
            0 <= i < old(own)@.len() ==> qty_sum((#[trigger] old(own)@[i]).orders)
                + taker0.spec_remaining() <= u128::MAX,
    ensures
        final(own).side == old(own).side,
        final(opp).side == old(opp).side,
        final(own).wf(),
        final(opp).wf(),
        post_only_blocked(taker0, old(opp)@) ==> {
            &&& r == Ok::<bool, OrderbookError>(false)
            &&& *final(own) == *old(own)
            &&& *final(opp) == *old(opp)
            &&& *final(index) == *old(index)
            &&& *final(trades) == *old(trades)
            &&& *final(next_tid) == *old(next_tid)
        },
        !post_only_blocked(taker0, old(opp)@) && taker0.spec_is_fill_or_kill() && !fok_feasible(
            taker0,
            old(opp)@,
        ) ==> {
            &&& r == Ok::<bool, OrderbookError>(false)
            &&& *final(own) == *old(own)
            &&& *final(opp) == *old(opp)
            &&& *final(index) == *old(index)
            &&& *final(trades) == *old(trades)
            &&& *final(next_tid) == *old(next_tid)
        },
        !post_only_blocked(taker0, old(opp)@) && !(taker0.spec_is_fill_or_kill() && !fok_feasible(
            taker0,
            old(opp)@,
        )) ==> {
            let w = walk(taker0, old(opp)@, *old(next_tid));
            let rest = !w.taker.spec_is_immediate_or_cancel() && !w.taker.spec_is_closed()
                && w.taker.spec_is_bookable();
            &&& final(opp)@ == w.levels
            &&& final(trades)@ == old(trades)@ + w.trades
            &&& *final(next_tid) == *old(next_tid) + w.trades.len()
            &&& id_index_view(*final(index)) == (if rest {
                remove_ids(id_index_view(*old(index)), w.removed).insert(
                    taker0.id.0,
                    OrderLocation { side: taker0.side, price: rest_price(w.taker) },
                )
            } else {
                remove_ids(id_index_view(*old(index)), w.removed)
            })
            &&& final(own)@ == (if rest {
                ladder_insert(old(own)@, taker0.side, w.taker, rest_price(w.taker))
            } else {
                old(own)@
            })
            &&& r == Ok::<bool, OrderbookError>(w.trades.len() > 0)
        },
{
    let mut taker = taker0;
    // Post-only orders may only add liquidity: cancel one that would cross.
    if taker.is_post_only() {
        let blocked = match opp.peek_top() {
            Some(top) => taker.matches(top),
            None => false,
        };
        if blocked {
            taker.cancel();
            return Ok(false);
        }
    }
    proof {
        assert(!post_only_blocked(taker0, opp@));
    }
    // Fill-or-kill orders are cancelled unless the book can cover them.
    if taker.is_fill_or_kill() {
        let mut need = taker.remaining();
        let mut feasible = need.units == 0;
        let mut i: usize = 0;
        proof {
            assert(opp@.skip(0) =~= opp@);
        }
        if need.units > 0 {
            loop
                invariant
                    i <= opp@.len(),
                    need.units > 0,
                    opp.wf(),
                    taker == taker0,
                    fok_feasible(taker0, opp@) == fok_feasible_from(
                        need.units as int,
                        taker0,
                        opp@.skip(i as int),
                    ),
                ensures
                    feasible == fok_feasible(taker0, opp@),
                    taker == taker0,
                decreases opp@.len() - i,
            {
                if i == opp.levels.len() {
                    feasible = false;
                    proof {
                        assert(opp@.skip(i as int) =~= Seq::<LevelView>::empty());
                    }
                    break;
                }
                proof {
                    assert(opp@.skip(i as int)[0] == opp@[i as int]);
                    assert(level_wf(opp@[i as int], opp.side));
                    assert(opp.levels@[i as int].qty_cached());
                    lemma_qty_sum_bounds(opp@[i as int].orders);
                }
                let cont = {
                    let l = &opp.levels[i];
                    l.matches(&taker)
                };
                if !cont {
                    feasible = false;
                    break;
                }
                let lq = {
                    let l = &opp.levels[i];
                    l.quantity
                };
                if lq.units >= need.units {
                    feasible = true;
                    proof {
                        assert(opp@.skip(i as int)[0] == opp@[i as int]);
                        assert(qty_sum(opp@[i as int].orders) == lq.units);
                        assert(fok_feasible_from(
                            need.units as int,
                            taker0,
                            opp@.skip(i as int),
                        ) == fok_feasible_from(
                            need.units - lq.units,
                            taker0,
                            opp@.skip(i as int).drop_first(),
                        ));
                        assert(fok_feasible_from(
                            need.units - lq.units,
                            taker0,
                            opp@.skip(i as int).drop_first(),
                        ));
                    }
                    break;
                }
                let ghost need_pre = need;
                need = need.minus(lq);
                i = i + 1;
                proof {
                    assert(opp@.skip(i as int - 1)[0] == opp@[i as int - 1]);
                    assert(opp@.skip(i as int - 1).drop_first() =~= opp@.skip(i as int));
                    assert(qty_sum(opp@[i as int - 1].orders) == lq.units);
                    assert(fok_feasible_from(
                        need_pre.units as int,
                        taker0,
                        opp@.skip(i as int - 1),
                    ) == fok_feasible_from(need.units as int, taker0, opp@.skip(i as int)));
                }
            }
        }
        if !feasible {
            taker.cancel();
            return Ok(false);
        }
    }
    proof {
        assert(!(taker0.spec_is_fill_or_kill() && !fok_feasible(taker0, opp@)));
    }
    // The match walk: strike trades against the best opposite levels.
    let ghost opp0 = opp@;
    let ghost tid0 = *next_tid;
    let ghost trades0 = trades@;
    let ghost index0 = id_index_view(*index);
    let ghost g = walk(taker0, opp0, tid0);
    let ghost opp_side = opp.side;
    let ghost mut k: int = 0;
    let ghost mut m: int = 0;
    let mut matched = false;
    proof {
        lemma_walk_counts(taker0, opp0, tid0);
        assert(g.trades.skip(0) =~= g.trades);
        assert(g.removed.skip(0) =~= g.removed);
        assert(g.trades.take(0) =~= Seq::<Trade>::empty());
        assert(g.removed.take(0) =~= Seq::<u64>::empty());
        assert(trades@ =~= trades0 + g.trades.take(0));
    }
    loop
        invariant
            opp.wf(),
            opp.side == opp_side,
            opp_side == taker0.side.spec_opposite(),
            taker.wf(),
            taker.id == taker0.id,
            taker.side == taker0.side,
            taker.kind == taker0.kind,
            taker.order_quantity == taker0.order_quantity,
            taker.filled_quantity.units >= taker0.filled_quantity.units,
            0 <= k <= g.trades.len(),
            0 <= m <= g.removed.len(),
            g == walk(taker0, opp0, tid0),
            tid0 + g.trades.len() <= u64::MAX,
            walk(taker, opp@, *next_tid) == (WalkResult {
                taker: g.taker,
                levels: g.levels,
                trades: g.trades.skip(k),
                removed: g.removed.skip(m),
            }),
            trades@ == trades0 + g.trades.take(k),
            *next_tid == tid0 + k,
            id_index_view(*index) == remove_ids(index0, g.removed.take(m)),
            matched == (k > 0),
        ensures
            opp.wf(),
            opp.side == opp_side,
            taker == g.taker,
            opp@ == g.levels,
            trades@ == trades0 + g.trades,
            *next_tid == tid0 + g.trades.len(),
            id_index_view(*index) == remove_ids(index0, g.removed),
            matched == (g.trades.len() > 0),
            taker.id == taker0.id,
            taker.side == taker0.side,
            taker.kind == taker0.kind,
            taker.order_quantity == taker0.order_quantity,
            taker.filled_quantity.units >= taker0.filled_quantity.units,
            taker.wf(),
        decreases opp@.len(), first_level_len(opp@), taker_open_measure(taker),
    {
        if taker.is_closed() {
            proof {
                assert(walk(taker, opp@, *next_tid) == (WalkResult {
                    taker,
                    levels: opp@,
                    trades: Seq::<Trade>::empty(),
                    removed: Seq::<u64>::empty(),
                }));
                assert(g.trades.skip(k).len() == 0);
                assert(g.trades.take(k) =~= g.trades);
                assert(g.removed.skip(m).len() == 0);
                assert(g.removed.take(m) =~= g.removed);
            }
            break;
        }
        if opp.levels.len() == 0 {
            proof {
                assert(walk(taker, opp@, *next_tid) == (WalkResult {
                    taker,
                    levels: opp@,
                    trades: Seq::<Trade>::empty(),
                    removed: Seq::<u64>::empty(),
                }));
                assert(g.trades.skip(k).len() == 0);
                assert(g.trades.take(k) =~= g.trades);
                assert(g.removed.skip(m).len() == 0);
                assert(g.removed.take(m) =~= g.removed);
            }
            break;
        }
        proof {
            assert(level_wf(opp@[0], opp_side));
            lemma_qty_sum_bounds(opp@[0].orders);
            assert(opp.levels@[0].qty_cached());
        }
        let cont = {
            let l = &opp.levels[0];
            l.matches(&taker)
        };
        if !cont {
            proof {
                assert(walk(taker, opp@, *next_tid) == (WalkResult {
                    taker,
                    levels: opp@,
                    trades: Seq::<Trade>::empty(),
                    removed: Seq::<u64>::empty(),
                }));
                assert(g.trades.skip(k).len() == 0);
                assert(g.trades.take(k) =~= g.trades);
                assert(g.removed.skip(m).len() == 0);
                assert(g.removed.take(m) =~= g.removed);
            }
            break;
        }
        // One maker: the head of the best level.
        let ghost t_pre = taker;
        let ghost l_pre = opp@;
        let ghost plv_pre = opp.levels@;
        let ghost tid_pre = *next_tid;
        let ghost k_pre = k;
        let ghost m_pre = m;
        let mut lvl = opp.levels.remove(0);
        proof {
            assert(lvl@ == l_pre[0]);
            assert(lvl.qty_cached());
        }
        let maker_at_rest = lvl.head();
        let mut maker = maker_at_rest;
        let q = taker.can_trade(&maker);
        proof {
            assert(t_pre.spec_remaining() > 0);
            assert(maker.spec_remaining() > 0);
            assert(q.units > 0);
            assert(*next_tid < u64::MAX) by {
                assert(g.trades.skip(k).len() > 0);
            }
        }
        let tid_now = TradeId::new(*next_tid);
        let tr = match Trade::new(&mut taker, &mut maker, q, tid_now) {
            Ok(t) => t,
            Err(e) => {
                proof {
                    assert(false);
                }
                return Err(OrderbookError::TradeError(e));
            },
        };
        trades.push(tr);
        *next_tid = *next_tid + 1;
        matched = true;
        proof {
            assert(q.units <= lvl.quantity.units);
        }
        lvl.reduce_quantity(q);
        let ghost w_pre = walk(t_pre, l_pre, tid_pre);
        proof {
            // The executed step is one unfolding of the walk.
            assert(l_pre[0].orders[0] == maker_at_rest);
            assert(maker_at_rest.spec_limit_price() == Some(l_pre[0].price));
            assert(tr == (Trade {
                id: TradeId(tid_pre),
                taker: t_pre.id,
                maker: maker_at_rest.id,
                price: l_pre[0].price,
                quantity: q,
            }));
            assert(taker == t_pre.spec_fill(q));
            assert(maker == maker_at_rest.spec_fill(q));
        }
        if maker.is_closed() {
            let _popped = lvl.pop_front();
            let _removed_loc = id_index_remove(index, maker_at_rest.id.0);
            let ghost l1 = if l_pre[0].orders.len() == 1 {
                l_pre.drop_first()
            } else {
                l_pre.update(
                    0,
                    LevelView { price: l_pre[0].price, orders: l_pre[0].orders.drop_first() },
                )
            };
            let ghost r_next = walk(taker, l1, (tid_pre + 1) as u64);
            proof {
                assert(w_pre == (WalkResult {
                    taker: r_next.taker,
                    levels: r_next.levels,
                    trades: seq![tr] + r_next.trades,
                    removed: seq![maker_at_rest.id.0] + r_next.removed,
                }));
                assert(g.trades.skip(k_pre)[0] == tr);
                assert(g.removed.skip(m_pre)[0] == maker_at_rest.id.0);
                assert(r_next.trades =~= g.trades.skip(k_pre + 1)) by {
                    assert(g.trades.skip(k_pre).drop_first() =~= g.trades.skip(k_pre + 1));
                }
                assert(r_next.removed =~= g.removed.skip(m_pre + 1)) by {
                    assert(g.removed.skip(m_pre).drop_first() =~= g.removed.skip(m_pre + 1));
                }
                k = k_pre + 1;
                m = m_pre + 1;
                assert(g.trades.skip(k_pre).len() >= 1 && g.removed.skip(m_pre).len() >= 1);
                assert(k_pre < g.trades.len() && m_pre < g.removed.len());
                assert(g.trades[k_pre] == tr);
                assert(trades@ =~= trades0 + g.trades.take(k)) by {
                    assert(g.trades.take(k) =~= g.trades.take(k_pre).push(tr));
                }
                assert(g.removed[m_pre] == maker_at_rest.id.0);
                assert(id_index_view(*index) =~= remove_ids(index0, g.removed.take(m))) by {
                    assert(g.removed.take(m).drop_last() =~= g.removed.take(m_pre));
                    assert(g.removed.take(m).last() == maker_at_rest.id.0);
                }
            }
            if lvl.len() > 0 {
                opp.levels.insert(0, lvl);
                proof {
                    assert(l_pre[0].orders.len() > 1);
                    assert(opp@ =~= l1);
                    assert forall|i: int| 0 <= i < opp@.len() implies level_wf(
                        #[trigger] opp@[i],
                        opp_side,
                    ) by {
                        if i == 0 {
                            assert(level_wf(l_pre[0], opp_side));
                            assert forall|j: int|
                                0 <= j < opp@[0].orders.len() implies (#[trigger] opp@[0].orders[
                            j]).wf() && opp@[0].orders[j].side == opp_side && opp@[0].orders[
                            j].spec_limit_price() == Some(opp@[0].price) && !opp@[0].orders[
                            j].spec_is_closed() by {
                                assert(opp@[0].orders[j] == l_pre[0].orders[j + 1]);
                            }
                        } else {
                            assert(opp@[i] == l_pre[i]);
                            assert(level_wf(l_pre[i], opp_side));
                        }
                    }
                    assert forall|i: int, j: int| 0 <= i < j < opp@.len() implies better_price(
                        opp_side,
                        (#[trigger] opp@[i]).price,
                        (#[trigger] opp@[j]).price,
                    ) by {
                        assert(opp@[i].price == l_pre[i].price);
                        assert(opp@[j].price == l_pre[j].price);
                        assert(better_price(opp_side, l_pre[i].price, l_pre[j].price));
                    }
                    assert forall|i: int|
                        0 <= i < opp.levels@.len() implies (
                    #[trigger] opp.levels@[i]).qty_cached() by {
                        if i == 0 {
                            assert(opp.levels@[0]@.orders =~= l_pre[0].orders.drop_first());
                        } else {
                            assert(opp.levels@[i] == plv_pre[i]);
                        }
                    }
                    assert(opp.wf());
                }
            } else {
                proof {
                    assert(l_pre[0].orders.len() == 1);
                    assert(opp@ =~= l1);
                    assert forall|i: int| 0 <= i < opp@.len() implies level_wf(
                        #[trigger] opp@[i],
                        opp_side,
                    ) by {
                        assert(opp@[i] == l_pre[i + 1]);
                        assert(level_wf(l_pre[i + 1], opp_side));
                    }
                    assert forall|i: int, j: int| 0 <= i < j < opp@.len() implies better_price(
                        opp_side,
                        (#[trigger] opp@[i]).price,
                        (#[trigger] opp@[j]).price,
                    ) by {
                        assert(opp@[i].price == l_pre[i + 1].price);
                        assert(opp@[j].price == l_pre[j + 1].price);
                        assert(better_price(opp_side, l_pre[i + 1].price, l_pre[j + 1].price));
                    }
                    assert forall|i: int|
                        0 <= i < opp.levels@.len() implies (
                    #[trigger] opp.levels@[i]).qty_cached() by {
                        assert(opp.levels@[i] == plv_pre[i + 1]);
                    }
                    assert(opp.wf());
                }
            }
        } else {
            lvl.set_front(maker);
            opp.levels.insert(0, lvl);
            let ghost l1 = l_pre.update(
                0,
                LevelView { price: l_pre[0].price, orders: l_pre[0].orders.update(0, maker) },
            );
            proof {
                assert(q.units == t_pre.spec_remaining());
                assert(taker.spec_is_closed());
                assert(w_pre == (WalkResult {
                    taker: taker,
                    levels: l1,
                    trades: seq![tr],
                    removed: Seq::<u64>::empty(),
                }));
                assert(opp@ =~= l1);
                k = k_pre + 1;
                assert(g.trades.skip(k_pre) =~= seq![tr]);
                assert(g.trades.skip(k_pre).len() == 1);
                assert(k == g.trades.len());
                assert(g.trades.skip(k_pre)[0] == tr);
                assert(g.removed.skip(m_pre) =~= Seq::<u64>::empty());
                assert(m == g.removed.len());
                assert(g.taker == taker);
                assert(g.levels == l1);
                assert(trades@ =~= trades0 + g.trades.take(k)) by {
                    assert(g.trades[k_pre] == tr);
                    assert(g.trades.take(k) =~= g.trades.take(k_pre).push(tr));
                }
                assert(maker.wf() && !maker.spec_is_closed()) by {
                    assert(q.units < maker_at_rest.spec_remaining());
                }
                assert forall|i: int| 0 <= i < opp@.len() implies level_wf(
                    #[trigger] opp@[i],
                    opp_side,
                ) by {
                    if i == 0 {
                        assert(level_wf(l_pre[0], opp_side));
                        assert forall|j: int|
                            0 <= j < opp@[0].orders.len() implies (#[trigger] opp@[0].orders[
                        j]).wf() && opp@[0].orders[j].side == opp_side && opp@[0].orders[
                        j].spec_limit_price() == Some(opp@[0].price) && !opp@[0].orders[
                        j].spec_is_closed() by {
                            if j > 0 {
                                assert(opp@[0].orders[j] == l_pre[0].orders[j]);
                            }
                        }
                    } else {
                        assert(opp@[i] == l_pre[i]);
                        assert(level_wf(l_pre[i], opp_side));
                    }
                }
                assert forall|i: int, j: int| 0 <= i < j < opp@.len() implies better_price(
                    opp_side,
                    (#[trigger] opp@[i]).price,
                    (#[trigger] opp@[j]).price,
                ) by {
                    assert(opp@[i].price == l_pre[i].price);
                    assert(opp@[j].price == l_pre[j].price);
                    assert(better_price(opp_side, l_pre[i].price, l_pre[j].price));
                }
                assert forall|i: int|
                    0 <= i < opp.levels@.len() implies (
                #[trigger] opp.levels@[i]).qty_cached() by {
                    if i == 0 {
                        lemma_qty_sum_update(l_pre[0].orders, 0, maker);
                        assert(opp.levels@[0]@.orders =~= l_pre[0].orders.update(0, maker));
                    } else {
                        assert(opp.levels@[i] == plv_pre[i]);
                    }
                }
                assert(opp.wf());
                assert(walk(taker, opp@, *next_tid) == (WalkResult {
                    taker: g.taker,
                    levels: g.levels,
                    trades: g.trades.skip(k),
                    removed: g.removed.skip(m),
                }));
            }
        }
    }
    // Immediate-or-cancel remainders are discarded, never rested.
    if taker.is_immediate_or_cancel() {
        taker.cancel();
        return Ok(matched);
    }
    // Rest the remainder of a still-open limit order on its own ladder.
    if !taker.is_closed() && taker.is_bookable() {
        let price = match taker.limit_price() {
            Some(p) => p,
            None => {
                proof {
                    assert(false);
                }
                Decimal::new(0)
            },
        };
        let ins = own.insert(&taker);
        proof {
            assert(ins is Ok);
        }
        let _previous = id_index_insert(index, taker.id.0, OrderLocation {
            side: taker.side,
            price,
        });
        return Ok(matched);
    }
    Ok(matched)
}

/// The book: both ladders, the id index, and the append-only trade log.
pub struct Orderbook {
    pub asks: Ladder,
    pub bids: Ladder,
    pub index: IdIndexMap,
    pub trades: Vec<Trade>,
    pub next_trade_id: u64,
}

impl View for Orderbook {
    type V = BookView;

    open spec fn view(&self) -> BookView {
        BookView {
            asks: self.asks@,
            bids: self.bids@,
            index: id_index_view(self.index),
            trades: self.trades@,
            next_trade_id: self.next_trade_id,
        }
    }
}

impl Orderbook {
    /// The whole-book invariant, with the ladders' caches sound.
    pub open spec fn wf(self) -> bool {
        &&& self@.wf()
        &&& self.asks.side == OrderSide::Ask
        &&& self.bids.side == OrderSide::Bid
        &&& self.asks.wf()
        &&& self.bids.wf()
    }

    pub fn new() -> (r: Self)
        ensures
            r@ == BookView::empty(),
            r.wf(),
    {
        let r = Orderbook {
            asks: Ladder::new(OrderSide::Ask),
            bids: Ladder::new(OrderSide::Bid),
            index: id_index_new(),
            trades: Vec::new(),
            next_trade_id: 0,
        };
        proof {
            assert(r@ =~= BookView::empty());
        }
        r
    }

    /// The best resting order of a side, if the side has any.
    #[inline]
    pub fn peek_top(&self, side: &OrderSide) -> (r: Option<&Order>)
        requires
            self.wf(),
        ensures
            match r {
                Some(o) => spec_peek_top(self@, *side) == Some(*o),
                None => spec_peek_top(self@, *side) is None,
            },
    {
        match side {
            OrderSide::Ask => self.asks.peek_top(),
            OrderSide::Bid => self.bids.peek_top(),
        }
    }

    /// Submit an order: reject a duplicate id; cancel a post-only order
    /// that would cross or an uncoverable fill-or-kill order, touching
    /// nothing; otherwise match it against the opposite ladder by
    /// price-time priority, log the trades, and rest any remainder of a
    /// good-til-cancel limit order. `Ok(true)` exactly when a trade was
    /// struck.
    #[inline]
    pub fn handle_create(&mut self, order: Order) -> (r: Result<bool, OrderbookError>)
        requires
            old(self).wf(),
            order.wf(),
            submit_safe(old(self)@, order),
        ensures
            final(self).wf(),
            final(self)@ == spec_submit(old(self)@, order).0,
            r == spec_submit(old(self)@, order).1,
    {
        proof {
            lemma_spec_submit_wf(old(self)@, order);
            lemma_walk_counts(
                order,
                old(self)@.side_levels(order.side.spec_opposite()),
                old(self)@.next_trade_id,
            );
        }
        if id_index_contains(&self.index, order.id.0) {
            return Err(OrderbookError::OrderDuplicated(order.id()));
        }
        proof {
            if order.side is Ask {
                assert forall|i: int| 0 <= i < self.asks@.len() implies qty_sum(
                    (#[trigger] self.asks@[i]).orders,
                ) + order.spec_remaining() <= u128::MAX by {
                    assert(qty_sum(old(self)@.side_levels(order.side)[i].orders)
                        + order.spec_remaining() <= u128::MAX);
                }
            } else {
                assert forall|i: int| 0 <= i < self.bids@.len() implies qty_sum(
                    (#[trigger] self.bids@[i]).orders,
                ) + order.spec_remaining() <= u128::MAX by {
                    assert(qty_sum(old(self)@.side_levels(order.side)[i].orders)
                        + order.spec_remaining() <= u128::MAX);
                }
            }
        }
        let r = match order.side {
            OrderSide::Ask => submit_core(
                order,
                &mut self.asks,
                &mut self.bids,
                &mut self.index,
                &mut self.trades,
                &mut self.next_trade_id,
            ),
            OrderSide::Bid => submit_core(
                order,
                &mut self.bids,
                &mut self.asks,
                &mut self.index,
                &mut self.trades,
                &mut self.next_trade_id,
            ),
        };
        proof {
            assert(self@ =~= spec_submit(old(self)@, order).0);
        }
        r
    }

    /// Cancel a resting order: remove it from the index and from its level,
    /// and return it as it stood. An id that is not resting fails with
    /// `OrderToCancelNotFound` and changes nothing.
    #[inline]
    pub fn handle_cancel(&mut self, order_id: OrderId) -> (r: Result<Order, OrderbookError>)
        requires
            old(self).wf(),
        ensures
            final(self).wf(),
            final(self)@ == spec_cancel(old(self)@, order_id.0).0,
            r == spec_cancel(old(self)@, order_id.0).1,
    {
        proof {
            lemma_spec_cancel_wf(old(self)@, order_id.0);
        }
        let loc = match id_index_remove(&mut self.index, order_id.0) {
            None => {
                proof {
                    assert(self@ =~= old(self)@);
                }
                return Err(OrderbookError::OrderToCancelNotFound(order_id));
            },
            Some(loc) => loc,
        };
        let order = match loc.side {
            OrderSide::Ask => self.asks.remove_resting(order_id.0, loc.price),
            OrderSide::Bid => self.bids.remove_resting(order_id.0, loc.price),
        };
        proof {
            assert(final(self)@ =~= spec_cancel(old(self)@, order_id.0).0);
        }
        Ok(order)
    }
}

#[derive(Debug, PartialEq, Eq)]
pub enum OrderbookError {
    /// `submit` saw an id that is already present.
    OrderDuplicated(OrderId),
    /// A market order cannot be rested on the book.
    OrderToInsertWithNoLimitPrice(Order),
    /// A market order cannot stand in the book to be removed.
    OrderToRemoveWithNoLimitPrice(Order),
    /// `cancel` saw an id that is not resting.
    OrderToCancelNotFound(OrderId),
    /// A fill failed while matching.
    TradeError(TradeError),
}

} // verus!
