//! Lemmas about the model functions: sums of remainders, and how the
//! recursive ladder operations relate to positional surgery on sequences.
use vstd::prelude::*;

use crate::decimal::Decimal;
use crate::idindex::OrderLocation;
use crate::model::{
    all_orders, better_price, crosses, first_level_len, index_of_id, ladder_has, ladder_has_id,
    ladder_ids_unique, ladder_insert, ladder_qty, ladder_remove, ladder_wf, level_index_at,
    level_wf, post_only_blocked, qty_sum, remove_id, remove_ids, rest_price, same_core,
    spec_cancel, spec_submit, submit_safe, trades_qty, walk, BookView, LevelView, WalkResult,
};
use crate::model::fok_feasible;
use crate::order::Flags;
use crate::order::{Order, OrderSide};
use crate::trade::Trade;

verus! {

pub proof fn lemma_qty_sum_push(s: Seq<Order>, o: Order)
    ensures
        qty_sum(s.push(o)) == qty_sum(s) + o.spec_remaining(),
    decreases s.len(),
{
    if s.len() == 0 {
        assert(s.push(o).drop_first() =~= Seq::<Order>::empty());
        assert(qty_sum(s.push(o)) == o.spec_remaining() + qty_sum(s.push(o).drop_first()));
    } else {
        assert(s.push(o).drop_first() =~= s.drop_first().push(o));
        lemma_qty_sum_push(s.drop_first(), o);
        assert(s.push(o)[0] == s[0]);
        assert(qty_sum(s.push(o)) == s[0].spec_remaining() + qty_sum(s.push(o).drop_first()));
    }
}

pub proof fn lemma_qty_sum_remove(s: Seq<Order>, i: int)
    requires
        0 <= i < s.len(),
    ensures
        qty_sum(s.remove(i)) == qty_sum(s) - s[i].spec_remaining(),
    decreases s.len(),
{
    if i == 0 {
        assert(s.remove(0) =~= s.drop_first());
    } else {
        assert(s.remove(i).drop_first() =~= s.drop_first().remove(i - 1));
        lemma_qty_sum_remove(s.drop_first(), i - 1);
    }
}

pub proof fn lemma_qty_sum_update(s: Seq<Order>, i: int, o: Order)
    requires
        0 <= i < s.len(),
    ensures
        qty_sum(s.update(i, o)) == qty_sum(s) - s[i].spec_remaining() + o.spec_remaining(),
    decreases s.len(),
{
    if i == 0 {
        assert(s.update(0, o).drop_first() =~= s.drop_first());
    } else {
        assert(s.update(i, o).drop_first() =~= s.drop_first().update(i - 1, o));
        lemma_qty_sum_update(s.drop_first(), i - 1, o);
    }
}

/// Remainders of well-formed open orders are positive, so a level's sum is
/// at least any one order's remainder, and positive when the level is.
pub proof fn lemma_qty_sum_bounds(s: Seq<Order>)
    requires
        forall|j: int|
            0 <= j < s.len() ==> (#[trigger] s[j]).wf() && !s[j].spec_is_closed(),
    ensures
        qty_sum(s) >= 0,
        s.len() > 0 ==> qty_sum(s) > 0,
        forall|j: int| 0 <= j < s.len() ==> qty_sum(s) >= (#[trigger] s[j]).spec_remaining(),
    decreases s.len(),
{
    if s.len() > 0 {
        lemma_qty_sum_bounds(s.drop_first());
        assert forall|j: int| 0 <= j < s.len() implies qty_sum(s) >= (
        #[trigger] s[j]).spec_remaining() by {
            if j > 0 {
                assert(s.drop_first()[j - 1] == s[j]);
            }
        }
    }
}

/// Where the scan for the insertion point stops, the recursive insert acts:
/// it extends the level of an equal price, and otherwise opens a new level
/// there.
pub proof fn lemma_ladder_insert_split(
    levels: Seq<LevelView>,
    side: OrderSide,
    o: Order,
    price: Decimal,
    k: int,
)
    requires
        0 <= k <= levels.len(),
        forall|i: int| 0 <= i < k ==> better_price(side, (#[trigger] levels[i]).price, price),
        k < levels.len() ==> !better_price(side, levels[k].price, price),
    ensures
        k < levels.len() && levels[k].price == price ==> ladder_insert(levels, side, o, price)
            =~= levels.update(k, LevelView { price, orders: levels[k].orders.push(o) }),
        !(k < levels.len() && levels[k].price == price) ==> ladder_insert(levels, side, o, price)
            =~= levels.insert(k, LevelView { price, orders: seq![o] }),
    decreases levels.len(),
{
    if k == 0 {
        if levels.len() == 0 {
            assert(ladder_insert(levels, side, o, price) =~= levels.insert(
                0,
                LevelView { price, orders: seq![o] },
            ));
        } else if levels[0].price == price {
            assert(!better_price(side, price, levels[0].price));
            assert(ladder_insert(levels, side, o, price) =~= levels.update(
                0,
                LevelView { price, orders: levels[0].orders.push(o) },
            ));
        } else {
            assert(better_price(side, price, levels[0].price));
            assert(ladder_insert(levels, side, o, price) =~= levels.insert(
                0,
                LevelView { price, orders: seq![o] },
            ));
        }
    } else {
        assert(better_price(side, levels[0].price, price));
        assert(!better_price(side, price, levels[0].price));
        assert(levels[0].price != price);
        lemma_ladder_insert_split(levels.drop_first(), side, o, price, k - 1);
        assert(forall|i: int|
            0 <= i < k - 1 ==> better_price(
                side,
                (#[trigger] levels.drop_first()[i]).price,
                price,
            ));
        if k < levels.len() && levels[k].price == price {
            assert(levels.drop_first()[k - 1].price == price);
            assert(ladder_insert(levels, side, o, price) =~= seq![levels[0]] + ladder_insert(
                levels.drop_first(),
                side,
                o,
                price,
            ));
            assert(seq![levels[0]] + levels.drop_first().update(
                k - 1,
                LevelView { price, orders: levels.drop_first()[k - 1].orders.push(o) },
            ) =~= levels.update(k, LevelView { price, orders: levels[k].orders.push(o) }));
        } else {
            assert(seq![levels[0]] + levels.drop_first().insert(
                k - 1,
                LevelView { price, orders: seq![o] },
            ) =~= levels.insert(k, LevelView { price, orders: seq![o] }));
        }
    }
}

/// Resting a well-formed open limit order of the right side keeps the
/// ladder sound; no price appears that was not there or the order's own.
pub proof fn lemma_ladder_insert_wf(
    levels: Seq<LevelView>,
    side: OrderSide,
    o: Order,
    price: Decimal,
)
    requires
        ladder_wf(levels, side),
        o.wf(),
        !o.spec_is_closed(),
        o.side == side,
        o.spec_limit_price() == Some(price),
    ensures
        ladder_wf(ladder_insert(levels, side, o, price), side),
        levels.len() <= ladder_insert(levels, side, o, price).len() <= levels.len() + 1,
        forall|j: int|
            0 <= j < ladder_insert(levels, side, o, price).len() ==> (#[trigger] ladder_insert(
                levels,
                side,
                o,
                price,
            )[j]).price == price || exists|i: int|
                0 <= i < levels.len() && (#[trigger] levels[i]).price == ladder_insert(
                    levels,
                    side,
                    o,
                    price,
                )[j].price,
    decreases levels.len(),
{
    let r = ladder_insert(levels, side, o, price);
    if levels.len() == 0 {
        assert(level_wf(r[0], side));
    } else if better_price(side, price, levels[0].price) {
        assert(level_wf(r[0], side));
        assert forall|i: int, j: int| 0 <= i < j < r.len() implies better_price(
            side,
            (#[trigger] r[i]).price,
            (#[trigger] r[j]).price,
        ) by {
            if i > 0 {
                assert(r[i] == levels[i - 1] && r[j] == levels[j - 1]);
            } else {
                assert(r[j] == levels[j - 1]);
                if j > 1 {
                    assert(better_price(side, levels[0].price, levels[j - 1].price));
                }
            }
        }
    } else if price == levels[0].price {
        assert(level_wf(levels[0], side));
        assert(level_wf(r[0], side));
        assert forall|j: int| 0 <= j < r.len() implies level_wf(#[trigger] r[j], side) by {
            if j > 0 {
                assert(r[j] == levels[j]);
            }
        }
        assert forall|i: int, j: int| 0 <= i < j < r.len() implies better_price(
            side,
            (#[trigger] r[i]).price,
            (#[trigger] r[j]).price,
        ) by {
            assert(r[j] == levels[j]);
            if i > 0 {
                assert(r[i] == levels[i]);
            }
        }
    } else {
        lemma_ladder_insert_wf(levels.drop_first(), side, o, price);
        let rr = ladder_insert(levels.drop_first(), side, o, price);
        assert(r =~= seq![levels[0]] + rr);
        assert(level_wf(r[0], side));
        assert forall|j: int| 0 <= j < r.len() implies level_wf(#[trigger] r[j], side) by {
            if j > 0 {
                assert(r[j] == rr[j - 1]);
            }
        }
        assert forall|i: int, j: int| 0 <= i < j < r.len() implies better_price(
            side,
            (#[trigger] r[i]).price,
            (#[trigger] r[j]).price,
        ) by {
            if i > 0 {
                assert(r[i] == rr[i - 1] && r[j] == rr[j - 1]);
            } else {
                assert(r[j] == rr[j - 1]);
                assert(rr[j - 1].price == price || exists|m: int|
                    0 <= m < levels.drop_first().len() && (#[trigger] levels.drop_first()[
                        m
                    ]).price == rr[j - 1].price);
                if rr[j - 1].price != price {
                    let m = choose|m: int|
                        0 <= m < levels.drop_first().len() && (#[trigger] levels.drop_first()[
                            m
                        ]).price == rr[j - 1].price;
                    assert(levels[m + 1].price == rr[j - 1].price);
                    assert(better_price(side, levels[0].price, levels[m + 1].price));
                }
            }
        }
        assert forall|j: int| 0 <= j < r.len() implies (#[trigger] r[j]).price == price || exists|
            i: int,
        | 0 <= i < levels.len() && (#[trigger] levels[i]).price == r[j].price by {
            if j == 0 {
                assert(levels[0].price == r[0].price);
            } else {
                assert(r[j] == rr[j - 1]);
                if rr[j - 1].price != price {
                    let m = choose|m: int|
                        0 <= m < levels.drop_first().len() && (#[trigger] levels.drop_first()[
                            m
                        ]).price == rr[j - 1].price;
                    assert(levels[m + 1].price == r[j].price);
                }
            }
        }
    }
}

/// Where the scan for a price stops is where `level_index_at` points.
pub proof fn lemma_level_index_at_split(levels: Seq<LevelView>, price: Decimal, k: int)
    requires
        0 <= k <= levels.len(),
        forall|i: int| 0 <= i < k ==> (#[trigger] levels[i]).price != price,
        k < levels.len() ==> levels[k].price == price,
    ensures
        level_index_at(levels, price) == k,
    decreases levels.len(),
{
    if k > 0 {
        lemma_level_index_at_split(levels.drop_first(), price, k - 1);
    }
}

/// Where the scan for an id stops is where `index_of_id` points, and
/// `remove_id` removes exactly that position.
pub proof fn lemma_remove_id_split(s: Seq<Order>, id: u64, j: int)
    requires
        0 <= j <= s.len(),
        forall|i: int| 0 <= i < j ==> (#[trigger] s[i]).id.0 != id,
        j < s.len() ==> s[j].id.0 == id,
    ensures
        index_of_id(s, id) == j,
        j < s.len() ==> remove_id(s, id) =~= s.remove(j),
    decreases s.len(),
{
    if j == 0 {
        if s.len() > 0 && s[0].id.0 == id {
            assert(remove_id(s, id) =~= s.remove(0));
        }
    } else {
        lemma_remove_id_split(s.drop_first(), id, j - 1);
        if j < s.len() {
            assert(seq![s[0]] + s.drop_first().remove(j - 1) =~= s.remove(j));
        }
    }
}

/// The recursive ladder removal, at the level position the scans found: the
/// level is dropped when its last order leaves, else it keeps the rest.
pub proof fn lemma_ladder_remove_split(levels: Seq<LevelView>, id: u64, price: Decimal, k: int)
    requires
        0 <= k < levels.len(),
        forall|i: int| 0 <= i < k ==> (#[trigger] levels[i]).price != price,
        levels[k].price == price,
    ensures
        remove_id(levels[k].orders, id).len() == 0 ==> ladder_remove(levels, id, price)
            =~= levels.remove(k),
        remove_id(levels[k].orders, id).len() > 0 ==> ladder_remove(levels, id, price)
            =~= levels.update(
            k,
            LevelView { price, orders: remove_id(levels[k].orders, id) },
        ),
    decreases levels.len(),
{
    if k == 0 {
        if remove_id(levels[0].orders, id).len() == 0 {
            assert(ladder_remove(levels, id, price) =~= levels.remove(0));
        } else {
            assert(ladder_remove(levels, id, price) =~= levels.update(
                0,
                LevelView { price, orders: remove_id(levels[0].orders, id) },
            ));
        }
    } else {
        lemma_ladder_remove_split(levels.drop_first(), id, price, k - 1);
        if remove_id(levels[k].orders, id).len() == 0 {
            assert(levels.drop_first()[k - 1] == levels[k]);
            assert(seq![levels[0]] + levels.drop_first().remove(k - 1) =~= levels.remove(k));
        } else {
            assert(levels.drop_first()[k - 1] == levels[k]);
            assert(seq![levels[0]] + levels.drop_first().update(
                k - 1,
                LevelView { price, orders: remove_id(levels[k].orders, id) },
            ) =~= levels.update(
                k,
                LevelView { price, orders: remove_id(levels[k].orders, id) },
            ));
        }
    }
}

/// `level_index_at` points at the first level with the price; when some
/// level carries it, the position is in range and carries it.
pub proof fn lemma_level_index_at_props(levels: Seq<LevelView>, price: Decimal)
    ensures
        0 <= level_index_at(levels, price) <= levels.len(),
        forall|i: int|
            0 <= i < level_index_at(levels, price) ==> (#[trigger] levels[i]).price != price,
        level_index_at(levels, price) < levels.len() ==> levels[level_index_at(
            levels,
            price,
        )].price == price,
        (exists|i: int| 0 <= i < levels.len() && (#[trigger] levels[i]).price == price)
            ==> level_index_at(levels, price) < levels.len(),
    decreases levels.len(),
{
    if levels.len() > 0 && levels[0].price != price {
        lemma_level_index_at_props(levels.drop_first(), price);
        assert forall|i: int|
            0 <= i < level_index_at(levels, price) implies (#[trigger] levels[i]).price
            != price by {
            if i > 0 {
                assert(levels.drop_first()[i - 1] == levels[i]);
            }
        }
        if exists|i: int| 0 <= i < levels.len() && (#[trigger] levels[i]).price == price {
            let i = choose|i: int|
                0 <= i < levels.len() && (#[trigger] levels[i]).price == price;
            assert(levels.drop_first()[i - 1] == levels[i]);
        }
    }
}

/// `index_of_id` points at the first order with the id; when some order
/// carries it, the position is in range and carries it.
pub proof fn lemma_index_of_id_props(s: Seq<Order>, id: u64)
    ensures
        0 <= index_of_id(s, id) <= s.len(),
        forall|i: int| 0 <= i < index_of_id(s, id) ==> (#[trigger] s[i]).id.0 != id,
        index_of_id(s, id) < s.len() ==> s[index_of_id(s, id)].id.0 == id,
        (exists|i: int| 0 <= i < s.len() && (#[trigger] s[i]).id.0 == id) ==> index_of_id(s, id)
            < s.len(),
    decreases s.len(),
{
    if s.len() > 0 && s[0].id.0 != id {
        lemma_index_of_id_props(s.drop_first(), id);
        assert forall|i: int|
            0 <= i < index_of_id(s, id) implies (#[trigger] s[i]).id.0 != id by {
            if i > 0 {
                assert(s.drop_first()[i - 1] == s[i]);
            }
        }
        if exists|i: int| 0 <= i < s.len() && (#[trigger] s[i]).id.0 == id {
            let i = choose|i: int| 0 <= i < s.len() && (#[trigger] s[i]).id.0 == id;
            assert(s.drop_first()[i - 1] == s[i]);
        }
    }
}

/// In a well-formed book an id names one resting order: two queue positions
/// holding the same id are the same position.
pub proof fn lemma_book_id_unique(
    b: BookView,
    side1: OrderSide,
    i1: int,
    j1: int,
    side2: OrderSide,
    i2: int,
    j2: int,
)
    requires
        b.inv_resting_orders(),
        b.inv_index_complete(),
        b.inv_ids_unique(),
        0 <= i1 < b.side_levels(side1).len(),
        0 <= j1 < b.side_levels(side1)[i1].orders.len(),
        0 <= i2 < b.side_levels(side2).len(),
        0 <= j2 < b.side_levels(side2)[i2].orders.len(),
        b.side_levels(side1)[i1].orders[j1].id.0 == b.side_levels(side2)[i2].orders[j2].id.0,
    ensures
        side1 == side2,
        i1 == i2,
        j1 == j2,
{
    let id = b.side_levels(side1)[i1].orders[j1].id.0;
    assert(b.index[id] == (crate::idindex::OrderLocation {
        side: side1,
        price: b.side_levels(side1)[i1].price,
    }));
    assert(b.index[id] == (crate::idindex::OrderLocation {
        side: side2,
        price: b.side_levels(side2)[i2].price,
    }));
    if i1 < i2 {
        assert(better_price(
            side1,
            b.side_levels(side1)[i1].price,
            b.side_levels(side1)[i2].price,
        ));
        assert(false);
    }
    if i2 < i1 {
        assert(better_price(
            side1,
            b.side_levels(side1)[i2].price,
            b.side_levels(side1)[i1].price,
        ));
        assert(false);
    }
}

/// After a cancel, both ladders are still sound.
#[verifier::rlimit(50)]
#[verifier::spinoff_prover]
pub proof fn lemma_cancel_resting(b: BookView, id: u64)
    requires
        b.wf(),
        b.index.contains_key(id),
    ensures
        spec_cancel(b, id).0.inv_resting_orders(),
{
    let loc = b.index[id];
    let side = loc.side;
    let levels = b.side_levels(side);
    let k = level_index_at(levels, loc.price);
    let j0 = index_of_id(levels[k].orders, id);
    lemma_level_index_at_props(levels, loc.price);
    lemma_index_of_id_props(levels[k].orders, id);
    lemma_remove_id_split(levels[k].orders, id, j0);
    lemma_ladder_remove_split(levels, id, loc.price, k);
    let levels1 = ladder_remove(levels, id, loc.price);
    let b1 = spec_cancel(b, id).0;
    assert(b1.side_levels(side) == levels1);
    assert(b1.side_levels(side.spec_opposite()) == b.side_levels(side.spec_opposite()));
    let gone = remove_id(levels[k].orders, id).len() == 0;
    assert forall|i: int| 0 <= i < levels1.len() implies level_wf(
        #[trigger] levels1[i],
        side,
    ) by {
        let i0: int = if gone && i >= k {
            i + 1
        } else {
            i
        };
        assert(level_wf(levels[i0], side));
        if !gone && i == k {
            assert(levels1[k].orders =~= levels[k].orders.remove(j0));
            assert forall|j: int|
                0 <= j < levels1[k].orders.len() implies (#[trigger] levels1[k].orders[
            j]).wf() && levels1[k].orders[j].side == side && levels1[k].orders[
            j].spec_limit_price() == Some(levels1[k].price) && !levels1[k].orders[
            j].spec_is_closed() by {
                let jj: int = if j < j0 {
                    j
                } else {
                    j + 1
                };
                assert(levels1[k].orders[j] == levels[k].orders[jj]);
            }
        }
    }
    assert forall|i: int, j: int| 0 <= i < j < levels1.len() implies better_price(
        side,
        (#[trigger] levels1[i]).price,
        (#[trigger] levels1[j]).price,
    ) by {
        let i0: int = if gone && i >= k {
            i + 1
        } else {
            i
        };
        let j0x: int = if gone && j >= k {
            j + 1
        } else {
            j
        };
        assert(levels1[i].price == levels[i0].price);
        assert(levels1[j].price == levels[j0x].price);
        assert(better_price(side, levels[i0].price, levels[j0x].price));
    }
    assert(ladder_wf(levels1, side));
}

/// After a cancel, every queued order is still correctly indexed.
#[verifier::rlimit(50)]
#[verifier::spinoff_prover]
pub proof fn lemma_cancel_complete(b: BookView, id: u64)
    requires
        b.wf(),
        b.index.contains_key(id),
    ensures
        spec_cancel(b, id).0.inv_index_complete(),
{
    let loc = b.index[id];
    let side = loc.side;
    let levels = b.side_levels(side);
    let k = level_index_at(levels, loc.price);
    let j0 = index_of_id(levels[k].orders, id);
    lemma_level_index_at_props(levels, loc.price);
    lemma_index_of_id_props(levels[k].orders, id);
    lemma_remove_id_split(levels[k].orders, id, j0);
    lemma_ladder_remove_split(levels, id, loc.price, k);
    let levels1 = ladder_remove(levels, id, loc.price);
    let b1 = spec_cancel(b, id).0;
    assert(b1.side_levels(side) == levels1);
    assert(b1.side_levels(side.spec_opposite()) == b.side_levels(side.spec_opposite()));
    assert(b1.index =~= b.index.remove(id));
    let gone = remove_id(levels[k].orders, id).len() == 0;
    assert forall|side2: OrderSide, i: int, j: int|
        0 <= i < b1.side_levels(side2).len() && 0 <= j < b1.side_levels(
            side2,
        )[i].orders.len() implies {
        &&& b1.index.contains_key((#[trigger] b1.side_levels(side2)[i].orders[j]).id.0)
        &&& b1.index[b1.side_levels(side2)[i].orders[j].id.0] == (crate::idindex::OrderLocation {
            side: side2,
            price: b1.side_levels(side2)[i].price,
        })
    } by {
        let oo = b1.side_levels(side2)[i].orders[j];
        if side2 == side {
            let i0: int = if gone && i >= k {
                i + 1
            } else {
                i
            };
            let jj: int = if !gone && i == k && j >= j0 {
                j + 1
            } else {
                j
            };
            assert(levels1[i].orders =~= if !gone && i == k {
                levels[k].orders.remove(j0)
            } else {
                levels[i0].orders
            });
            assert(oo == levels[i0].orders[jj]);
            if oo.id.0 == id {
                lemma_book_id_unique(b, side, i0, jj, side, k, j0);
                assert(false);
            }
            assert(b1.side_levels(side2)[i].price == levels[i0].price);
        } else {
            assert(oo == b.side_levels(side2)[i].orders[j]);
            if oo.id.0 == id {
                lemma_book_id_unique(b, side2, i, j, side, k, j0);
                assert(false);
            }
        }
    }
}

/// After a cancel, every surviving index entry is still found where its
/// location points.
#[verifier::rlimit(50)]
#[verifier::spinoff_prover]
pub proof fn lemma_cancel_sound(b: BookView, id: u64)
    requires
        b.wf(),
        b.index.contains_key(id),
    ensures
        spec_cancel(b, id).0.inv_index_sound(),
{
    let loc = b.index[id];
    let side = loc.side;
    let levels = b.side_levels(side);
    let k = level_index_at(levels, loc.price);
    let j0 = index_of_id(levels[k].orders, id);
    lemma_level_index_at_props(levels, loc.price);
    lemma_index_of_id_props(levels[k].orders, id);
    lemma_remove_id_split(levels[k].orders, id, j0);
    lemma_ladder_remove_split(levels, id, loc.price, k);
    let levels1 = ladder_remove(levels, id, loc.price);
    let b1 = spec_cancel(b, id).0;
    assert(b1.side_levels(side) == levels1);
    assert(b1.side_levels(side.spec_opposite()) == b.side_levels(side.spec_opposite()));
    assert(b1.index =~= b.index.remove(id));
    let gone = remove_id(levels[k].orders, id).len() == 0;
    assert forall|id2: u64| #[trigger]
        b1.index.contains_key(id2) implies b1.loc_found(id2) by {
        let loc2 = b1.index[id2];
        assert(b.index.contains_key(id2) && b.index[id2] == loc2 && id2 != id);
        let lv2 = b.side_levels(loc2.side);
        let k2 = level_index_at(lv2, loc2.price);
        let m2 = index_of_id(lv2[k2].orders, id2);
        lemma_level_index_at_props(lv2, loc2.price);
        lemma_index_of_id_props(lv2[k2].orders, id2);
        let nlv2 = b1.side_levels(loc2.side);
        lemma_level_index_at_props(nlv2, loc2.price);
        if loc2.side != side {
            assert(b1.loc_found(id2));
        } else {
            if k2 == k {
                assert(!gone) by {
                    if gone {
                        assert(lv2[k].orders.remove(j0).len() == 0);
                        assert(lv2[k].orders.len() == 1);
                        assert(m2 == 0 && j0 == 0);
                        assert(false);
                    }
                }
                assert(nlv2[k].price == loc2.price);
                lemma_level_index_at_props(nlv2, loc2.price);
                assert forall|i: int|
                    0 <= i < k implies (#[trigger] nlv2[i]).price != loc2.price by {
                    assert(nlv2[i] == lv2[i]);
                }
                lemma_level_index_at_split(nlv2, loc2.price, k);
                assert(m2 != j0);
                let m2n: int = if m2 < j0 {
                    m2
                } else {
                    m2 - 1
                };
                assert(nlv2[k].orders =~= lv2[k].orders.remove(j0));
                assert(nlv2[k].orders[m2n].id.0 == id2);
                lemma_index_of_id_props(nlv2[k].orders, id2);
                assert(b1.loc_found(id2));
            } else {
                // The level of id2 is untouched; find it again.
                let k2n: int = if gone && k2 > k {
                    k2 - 1
                } else {
                    k2
                };
                assert(nlv2[k2n] == lv2[k2] || (!gone && k2n == k2 && nlv2[k2n].price
                    == lv2[k2].price && nlv2[k2n].orders == lv2[k2].orders)) by {
                    if gone {
                        if k2 > k {
                            assert(nlv2[k2 - 1] == lv2[k2]);
                        } else {
                            assert(nlv2[k2] == lv2[k2]);
                        }
                    } else {
                        assert(nlv2[k2] == lv2[k2]);
                    }
                }
                assert(nlv2[k2n].price == loc2.price);
                lemma_level_index_at_props(nlv2, loc2.price);
                assert(level_index_at(nlv2, loc2.price) < nlv2.len());
                let kf = level_index_at(nlv2, loc2.price);
                // Prices are unique, so the found level is the mapped one.
                assert(nlv2[kf].price == loc2.price);
                assert(kf == k2n) by {
                    if kf != k2n {
                        let kff: int = if gone && kf >= k {
                            kf + 1
                        } else {
                            kf
                        };
                        assert(lv2[kff].price == loc2.price);
                        assert(kff != k2);
                        if kff < k2 {
                            assert(better_price(side, lv2[kff].price, lv2[k2].price));
                        } else {
                            assert(better_price(side, lv2[k2].price, lv2[kff].price));
                        }
                        assert(false);
                    }
                }
                assert(nlv2[kf].orders == lv2[k2].orders);
                lemma_index_of_id_props(nlv2[kf].orders, id2);
                assert(b1.loc_found(id2));
            }
        }
    }
}

/// After a cancel, no level holds one id twice.
#[verifier::rlimit(50)]
#[verifier::spinoff_prover]
pub proof fn lemma_cancel_unique(b: BookView, id: u64)
    requires
        b.wf(),
        b.index.contains_key(id),
    ensures
        spec_cancel(b, id).0.inv_ids_unique(),
{
    let loc = b.index[id];
    let side = loc.side;
    let levels = b.side_levels(side);
    let k = level_index_at(levels, loc.price);
    let j0 = index_of_id(levels[k].orders, id);
    lemma_level_index_at_props(levels, loc.price);
    lemma_index_of_id_props(levels[k].orders, id);
    lemma_remove_id_split(levels[k].orders, id, j0);
    lemma_ladder_remove_split(levels, id, loc.price, k);
    let levels1 = ladder_remove(levels, id, loc.price);
    let b1 = spec_cancel(b, id).0;
    assert(b1.side_levels(side) == levels1);
    assert(b1.side_levels(side.spec_opposite()) == b.side_levels(side.spec_opposite()));
    let gone = remove_id(levels[k].orders, id).len() == 0;
    assert forall|side2: OrderSide, i: int, ja: int, jb: int|
        0 <= i < b1.side_levels(side2).len() && 0 <= ja < b1.side_levels(
            side2,
        )[i].orders.len() && 0 <= jb < b1.side_levels(side2)[i].orders.len()
            && (#[trigger] b1.side_levels(side2)[i].orders[ja]).id.0
            == (#[trigger] b1.side_levels(side2)[i].orders[jb]).id.0 implies ja == jb by {
        if side2 == side {
            let i0: int = if gone && i >= k {
                i + 1
            } else {
                i
            };
            let jja: int = if !gone && i == k && ja >= j0 {
                ja + 1
            } else {
                ja
            };
            let jjb: int = if !gone && i == k && jb >= j0 {
                jb + 1
            } else {
                jb
            };
            assert(levels1[i].orders =~= if !gone && i == k {
                levels[k].orders.remove(j0)
            } else {
                levels[i0].orders
            });
            assert(b1.side_levels(side2)[i].orders[ja] == levels[i0].orders[jja]);
            assert(b1.side_levels(side2)[i].orders[jb] == levels[i0].orders[jjb]);
            lemma_book_id_unique(b, side, i0, jja, side, i0, jjb);
        } else {
            lemma_book_id_unique(b, side2, i, ja, side2, i, jb);
        }
    }
}

/// Cancelling preserves the book invariants; a resting id comes back as the
/// order that rested, and the id alone leaves the index.
#[verifier::rlimit(50)]
#[verifier::spinoff_prover]
pub proof fn lemma_spec_cancel_wf(b: BookView, id: u64)
    requires
        b.wf(),
    ensures
        spec_cancel(b, id).0.wf(),
        b.index.contains_key(id) ==> spec_cancel(b, id).0.index =~= b.index.remove(id),
        !b.index.contains_key(id) ==> spec_cancel(b, id).0 == b,
{
    if b.index.contains_key(id) {
        let loc = b.index[id];
        let side = loc.side;
        let levels = b.side_levels(side);
        let k = level_index_at(levels, loc.price);
        let j0 = index_of_id(levels[k].orders, id);
        lemma_level_index_at_props(levels, loc.price);
        lemma_index_of_id_props(levels[k].orders, id);
        lemma_remove_id_split(levels[k].orders, id, j0);
        lemma_ladder_remove_split(levels, id, loc.price, k);
        let levels1 = ladder_remove(levels, id, loc.price);
        let b1 = spec_cancel(b, id).0;
        assert(b1.side_levels(side) == levels1);
        assert(b1.side_levels(side.spec_opposite()) == b.side_levels(side.spec_opposite()));
        assert(b1.index =~= b.index.remove(id));
        let gone = remove_id(levels[k].orders, id).len() == 0;
        lemma_cancel_resting(b, id);
        lemma_cancel_complete(b, id);
        lemma_cancel_sound(b, id);
        lemma_cancel_unique(b, id);
        // The best price of the touched side can only get worse.
        assert(b1.inv_not_crossed()) by {
            if b1.asks.len() > 0 && b1.bids.len() > 0 {
                assert(b.asks.len() > 0 && b.bids.len() > 0);
                if side is Ask {
                    let i0: int = if gone && 0 >= k {
                        1
                    } else {
                        0
                    };
                    assert(b1.asks[0].price == b.asks[i0].price);
                    if i0 > 0 {
                        assert(better_price(OrderSide::Ask, b.asks[0].price, b.asks[i0].price));
                    }
                } else {
                    let i0: int = if gone && 0 >= k {
                        1
                    } else {
                        0
                    };
                    assert(b1.bids[0].price == b.bids[i0].price);
                    if i0 > 0 {
                        assert(better_price(OrderSide::Bid, b.bids[0].price, b.bids[i0].price));
                    }
                }
            }
        }
        assert(b1.wf());
    }
}

/// How the flattened ladder changes when its head order is consumed.
pub proof fn lemma_all_orders_first(levels: Seq<LevelView>)
    requires
        levels.len() > 0,
    ensures
        levels[0].orders.len() > 0 ==> all_orders(levels).len() > 0 && all_orders(levels)[0]
            == levels[0].orders[0],
        levels[0].orders.len() == 1 ==> all_orders(levels.drop_first()) =~= all_orders(
            levels,
        ).drop_first(),
        levels[0].orders.len() > 1 ==> all_orders(
            levels.update(
                0,
                LevelView { price: levels[0].price, orders: levels[0].orders.drop_first() },
            ),
        ) =~= all_orders(levels).drop_first(),
        all_orders(levels).len() == levels[0].orders.len() + all_orders(
            levels.drop_first(),
        ).len(),
{
    if levels[0].orders.len() > 1 {
        let lv1 = levels.update(
            0,
            LevelView { price: levels[0].price, orders: levels[0].orders.drop_first() },
        );
        assert(lv1.drop_first() =~= levels.drop_first());
        assert(all_orders(lv1) =~= levels[0].orders.drop_first() + all_orders(
            levels.drop_first(),
        ));
        assert(all_orders(lv1) =~= all_orders(levels).drop_first());
    }
    if levels[0].orders.len() == 1 {
        assert(all_orders(levels.drop_first()) =~= all_orders(levels).drop_first());
    }
}

/// A walk strikes at most one trade per resting order, and removes at most
/// one maker per trade.
pub proof fn lemma_walk_counts(taker: Order, levels: Seq<LevelView>, tid: u64)
    ensures
        walk(taker, levels, tid).trades.len() <= all_orders(levels).len(),
        walk(taker, levels, tid).removed.len() <= walk(taker, levels, tid).trades.len(),
    decreases levels.len(), first_level_len(levels),
{
    if !(levels.len() == 0 || taker.spec_is_closed() || !crate::model::crosses(
        taker,
        levels[0].price,
    ) || levels[0].orders.len() == 0) {
        let maker = levels[0].orders[0];
        let q = Decimal {
            units: (if taker.spec_remaining() <= maker.spec_remaining() {
                taker.spec_remaining()
            } else {
                maker.spec_remaining()
            }) as u128,
        };
        let maker1 = maker.spec_fill(q);
        lemma_all_orders_first(levels);
        if maker1.spec_is_closed() {
            let levels1 = if levels[0].orders.len() == 1 {
                levels.drop_first()
            } else {
                levels.update(
                    0,
                    LevelView { price: levels[0].price, orders: levels[0].orders.drop_first() },
                )
            };
            lemma_walk_counts(taker.spec_fill(q), levels1, (tid + 1) as u64);
        }
    }
}

/// Everything one match walk guarantees about its result: the taker's
/// identity and fills, the shape and soundness of what is left of the
/// ladder, the trades in order, and the ids it removed.
pub open spec fn walk_props(
    taker: Order,
    levels: Seq<LevelView>,
    tid: u64,
    side: OrderSide,
) -> bool {
    let r = walk(taker, levels, tid);
    let d = levels.len() - r.levels.len();
    &&& r.taker.id == taker.id
    &&& r.taker.side == taker.side
    &&& r.taker.kind == taker.kind
    &&& r.taker.order_quantity == taker.order_quantity
    &&& r.taker.wf()
    &&& r.taker.filled_quantity.units == taker.filled_quantity.units + trades_qty(r.trades)
    &&& ladder_wf(r.levels, side)
    &&& ladder_ids_unique(r.levels)
    &&& 0 <= d <= levels.len()
    &&& (forall|i: int| 1 <= i < r.levels.len() ==> r.levels[i] == levels[d + i])
    &&& (r.levels.len() > 0 ==> {
        let e = levels[d].orders.len() - r.levels[0].orders.len();
        &&& r.levels[0].price == levels[d].price
        &&& 0 <= e < levels[d].orders.len()
        &&& (forall|j: int|
            1 <= j < r.levels[0].orders.len() ==> r.levels[0].orders[j] == levels[d].orders[e
                + j])
        &&& same_core(r.levels[0].orders[0], levels[d].orders[e])
    })
    &&& (r.levels.len() > 0 && !r.taker.spec_is_closed() ==> !crosses(
        r.taker,
        r.levels[0].price,
    ))
    &&& (forall|x: int|
        0 <= x < r.trades.len() ==> (#[trigger] r.trades[x]).taker == taker.id
            && r.trades[x].quantity.units > 0)
    &&& (tid + r.trades.len() <= u64::MAX ==> forall|x: int|
        0 <= x < r.trades.len() ==> (#[trigger] r.trades[x]).id.0 == tid + x)
    &&& (forall|x: int, y: int|
        0 <= x < y < r.trades.len() ==> !better_price(
            side,
            (#[trigger] r.trades[y]).price,
            (#[trigger] r.trades[x]).price,
        ))
    &&& (r.trades.len() > 0 ==> r.trades[0].price == levels[0].price)
    &&& r.removed.len() <= r.trades.len() <= r.removed.len() + 1
    &&& (forall|x: int|
        0 <= x < r.removed.len() ==> ladder_has_id(levels, #[trigger] r.removed[x]))
    &&& (forall|x: int|
        0 <= x < r.removed.len() ==> (#[trigger] r.trades[x]).maker.0 == r.removed[x])
    &&& (forall|id: u64, p: Decimal|
        #[trigger] ladder_has(r.levels, id, p) ==> ladder_has(levels, id, p))
    &&& (forall|id: u64, p: Decimal|
        #[trigger] ladder_has(levels, id, p) ==> ladder_has(r.levels, id, p)
            || r.removed.contains(id))
    &&& (forall|id: u64| #[trigger] ladder_has_id(r.levels, id) ==> !r.removed.contains(id))
    &&& (forall|x1: int, x2: int|
        0 <= x1 < x2 < r.removed.len() ==> r.removed[x1] != r.removed[x2])
    &&& ladder_qty(r.levels) == ladder_qty(levels) - trades_qty(r.trades)
}

/// The quantity one trade between the two orders would move.
pub open spec fn walk_q(taker: Order, maker: Order) -> Decimal {
    Decimal {
        units: (if taker.spec_remaining() <= maker.spec_remaining() {
            taker.spec_remaining()
        } else {
            maker.spec_remaining()
        }) as u128,
    }
}

/// The ladder after its best level's head order is consumed.
pub open spec fn head_consumed(levels: Seq<LevelView>) -> Seq<LevelView> {
    if levels[0].orders.len() == 1 {
        levels.drop_first()
    } else {
        levels.update(
            0,
            LevelView { price: levels[0].price, orders: levels[0].orders.drop_first() },
        )
    }
}

/// Consuming the head of the best level keeps the ladder sound, keeps ids
/// unique, removes the head's id entirely, and takes out its remainder.
#[verifier::rlimit(100)]
#[verifier::spinoff_prover]
pub proof fn lemma_head_consumed_wf(levels: Seq<LevelView>, side: OrderSide)
    requires
        ladder_wf(levels, side),
        ladder_ids_unique(levels),
        levels.len() > 0,
    ensures
        ladder_wf(head_consumed(levels), side),
        ladder_ids_unique(head_consumed(levels)),
        forall|id: u64| #[trigger]
            ladder_has_id(head_consumed(levels), id) ==> id != levels[0].orders[0].id.0,
        ladder_qty(head_consumed(levels)) == ladder_qty(levels) - levels[0].orders[
            0
        ].spec_remaining(),
{
    let maker = levels[0].orders[0];
    assert(level_wf(levels[0], side));
    let dropped = levels[0].orders.len() == 1;
    let levels1 = head_consumed(levels);
    assert forall|i: int| 0 <= i < levels1.len() implies level_wf(
        #[trigger] levels1[i],
        side,
    ) by {
        if dropped {
            assert(levels1[i] == levels[i + 1]);
        } else if i == 0 {
            assert forall|j: int|
                0 <= j < levels1[0].orders.len() implies (#[trigger] levels1[0].orders[j]).wf()
                && levels1[0].orders[j].side == side && levels1[0].orders[j].spec_limit_price()
                == Some(levels1[0].price) && !levels1[0].orders[j].spec_is_closed() by {
                assert(levels1[0].orders[j] == levels[0].orders[j + 1]);
            }
        } else {
            assert(levels1[i] == levels[i]);
        }
    }
    assert forall|i: int, j: int| 0 <= i < j < levels1.len() implies better_price(
        side,
        (#[trigger] levels1[i]).price,
        (#[trigger] levels1[j]).price,
    ) by {
        if dropped {
            assert(levels1[i] == levels[i + 1] && levels1[j] == levels[j + 1]);
            assert(better_price(side, levels[i + 1].price, levels[j + 1].price));
        } else {
            assert(levels1[i].price == levels[i].price);
            assert(levels1[j].price == levels[j].price);
            assert(better_price(side, levels[i].price, levels[j].price));
        }
    }
    assert(ladder_ids_unique(levels1)) by {
        assert forall|i1: int, j1: int, i2: int, j2: int|
            0 <= i1 < levels1.len() && 0 <= j1 < levels1[i1].orders.len() && 0 <= i2
                < levels1.len() && 0 <= j2 < levels1[i2].orders.len() && (#[trigger] levels1[
            i1].orders[j1]).id.0 == (#[trigger] levels1[i2].orders[j2]).id.0 implies i1 == i2
            && j1 == j2 by {
            let ii1: int = if dropped {
                i1 + 1
            } else {
                i1
            };
            let jj1: int = if !dropped && i1 == 0 {
                j1 + 1
            } else {
                j1
            };
            let ii2: int = if dropped {
                i2 + 1
            } else {
                i2
            };
            let jj2: int = if !dropped && i2 == 0 {
                j2 + 1
            } else {
                j2
            };
            assert(levels1[i1].orders[j1] == levels[ii1].orders[jj1]);
            assert(levels1[i2].orders[j2] == levels[ii2].orders[jj2]);
        }
    }
    assert forall|id: u64| #[trigger]
        ladder_has_id(levels1, id) implies id != maker.id.0 by {
        if id == maker.id.0 {
            let (i, j): (int, int) = choose|i: int, j: int|
                0 <= i < levels1.len() && 0 <= j < levels1[i].orders.len() && (#[trigger]
                levels1[i].orders[j]).id.0 == id;
            let ii: int = if dropped {
                i + 1
            } else {
                i
            };
            let jj: int = if !dropped && i == 0 {
                j + 1
            } else {
                j
            };
            assert(levels[ii].orders[jj].id.0 == levels[0].orders[0].id.0);
            assert(ii == 0 && jj == 0);
            assert(false);
        }
    }
    assert(ladder_qty(levels1) == ladder_qty(levels) - maker.spec_remaining()) by {
        if dropped {
            assert(qty_sum(levels[0].orders) == maker.spec_remaining() + qty_sum(
                levels[0].orders.drop_first(),
            ));
            assert(levels[0].orders.drop_first().len() == 0);
        } else {
            assert(levels1.drop_first() =~= levels.drop_first());
            assert(qty_sum(levels1[0].orders) == qty_sum(levels[0].orders)
                - maker.spec_remaining()) by {
                assert(levels1[0].orders =~= levels[0].orders.drop_first());
            }
        }
    }
}

/// One consumed maker composes with the rest of the walk.
#[verifier::rlimit(100)]
#[verifier::spinoff_prover]
pub proof fn lemma_walk_compose_closed(
    taker: Order,
    levels: Seq<LevelView>,
    tid: u64,
    side: OrderSide,
)
    requires
        taker.wf(),
        ladder_wf(levels, side),
        ladder_ids_unique(levels),
        levels.len() > 0,
        !taker.spec_is_closed(),
        crosses(taker, levels[0].price),
        levels[0].orders.len() > 0,
        levels[0].orders[0].spec_fill(walk_q(taker, levels[0].orders[0])).spec_is_closed(),
        walk_props(
            taker.spec_fill(walk_q(taker, levels[0].orders[0])),
            head_consumed(levels),
            (tid + 1) as u64,
            side,
        ),
    ensures
        walk_props(taker, levels, tid, side),
{
    let r = walk(taker, levels, tid);
    let maker = levels[0].orders[0];
    assert(level_wf(levels[0], side));
    let q = walk_q(taker, maker);
    assert(taker.spec_remaining() > 0);
    assert(maker.spec_remaining() > 0);
    assert(q.units > 0);
    let taker1 = taker.spec_fill(q);
    let maker1 = maker.spec_fill(q);
    assert(taker1.wf());
    assert(q.units == maker.spec_remaining());
    let trade = Trade {
        id: crate::trade::TradeId(tid),
        taker: taker.id,
        maker: maker.id,
        price: levels[0].price,
        quantity: q,
    };
    let dropped = levels[0].orders.len() == 1;
    let levels1 = head_consumed(levels);
    lemma_head_consumed_wf(levels, side);
    let r1 = walk(taker1, levels1, (tid + 1) as u64);
    assert(r == (WalkResult {
        taker: r1.taker,
        levels: r1.levels,
        trades: seq![trade] + r1.trades,
        removed: seq![maker.id.0] + r1.removed,
    }));
    assert(trades_qty(r.trades) == q.units + trades_qty(r1.trades)) by {
        assert(r.trades[0] == trade);
        assert(r.trades.drop_first() =~= r1.trades);
    }
    let d1 = levels1.len() - r1.levels.len();
    let d = levels.len() - r.levels.len();
    let dd: int = if dropped {
        1int
    } else {
        0int
    };
    assert(d == d1 + dd);
    // Level structure carries over with the index shift.
    assert forall|i: int| 1 <= i < r.levels.len() implies r.levels[i] == levels[d
        + i] by {
        assert(r.levels[i] == levels1[d1 + i]);
    }
    if r.levels.len() > 0 {
        let e = levels[d].orders.len() - r.levels[0].orders.len();
        let e1 = levels1[d1].orders.len() - r1.levels[0].orders.len();
        if dropped || d1 > 0 {
            assert(levels1[d1] == levels[d]);
            assert(e == e1);
        } else {
            assert(levels1[0].orders =~= levels[0].orders.drop_first());
            assert(e == e1 + 1);
            assert forall|j: int|
                1 <= j < r.levels[0].orders.len() implies r.levels[0].orders[j]
                == levels[d].orders[e + j] by {
                assert(r.levels[0].orders[j] == levels1[0].orders[e1 + j]);
                assert(levels1[0].orders[e1 + j] == levels[0].orders[e1 + 1 + j]);
            }
            assert(same_core(r.levels[0].orders[0], levels1[0].orders[e1]));
            assert(levels1[0].orders[e1] == levels[0].orders[e]);
        }
    }
    // Trades: the head trade, then the tail shifted by one.
    assert forall|x: int|
        0 <= x < r.trades.len() implies (#[trigger] r.trades[x]).taker == taker.id
        && r.trades[x].quantity.units > 0 by {
        if x > 0 {
            assert(r.trades[x] == r1.trades[x - 1]);
        }
    }
    if tid + r.trades.len() <= u64::MAX {
        assert forall|x: int|
            0 <= x < r.trades.len() implies (#[trigger] r.trades[x]).id.0 == tid
            + x by {
            if x > 0 {
                assert(r.trades[x] == r1.trades[x - 1]);
                assert(r1.trades[x - 1].id.0 == tid + 1 + (x - 1));
            }
        }
    }
    // Trade prices never improve along the walk.
    assert forall|x: int, y: int|
        0 <= x < y < r.trades.len() implies !better_price(
            side,
            (#[trigger] r.trades[y]).price,
            (#[trigger] r.trades[x]).price,
        ) by {
        assert(r.trades[y] == r1.trades[y - 1]);
        if x > 0 {
            assert(r.trades[x] == r1.trades[x - 1]);
        } else {
            assert(r.trades[0].price == levels[0].price);
            assert(r1.trades.len() > 0);
            assert(levels1.len() > 0);
            assert(r1.trades[0].price == levels1[0].price);
            assert(!better_price(side, levels1[0].price, levels[0].price)) by {
                if dropped {
                    assert(levels1[0] == levels[1]);
                    assert(better_price(side, levels[0].price, levels[1].price));
                } else {
                    assert(levels1[0].price == levels[0].price);
                }
            }
            assert(!better_price(side, r1.trades[y - 1].price, r1.trades[0].price));
        }
    }
    // Removed ids: the maker, then the tail's, all distinct and all
    // from the old ladder.
    assert forall|x: int|
        0 <= x < r.removed.len() implies ladder_has_id(
        levels,
        #[trigger] r.removed[x],
    ) by {
        if x == 0 {
            assert(levels[0].orders[0].id.0 == maker.id.0);
            assert(ladder_has_id(levels, maker.id.0));
        } else {
            assert(r.removed[x] == r1.removed[x - 1]);
            assert(ladder_has_id(levels1, r1.removed[x - 1]));
            let (i, j): (int, int) = choose|i: int, j: int|
                0 <= i < levels1.len() && 0 <= j < levels1[i].orders.len() && (
                #[trigger] levels1[i].orders[j]).id.0 == r1.removed[x - 1];
            let ii: int = if dropped {
                i + 1
            } else {
                i
            };
            let jj: int = if !dropped && i == 0 {
                j + 1
            } else {
                j
            };
            assert(levels[ii].orders[jj].id.0 == r.removed[x]);
            assert(ladder_has_id(levels, r.removed[x]));
        }
    }
    assert forall|x: int|
        0 <= x < r.removed.len() implies (#[trigger] r.trades[x]).maker.0
        == r.removed[x] by {
        if x > 0 {
            assert(r.trades[x] == r1.trades[x - 1]);
            assert(r.removed[x] == r1.removed[x - 1]);
        }
    }
    assert forall|x1: int, x2: int|
        0 <= x1 < x2 < r.removed.len() implies r.removed[x1] != r.removed[x2] by {
        if x1 > 0 {
            assert(r.removed[x1] == r1.removed[x1 - 1]);
            assert(r.removed[x2] == r1.removed[x2 - 1]);
        } else {
            assert(r.removed[x2] == r1.removed[x2 - 1]);
            assert(ladder_has_id(levels1, r1.removed[x2 - 1]));
        }
    }
    // Ladder membership: forward, backward, and exclusion.
    assert forall|id: u64, p: Decimal| #[trigger]
        ladder_has(r.levels, id, p) implies ladder_has(levels, id, p) by {
        assert(ladder_has(levels1, id, p));
        let (i, j): (int, int) = choose|i: int, j: int|
            0 <= i < levels1.len() && 0 <= j < levels1[i].orders.len() && levels1[
            i].price == p && (#[trigger] levels1[i].orders[j]).id.0 == id;
        let ii: int = if dropped {
            i + 1
        } else {
            i
        };
        let jj: int = if !dropped && i == 0 {
            j + 1
        } else {
            j
        };
        assert(levels[ii].price == p && levels[ii].orders[jj].id.0 == id);
        assert(ladder_has(levels, id, p));
    }
    assert forall|id: u64, p: Decimal| #[trigger]
        ladder_has(levels, id, p) implies ladder_has(r.levels, id, p)
        || r.removed.contains(id) by {
        let (i, j): (int, int) = choose|i: int, j: int|
            0 <= i < levels.len() && 0 <= j < levels[i].orders.len() && levels[i].price
                == p && (#[trigger] levels[i].orders[j]).id.0 == id;
        if i == 0 && j == 0 {
            assert(r.removed[0] == id);
            assert(r.removed.contains(id));
        } else {
            let ii: int = if dropped {
                i - 1
            } else {
                i
            };
            let jj: int = if !dropped && i == 0 {
                j - 1
            } else {
                j
            };
            assert(levels1[ii].price == p && levels1[ii].orders[jj].id.0 == id);
            assert(ladder_has(levels1, id, p));
            if ladder_has(r.levels, id, p) {
            } else {
                assert(r1.removed.contains(id));
                let x = choose|x: int|
                    0 <= x < r1.removed.len() && r1.removed[x] == id;
                assert(r.removed[x + 1] == id);
                assert(r.removed.contains(id));
            }
        }
    }
    assert forall|id: u64| #[trigger]
        ladder_has_id(r.levels, id) implies !r.removed.contains(id) by {
        assert(ladder_has_id(levels1, id));
        assert(id != maker.id.0);
        assert(!r1.removed.contains(id));
        if r.removed.contains(id) {
            let x = choose|x: int| 0 <= x < r.removed.len() && r.removed[x] == id;
            assert(x > 0);
            assert(r1.removed[x - 1] == id);
            assert(r1.removed.contains(id));
            assert(false);
        }
    }
    // Quantities: one maker's remainder left the ladder.
    assert(ladder_qty(levels1) == ladder_qty(levels) - q.units) by {
        if dropped {
            assert(qty_sum(levels[0].orders) == maker.spec_remaining() + qty_sum(
                levels[0].orders.drop_first(),
            ));
            assert(levels[0].orders.drop_first().len() == 0);
        } else {
            assert(levels1.drop_first() =~= levels.drop_first());
            assert(qty_sum(levels1[0].orders) == qty_sum(levels[0].orders)
                - maker.spec_remaining()) by {
                assert(levels1[0].orders =~= levels[0].orders.drop_first());
            }
        }
    }
}

/// A maker left open ends the walk with the taker spent.
#[verifier::rlimit(100)]
#[verifier::spinoff_prover]
pub proof fn lemma_walk_compose_open(
    taker: Order,
    levels: Seq<LevelView>,
    tid: u64,
    side: OrderSide,
)
    requires
        taker.wf(),
        ladder_wf(levels, side),
        ladder_ids_unique(levels),
        levels.len() > 0,
        !taker.spec_is_closed(),
        crosses(taker, levels[0].price),
        levels[0].orders.len() > 0,
        !levels[0].orders[0].spec_fill(walk_q(taker, levels[0].orders[0])).spec_is_closed(),
    ensures
        walk_props(taker, levels, tid, side),
{
    let r = walk(taker, levels, tid);
    let maker = levels[0].orders[0];
    assert(level_wf(levels[0], side));
    let q = walk_q(taker, maker);
    assert(taker.spec_remaining() > 0);
    assert(maker.spec_remaining() > 0);
    assert(q.units > 0);
    let taker1 = taker.spec_fill(q);
    let maker1 = maker.spec_fill(q);
    assert(taker1.wf());
    let trade = Trade {
        id: crate::trade::TradeId(tid),
        taker: taker.id,
        maker: maker.id,
        price: levels[0].price,
        quantity: q,
    };
    // The maker stays open: the taker was spent on this one trade.
    assert(q.units == taker.spec_remaining());
    assert(taker1.spec_is_closed());
    assert(maker1.wf() && !maker1.spec_is_closed()) by {
        assert(q.units < maker.spec_remaining());
    }
    let levels1 = levels.update(
        0,
        LevelView { price: levels[0].price, orders: levels[0].orders.update(0, maker1) },
    );
    assert(r == (WalkResult {
        taker: taker1,
        levels: levels1,
        trades: seq![trade],
        removed: Seq::<u64>::empty(),
    }));
    assert(trades_qty(r.trades) == q.units) by {
        assert(r.trades.len() == 1);
        assert(r.trades[0] == trade);
        assert(trades_qty(r.trades) == trade.quantity.units + trades_qty(
            r.trades.drop_first(),
        ));
        assert(r.trades.drop_first() =~= Seq::<Trade>::empty());
        assert(trades_qty(Seq::<Trade>::empty()) == 0);
    }
    assert forall|i: int| 0 <= i < levels1.len() implies level_wf(
        #[trigger] levels1[i],
        side,
    ) by {
        if i == 0 {
            assert forall|j: int|
                0 <= j < levels1[0].orders.len() implies (#[trigger] levels1[0].orders[
            j]).wf() && levels1[0].orders[j].side == side && levels1[0].orders[
            j].spec_limit_price() == Some(levels1[0].price) && !levels1[0].orders[
            j].spec_is_closed() by {
                if j > 0 {
                    assert(levels1[0].orders[j] == levels[0].orders[j]);
                }
            }
        } else {
            assert(levels1[i] == levels[i]);
        }
    }
    assert forall|i: int, j: int| 0 <= i < j < levels1.len() implies better_price(
        side,
        (#[trigger] levels1[i]).price,
        (#[trigger] levels1[j]).price,
    ) by {
        assert(levels1[i].price == levels[i].price);
        assert(levels1[j].price == levels[j].price);
        assert(better_price(side, levels[i].price, levels[j].price));
    }
    assert(ladder_ids_unique(levels1)) by {
        assert forall|i1: int, j1: int, i2: int, j2: int|
            0 <= i1 < levels1.len() && 0 <= j1 < levels1[i1].orders.len() && 0 <= i2
                < levels1.len() && 0 <= j2 < levels1[i2].orders.len()
                && (#[trigger] levels1[i1].orders[j1]).id.0 == (#[trigger] levels1[
            i2].orders[j2]).id.0 implies i1 == i2 && j1 == j2 by {
            assert(levels1[i1].orders[j1].id == levels[i1].orders[j1].id);
            assert(levels1[i2].orders[j2].id == levels[i2].orders[j2].id);
        }
    }
    let d = levels.len() - r.levels.len();
    assert(d == 0);
    if r.levels.len() > 0 {
        let e = levels[0].orders.len() - r.levels[0].orders.len();
        assert(e == 0);
        assert(same_core(r.levels[0].orders[0], levels[0].orders[0]));
        assert forall|j: int|
            1 <= j < r.levels[0].orders.len() implies r.levels[0].orders[j]
            == levels[0].orders[j] by {}
    }
    assert forall|id: u64, p: Decimal| #[trigger]
        ladder_has(r.levels, id, p) implies ladder_has(levels, id, p) by {
        let (i, j): (int, int) = choose|i: int, j: int|
            0 <= i < levels1.len() && 0 <= j < levels1[i].orders.len() && levels1[
            i].price == p && (#[trigger] levels1[i].orders[j]).id.0 == id;
        assert(levels[i].price == p && levels[i].orders[j].id.0 == id);
        assert(ladder_has(levels, id, p));
    }
    assert forall|id: u64, p: Decimal| #[trigger]
        ladder_has(levels, id, p) implies ladder_has(r.levels, id, p)
        || r.removed.contains(id) by {
        let (i, j): (int, int) = choose|i: int, j: int|
            0 <= i < levels.len() && 0 <= j < levels[i].orders.len() && levels[i].price
                == p && (#[trigger] levels[i].orders[j]).id.0 == id;
        assert(levels1[i].price == p && levels1[i].orders[j].id.0 == id);
        assert(ladder_has(levels1, id, p));
    }
    assert(ladder_qty(levels1) == ladder_qty(levels) - q.units) by {
        lemma_qty_sum_update(levels[0].orders, 0, maker1);
        assert(levels1.drop_first() =~= levels.drop_first());
    }
}

/// What one match walk does to a sound ladder: the orders it consumes, the
/// trades it strikes, and the shape of what is left.
pub proof fn lemma_walk_props(taker: Order, levels: Seq<LevelView>, tid: u64, side: OrderSide)
    requires
        taker.wf(),
        ladder_wf(levels, side),
        ladder_ids_unique(levels),
    ensures
        walk_props(taker, levels, tid, side),
    decreases levels.len(), first_level_len(levels),
{
    let r = walk(taker, levels, tid);
    if levels.len() == 0 || taker.spec_is_closed() || !crosses(taker, levels[0].price)
        || levels[0].orders.len() == 0 {
        assert(r.levels == levels);
        if r.levels.len() > 0 {
            assert(level_wf(levels[0], side));
            let e = levels[0].orders.len() - r.levels[0].orders.len();
            assert(e == 0);
            assert(same_core(r.levels[0].orders[0], levels[0].orders[0]));
        }
        assert(trades_qty(r.trades) == 0);
    } else {
        let maker = levels[0].orders[0];
        assert(level_wf(levels[0], side));
        let q = walk_q(taker, maker);
        assert(taker.spec_remaining() > 0);
        assert(maker.spec_remaining() > 0);
        assert(q.units > 0);
        let taker1 = taker.spec_fill(q);
        let maker1 = maker.spec_fill(q);
        assert(taker1.wf());
        if maker1.spec_is_closed() {
            lemma_head_consumed_wf(levels, side);
            lemma_walk_props(taker1, head_consumed(levels), (tid + 1) as u64, side);
            lemma_walk_compose_closed(taker, levels, tid, side);
        } else {
            lemma_walk_compose_open(taker, levels, tid, side);
        }
    }
}

/// What `remove_ids` keeps: exactly the entries whose id is not listed,
/// with their values.
pub proof fn lemma_remove_ids_props(m: Map<u64, OrderLocation>, ids: Seq<u64>)
    ensures
        forall|id: u64|
            #[trigger] remove_ids(m, ids).contains_key(id) <==> (m.contains_key(id)
                && !ids.contains(id)),
        forall|id: u64|
            #[trigger] remove_ids(m, ids).contains_key(id) ==> remove_ids(m, ids)[id] == m[id],
        m.dom().finite() ==> remove_ids(m, ids).dom().finite(),
    decreases ids.len(),
{
    if ids.len() > 0 {
        lemma_remove_ids_props(m, ids.drop_last());
        assert forall|id: u64|
            #[trigger] remove_ids(m, ids).contains_key(id) <==> (m.contains_key(id)
                && !ids.contains(id)) by {
            assert(remove_ids(m, ids) == remove_ids(m, ids.drop_last()).remove(ids.last()));
            if ids.contains(id) {
                let x = choose|x: int| 0 <= x < ids.len() && ids[x] == id;
                if x < ids.len() - 1 {
                    assert(ids.drop_last()[x] == id);
                    assert(ids.drop_last().contains(id));
                }
            }
            if ids.drop_last().contains(id) {
                let x = choose|x: int|
                    0 <= x < ids.drop_last().len() && ids.drop_last()[x] == id;
                assert(ids[x] == id);
                assert(ids.contains(id));
            }
            if id == ids.last() {
                assert(ids.contains(id));
            }
        }
        assert forall|id: u64| #[trigger]
            remove_ids(m, ids).contains_key(id) implies remove_ids(m, ids)[id] == m[id] by {
            assert(remove_ids(m, ids) == remove_ids(m, ids.drop_last()).remove(ids.last()));
            assert(remove_ids(m, ids.drop_last()).contains_key(id));
            assert(remove_ids(m, ids)[id] == remove_ids(m, ids.drop_last())[id]);
        }
    } else {
        assert(forall|id: u64| !ids.contains(id));
    }
}

/// Within one ladder of a well-formed book, ids are unique.
pub proof fn lemma_book_ladder_unique(b: BookView, side: OrderSide)
    requires
        b.inv_resting_orders(),
        b.inv_index_complete(),
        b.inv_ids_unique(),
    ensures
        ladder_ids_unique(b.side_levels(side)),
{
    let levels = b.side_levels(side);
    assert forall|i1: int, j1: int, i2: int, j2: int|
        0 <= i1 < levels.len() && 0 <= j1 < levels[i1].orders.len() && 0 <= i2 < levels.len()
            && 0 <= j2 < levels[i2].orders.len() && (#[trigger] levels[i1].orders[j1]).id.0
            == (#[trigger] levels[i2].orders[j2]).id.0 implies i1 == i2 && j1 == j2 by {
        lemma_book_id_unique(b, side, i1, j1, side, i2, j2);
    }
}

/// An id resting at some level of a sound ladder is found by the scans.
pub proof fn lemma_has_to_found(levels: Seq<LevelView>, side: OrderSide, id: u64, p: Decimal)
    requires
        ladder_wf(levels, side),
        ladder_has(levels, id, p),
    ensures
        level_index_at(levels, p) < levels.len(),
        levels[level_index_at(levels, p)].price == p,
        index_of_id(
            levels[level_index_at(levels, p)].orders,
            id,
        ) < levels[level_index_at(levels, p)].orders.len(),
{
    let (i, j): (int, int) = choose|i: int, j: int|
        0 <= i < levels.len() && 0 <= j < levels[i].orders.len() && levels[i].price == p && (
        #[trigger] levels[i].orders[j]).id.0 == id;
    lemma_level_index_at_props(levels, p);
    let k = level_index_at(levels, p);
    assert(k < levels.len());
    if k != i {
        if k < i {
            assert(better_price(side, levels[k].price, levels[i].price));
        } else {
            assert(better_price(side, levels[i].price, levels[k].price));
        }
        assert(false);
    }
    lemma_index_of_id_props(levels[k].orders, id);
}

/// How resting an order rearranges a ladder: every old order keeps its
/// place and price, the new order stands at its price, and the best price
/// is the old best or the new price.
pub proof fn lemma_ladder_insert_structure(
    levels: Seq<LevelView>,
    side: OrderSide,
    o: Order,
    price: Decimal,
)
    ensures
        ({
            let r = ladder_insert(levels, side, o, price);
            &&& (forall|i: int, j: int|
                0 <= i < r.len() && 0 <= j < r[i].orders.len() ==> ((#[trigger] r[i].orders[j])
                    == o && r[i].price == price) || exists|io: int, jo: int|
                    0 <= io < levels.len() && 0 <= jo < levels[io].orders.len() && levels[
                    io].price == r[i].price && (#[trigger] levels[io].orders[jo]) == r[
                    i].orders[j])
            &&& (forall|id: u64, p2: Decimal|
                #[trigger] ladder_has(levels, id, p2) ==> ladder_has(r, id, p2))
            &&& ladder_has(r, o.id.0, price)
            &&& r.len() > 0
            &&& (r[0].price == price || (levels.len() > 0 && r[0].price == levels[0].price))
        }),
    decreases levels.len(),
{
    let r = ladder_insert(levels, side, o, price);
    if levels.len() == 0 {
        assert(r[0].orders[0] == o);
        assert(ladder_has(r, o.id.0, price));
    } else if better_price(side, price, levels[0].price) {
        assert(r[0].orders[0] == o);
        assert(ladder_has(r, o.id.0, price));
        assert forall|i: int, j: int|
            0 <= i < r.len() && 0 <= j < r[i].orders.len() implies ((#[trigger] r[i].orders[j])
            == o && r[i].price == price) || exists|io: int, jo: int|
            0 <= io < levels.len() && 0 <= jo < levels[io].orders.len() && levels[io].price
            == r[i].price && (#[trigger] levels[io].orders[jo]) == r[i].orders[j] by {
            if i > 0 {
                assert(r[i] == levels[i - 1]);
                assert(levels[i - 1].orders[j] == r[i].orders[j]);
            }
        }
        assert forall|id: u64, p2: Decimal| #[trigger]
            ladder_has(levels, id, p2) implies ladder_has(r, id, p2) by {
            let (io, jo): (int, int) = choose|io: int, jo: int|
                0 <= io < levels.len() && 0 <= jo < levels[io].orders.len() && levels[io].price
                    == p2 && (#[trigger] levels[io].orders[jo]).id.0 == id;
            assert(r[io + 1].price == p2 && r[io + 1].orders[jo].id.0 == id);
        }
    } else if price == levels[0].price {
        assert(r[0].orders[r[0].orders.len() - 1] == o);
        assert(ladder_has(r, o.id.0, price));
        assert forall|i: int, j: int|
            0 <= i < r.len() && 0 <= j < r[i].orders.len() implies ((#[trigger] r[i].orders[j])
            == o && r[i].price == price) || exists|io: int, jo: int|
            0 <= io < levels.len() && 0 <= jo < levels[io].orders.len() && levels[io].price
            == r[i].price && (#[trigger] levels[io].orders[jo]) == r[i].orders[j] by {
            if i == 0 {
                if j < levels[0].orders.len() {
                    assert(levels[0].orders[j] == r[0].orders[j]);
                } else {
                    assert(r[0].orders[j] == o);
                }
            } else {
                assert(r[i] == levels[i]);
                assert(levels[i].orders[j] == r[i].orders[j]);
            }
        }
        assert forall|id: u64, p2: Decimal| #[trigger]
            ladder_has(levels, id, p2) implies ladder_has(r, id, p2) by {
            let (io, jo): (int, int) = choose|io: int, jo: int|
                0 <= io < levels.len() && 0 <= jo < levels[io].orders.len() && levels[io].price
                    == p2 && (#[trigger] levels[io].orders[jo]).id.0 == id;
            assert(r[io].price == p2 && r[io].orders[jo].id.0 == id);
        }
    } else {
        lemma_ladder_insert_structure(levels.drop_first(), side, o, price);
        let rr = ladder_insert(levels.drop_first(), side, o, price);
        assert(r =~= seq![levels[0]] + rr);
        assert(ladder_has(rr, o.id.0, price));
        assert(ladder_has(r, o.id.0, price)) by {
            let (i, j): (int, int) = choose|i: int, j: int|
                0 <= i < rr.len() && 0 <= j < rr[i].orders.len() && rr[i].price == price && (
                #[trigger] rr[i].orders[j]).id.0 == o.id.0;
            assert(r[i + 1].price == price && r[i + 1].orders[j].id.0 == o.id.0);
        }
        assert forall|i: int, j: int|
            0 <= i < r.len() && 0 <= j < r[i].orders.len() implies ((#[trigger] r[i].orders[j])
            == o && r[i].price == price) || exists|io: int, jo: int|
            0 <= io < levels.len() && 0 <= jo < levels[io].orders.len() && levels[io].price
            == r[i].price && (#[trigger] levels[io].orders[jo]) == r[i].orders[j] by {
            if i == 0 {
                assert(levels[0].orders[j] == r[0].orders[j]);
            } else {
                assert(r[i] == rr[i - 1]);
                if !(r[i].orders[j] == o && r[i].price == price) {
                    let (io, jo): (int, int) = choose|io: int, jo: int|
                        0 <= io < levels.drop_first().len() && 0 <= jo < levels.drop_first()[
                        io].orders.len() && levels.drop_first()[io].price == rr[i - 1].price
                            && (#[trigger] levels.drop_first()[io].orders[jo]) == rr[i
                            - 1].orders[j];
                    assert(levels[io + 1].price == r[i].price);
                    assert(levels[io + 1].orders[jo] == r[i].orders[j]);
                }
            }
        }
        assert forall|id: u64, p2: Decimal| #[trigger]
            ladder_has(levels, id, p2) implies ladder_has(r, id, p2) by {
            let (io, jo): (int, int) = choose|io: int, jo: int|
                0 <= io < levels.len() && 0 <= jo < levels[io].orders.len() && levels[io].price
                    == p2 && (#[trigger] levels[io].orders[jo]).id.0 == id;
            if io == 0 {
                assert(r[0].price == p2 && r[0].orders[jo].id.0 == id);
            } else {
                assert(ladder_has(levels.drop_first(), id, p2)) by {
                    assert(levels.drop_first()[io - 1].price == p2);
                    assert(levels.drop_first()[io - 1].orders[jo].id.0 == id);
                }
                let (i2, j2): (int, int) = choose|i2: int, j2: int|
                    0 <= i2 < rr.len() && 0 <= j2 < rr[i2].orders.len() && rr[i2].price == p2
                        && (#[trigger] rr[i2].orders[j2]).id.0 == id;
                assert(r[i2 + 1].price == p2 && r[i2 + 1].orders[j2].id.0 == id);
            }
        }
    }
}

/// After one order is rested, no level of the ladder holds two orders with
/// one id.
pub proof fn lemma_insert_orders_unique(
    own: Seq<LevelView>,
    own_side: OrderSide,
    taker: Order,
    price: Decimal,
)
    requires
        ladder_wf(own, own_side),
        ladder_ids_unique(own),
        forall|io: int, jo: int|
            0 <= io < own.len() && 0 <= jo < own[io].orders.len() ==> (#[trigger] own[
            io].orders[jo]).id.0 != taker.id.0,
    ensures
        forall|i: int, j1: int, j2: int|
            0 <= i < ladder_insert(own, own_side, taker, price).len() && 0 <= j1
                < ladder_insert(own, own_side, taker, price)[i].orders.len() && 0 <= j2
                < ladder_insert(own, own_side, taker, price)[i].orders.len() && (
            #[trigger] ladder_insert(own, own_side, taker, price)[i].orders[j1]).id.0 == (
            #[trigger] ladder_insert(own, own_side, taker, price)[i].orders[j2]).id.0 ==> j1
                == j2,
    decreases own.len(),
{
    let own1 = ladder_insert(own, own_side, taker, price);
    if own.len() == 0 || better_price(own_side, price, own[0].price) {
        assert forall|i: int, j1: int, j2: int|
            0 <= i < own1.len() && 0 <= j1 < own1[i].orders.len() && 0 <= j2 < own1[
            i].orders.len() && (#[trigger] own1[i].orders[j1]).id.0 == (#[trigger] own1[
        i].orders[j2]).id.0 implies j1 == j2 by {
            if i == 0 {
                assert(own1[0].orders.len() == 1);
            } else {
                assert(own1[i] == own[i - 1]);
            }
        }
    } else if price == own[0].price {
        assert forall|i: int, j1: int, j2: int|
            0 <= i < own1.len() && 0 <= j1 < own1[i].orders.len() && 0 <= j2 < own1[
            i].orders.len() && (#[trigger] own1[i].orders[j1]).id.0 == (#[trigger] own1[
        i].orders[j2]).id.0 implies j1 == j2 by {
            if i == 0 {
                let n = own[0].orders.len();
                if j1 < n {
                    assert(own1[0].orders[j1] == own[0].orders[j1]);
                } else {
                    assert(own1[0].orders[j1] == taker);
                }
                if j2 < n {
                    assert(own1[0].orders[j2] == own[0].orders[j2]);
                } else {
                    assert(own1[0].orders[j2] == taker);
                }
                if j1 < n && j2 < n {
                } else if j1 < n {
                    assert(own[0].orders[j1].id.0 == taker.id.0);
                    assert(false);
                } else if j2 < n {
                    assert(own[0].orders[j2].id.0 == taker.id.0);
                    assert(false);
                }
            } else {
                assert(own1[i] == own[i]);
            }
        }
    } else {
        let rest = own.drop_first();
        assert forall|io: int, jo: int|
            0 <= io < rest.len() && 0 <= jo < rest[io].orders.len() implies (#[trigger] rest[
        io].orders[jo]).id.0 != taker.id.0 by {
            assert(rest[io].orders[jo] == own[io + 1].orders[jo]);
        }
        assert(ladder_ids_unique(rest)) by {
            assert forall|a1: int, b1x: int, a2: int, b2x: int|
                0 <= a1 < rest.len() && 0 <= b1x < rest[a1].orders.len() && 0 <= a2
                    < rest.len() && 0 <= b2x < rest[a2].orders.len() && (#[trigger] rest[
            a1].orders[b1x]).id.0 == (#[trigger] rest[a2].orders[b2x]).id.0 implies a1 == a2
                && b1x == b2x by {
                assert(rest[a1].orders[b1x] == own[a1 + 1].orders[b1x]);
                assert(rest[a2].orders[b2x] == own[a2 + 1].orders[b2x]);
            }
        }
        lemma_insert_orders_unique(rest, own_side, taker, price);
        let rr = ladder_insert(rest, own_side, taker, price);
        assert forall|i: int, j1: int, j2: int|
            0 <= i < own1.len() && 0 <= j1 < own1[i].orders.len() && 0 <= j2 < own1[
            i].orders.len() && (#[trigger] own1[i].orders[j1]).id.0 == (#[trigger] own1[
        i].orders[j2]).id.0 implies j1 == j2 by {
            if i == 0 {
                assert(own1[0] == own[0]);
            } else {
                assert(own1[i] == rr[i - 1]);
            }
        }
    }
}

/// Positions of a ladder with one order rested map back injectively.
#[verifier::rlimit(50)]
#[verifier::spinoff_prover]
pub proof fn lemma_ladder_insert_unique_helper(
    b: BookView,
    own: Seq<LevelView>,
    own_side: OrderSide,
    taker: Order,
    price: Decimal,
    i1: int,
    j1: int,
    i2: int,
    j2: int,
)
    requires
        b.wf(),
        own == b.side_levels(own_side),
        !b.index.contains_key(taker.id.0),
        taker.wf(),
        !taker.spec_is_closed(),
        taker.side == own_side,
        taker.spec_limit_price() == Some(price),
        ({
            let own1 = ladder_insert(own, own_side, taker, price);
            &&& 0 <= i1 < own1.len()
            &&& 0 <= j1 < own1[i1].orders.len()
            &&& 0 <= i2 < own1.len()
            &&& 0 <= j2 < own1[i2].orders.len()
            &&& own1[i1].orders[j1].id.0 == own1[i2].orders[j2].id.0
        }),
    ensures
        i1 == i2 && j1 == j2,
{
    let own1 = ladder_insert(own, own_side, taker, price);
    lemma_ladder_insert_wf(own, own_side, taker, price);
    lemma_ladder_insert_structure(own, own_side, taker, price);
    lemma_book_ladder_unique(b, own_side);
    let o1 = own1[i1].orders[j1];
    let o2 = own1[i2].orders[j2];
    assert forall|i: int, j: int|
        0 <= i < own.len() && 0 <= j < own[i].orders.len() implies (#[trigger] own[i].orders[
    j]).id.0 != taker.id.0 by {
        assert(b.index.contains_key(own[i].orders[j].id.0));
    }
    if o1 == taker && own1[i1].price == price {
        if o2 == taker && own1[i2].price == price {
            if i1 != i2 {
                if i1 < i2 {
                    assert(better_price(own_side, own1[i1].price, own1[i2].price));
                } else {
                    assert(better_price(own_side, own1[i2].price, own1[i1].price));
                }
                assert(false);
            }
            if j1 != j2 {
                lemma_insert_orders_unique(own, own_side, taker, price);
                assert(false);
            }
        } else {
            let (io, jo): (int, int) = choose|io: int, jo: int|
                0 <= io < own.len() && 0 <= jo < own[io].orders.len() && own[io].price == own1[
                i2].price && (#[trigger] own[io].orders[jo]) == own1[i2].orders[j2];
            assert(own[io].orders[jo].id.0 == taker.id.0);
            assert(false);
        }
    } else {
        let (io1, jo1): (int, int) = choose|io: int, jo: int|
            0 <= io < own.len() && 0 <= jo < own[io].orders.len() && own[io].price == own1[
            i1].price && (#[trigger] own[io].orders[jo]) == own1[i1].orders[j1];
        if o2 == taker && own1[i2].price == price {
            assert(own[io1].orders[jo1].id.0 == taker.id.0);
            assert(false);
        } else {
            let (io2, jo2): (int, int) = choose|io: int, jo: int|
                0 <= io < own.len() && 0 <= jo < own[io].orders.len() && own[io].price == own1[
                i2].price && (#[trigger] own[io].orders[jo]) == own1[i2].orders[j2];
            lemma_book_id_unique(b, own_side, io1, jo1, own_side, io2, jo2);
            assert(own1[i1].price == own1[i2].price);
            if i1 != i2 {
                if i1 < i2 {
                    assert(better_price(own_side, own1[i1].price, own1[i2].price));
                } else {
                    assert(better_price(own_side, own1[i2].price, own1[i1].price));
                }
                assert(false);
            }
            if j1 != j2 {
                lemma_insert_orders_unique(own, own_side, taker, price);
                assert(false);
            }
        }
    }
}

/// Whether a submission passes its pre-match rules and reaches the walk.
pub open spec fn submit_acts(b: BookView, order: Order) -> bool {
    &&& !b.index.contains_key(order.id.0)
    &&& !post_only_blocked(order, b.side_levels(order.side.spec_opposite()))
    &&& !(order.spec_is_fill_or_kill() && !fok_feasible(
        order,
        b.side_levels(order.side.spec_opposite()),
    ))
}

/// The book right after the match walk, before any remainder rests.
pub open spec fn submit_mid(b: BookView, order: Order) -> BookView {
    let opp_side = order.side.spec_opposite();
    let w = walk(order, b.side_levels(opp_side), b.next_trade_id);
    BookView {
        index: remove_ids(b.index, w.removed),
        trades: b.trades + w.trades,
        next_trade_id: (b.next_trade_id + w.trades.len()) as u64,
        ..b.with_side(opp_side, w.levels)
    }
}

/// Whether the walked order rests afterwards.
pub open spec fn submit_rests(b: BookView, order: Order) -> bool {
    let w = walk(order, b.side_levels(order.side.spec_opposite()), b.next_trade_id);
    &&& !w.taker.spec_is_immediate_or_cancel()
    &&& !w.taker.spec_is_closed()
    &&& w.taker.spec_is_bookable()
}

/// After the walk, every order still queued on either side keeps its index
/// entry, and none of them carries the incoming order's id.
#[verifier::rlimit(50)]
#[verifier::spinoff_prover]
pub proof fn lemma_submit_mid_entries(b: BookView, order: Order)
    requires
        b.wf(),
        order.wf(),
        submit_acts(b, order),
    ensures
        ({
            let opp_side = order.side.spec_opposite();
            let opp = b.side_levels(opp_side);
            let own = b.side_levels(order.side);
            let w = walk(order, opp, b.next_trade_id);
            let index1 = submit_mid(b, order).index;
            &&& (forall|i: int, j: int|
                0 <= i < own.len() && 0 <= j < own[i].orders.len() ==> {
                    &&& index1.contains_key((#[trigger] own[i].orders[j]).id.0)
                    &&& index1[own[i].orders[j].id.0] == b.index[own[i].orders[j].id.0]
                    &&& own[i].orders[j].id.0 != order.id.0
                })
            &&& (forall|i: int, j: int|
                0 <= i < w.levels.len() && 0 <= j < w.levels[i].orders.len() ==> {
                    &&& index1.contains_key((#[trigger] w.levels[i].orders[j]).id.0)
                    &&& index1[w.levels[i].orders[j].id.0] == (OrderLocation {
                        side: opp_side,
                        price: w.levels[i].price,
                    })
                    &&& w.levels[i].orders[j].id.0 != order.id.0
                })
        }),
{
    let opp_side = order.side.spec_opposite();
    let own_side = order.side;
    let opp = b.side_levels(opp_side);
    let own = b.side_levels(own_side);
    lemma_book_ladder_unique(b, opp_side);
    lemma_walk_props(order, opp, b.next_trade_id, opp_side);
    let w = walk(order, opp, b.next_trade_id);
    let d = opp.len() - w.levels.len();
    lemma_remove_ids_props(b.index, w.removed);
    let index1 = submit_mid(b, order).index;
    assert(index1 == remove_ids(b.index, w.removed));
    // No removed id rests on the taker's own side, and none is the
    // incoming order's.
    assert forall|x: int|
        0 <= x < w.removed.len() implies !ladder_has_id(own, #[trigger] w.removed[x])
        && w.removed[x] != order.id.0 by {
        assert(ladder_has_id(opp, w.removed[x]));
        let (io, jo): (int, int) = choose|io: int, jo: int|
            0 <= io < opp.len() && 0 <= jo < opp[io].orders.len() && (#[trigger] opp[
            io].orders[jo]).id.0 == w.removed[x];
        if ladder_has_id(own, w.removed[x]) {
            let (i2, j2): (int, int) = choose|i2: int, j2: int|
                0 <= i2 < own.len() && 0 <= j2 < own[i2].orders.len() && (#[trigger] own[
                i2].orders[j2]).id.0 == w.removed[x];
            lemma_book_id_unique(b, opp_side, io, jo, own_side, i2, j2);
            assert(false);
        }
        assert(b.index.contains_key(opp[io].orders[jo].id.0));
    }
    assert forall|i: int, j: int|
        0 <= i < own.len() && 0 <= j < own[i].orders.len() implies {
        &&& index1.contains_key((#[trigger] own[i].orders[j]).id.0)
        &&& index1[own[i].orders[j].id.0] == b.index[own[i].orders[j].id.0]
        &&& own[i].orders[j].id.0 != order.id.0
    } by {
        let id = own[i].orders[j].id.0;
        assert(b.index.contains_key(id));
        if w.removed.contains(id) {
            let x = choose|x: int| 0 <= x < w.removed.len() && w.removed[x] == id;
            assert(ladder_has_id(own, id));
            assert(false);
        }
        assert(index1.contains_key(id));
        assert(index1[id] == b.index[id]);
        assert(id != order.id.0);
    }
    assert forall|i: int, j: int|
        0 <= i < w.levels.len() && 0 <= j < w.levels[i].orders.len() implies {
        &&& index1.contains_key((#[trigger] w.levels[i].orders[j]).id.0)
        &&& index1[w.levels[i].orders[j].id.0] == (OrderLocation {
            side: opp_side,
            price: w.levels[i].price,
        })
        &&& w.levels[i].orders[j].id.0 != order.id.0
    } by {
        let id = w.levels[i].orders[j].id.0;
        assert(ladder_has_id(w.levels, id));
        assert(!w.removed.contains(id));
        let e = opp[d].orders.len() - w.levels[0].orders.len();
        let io: int = if i == 0 {
            d
        } else {
            d + i
        };
        let jo: int = if i == 0 {
            e + j
        } else {
            j
        };
        assert(opp[io].orders[jo].id.0 == id && opp[io].price == w.levels[i].price) by {
            if i == 0 {
                if j == 0 {
                    assert(same_core(w.levels[0].orders[0], opp[d].orders[e]));
                } else {
                    assert(w.levels[0].orders[j] == opp[d].orders[e + j]);
                }
            } else {
                assert(w.levels[i] == opp[d + i]);
            }
        }
        assert(b.index.contains_key(id) && b.index[id] == (OrderLocation {
            side: opp_side,
            price: opp[io].price,
        }));
        assert(index1.contains_key(id));
        assert(index1[id] == (OrderLocation { side: opp_side, price: w.levels[i].price }));
        assert(id != order.id.0);
    }
}

/// After the walk, every queued order is still correctly indexed.
#[verifier::rlimit(50)]
#[verifier::spinoff_prover]
pub proof fn lemma_submit_mid_complete(b: BookView, order: Order)
    requires
        b.wf(),
        order.wf(),
        submit_acts(b, order),
    ensures
        submit_mid(b, order).inv_index_complete(),
{
    let opp_side = order.side.spec_opposite();
    let own_side = order.side;
    let opp = b.side_levels(opp_side);
    let own = b.side_levels(own_side);
    lemma_walk_props(order, opp, b.next_trade_id, opp_side);
    lemma_book_ladder_unique(b, opp_side);
    lemma_submit_mid_entries(b, order);
    let w = walk(order, opp, b.next_trade_id);
    let b1 = submit_mid(b, order);
    assert(b1.side_levels(own_side) == own);
    assert(b1.side_levels(opp_side) == w.levels);
    assert forall|side2: OrderSide, i: int, j: int|
        0 <= i < b1.side_levels(side2).len() && 0 <= j < b1.side_levels(
            side2,
        )[i].orders.len() implies {
        &&& b1.index.contains_key((#[trigger] b1.side_levels(side2)[i].orders[j]).id.0)
        &&& b1.index[b1.side_levels(side2)[i].orders[j].id.0] == (OrderLocation {
            side: side2,
            price: b1.side_levels(side2)[i].price,
        })
    } by {
        if side2 == own_side {
            assert(b1.side_levels(side2) == own);
            assert(b.index[own[i].orders[j].id.0] == (OrderLocation {
                side: own_side,
                price: own[i].price,
            }));
        } else {
            assert(b1.side_levels(side2) == w.levels);
        }
    }
}

/// After the walk, every surviving index entry is still found where its
/// location points.
#[verifier::rlimit(50)]
#[verifier::spinoff_prover]
pub proof fn lemma_submit_mid_sound(b: BookView, order: Order)
    requires
        b.wf(),
        order.wf(),
        submit_acts(b, order),
    ensures
        submit_mid(b, order).inv_index_sound(),
{
    let opp_side = order.side.spec_opposite();
    let own_side = order.side;
    let opp = b.side_levels(opp_side);
    let own = b.side_levels(own_side);
    lemma_walk_props(order, opp, b.next_trade_id, opp_side);
    lemma_book_ladder_unique(b, opp_side);
    lemma_remove_ids_props(b.index, walk(order, opp, b.next_trade_id).removed);
    let w = walk(order, opp, b.next_trade_id);
    let b1 = submit_mid(b, order);
    assert(b1.side_levels(own_side) == own);
    assert(b1.side_levels(opp_side) == w.levels);
    assert forall|id: u64| #[trigger] b1.index.contains_key(id) implies b1.loc_found(id) by {
        let loc = b1.index[id];
        assert(b.index.contains_key(id) && b.index[id] == loc && !w.removed.contains(id));
        assert(b.loc_found(id));
        let lv = b.side_levels(loc.side);
        let k0 = level_index_at(lv, loc.price);
        let j0 = index_of_id(lv[k0].orders, id);
        lemma_level_index_at_props(lv, loc.price);
        lemma_index_of_id_props(lv[k0].orders, id);
        assert(ladder_has(lv, id, loc.price)) by {
            assert(lv[k0].price == loc.price);
            assert(lv[k0].orders[j0].id.0 == id);
        }
        if loc.side == own_side {
            assert(b1.side_levels(loc.side) == lv);
        } else {
            assert(ladder_has(w.levels, id, loc.price));
            lemma_has_to_found(w.levels, opp_side, id, loc.price);
            assert(b1.side_levels(loc.side) == w.levels);
        }
    }
}

/// After the walk, no level holds one id twice.
#[verifier::rlimit(50)]
#[verifier::spinoff_prover]
pub proof fn lemma_submit_mid_unique(b: BookView, order: Order)
    requires
        b.wf(),
        order.wf(),
        submit_acts(b, order),
    ensures
        submit_mid(b, order).inv_ids_unique(),
{
    let opp_side = order.side.spec_opposite();
    let own_side = order.side;
    let opp = b.side_levels(opp_side);
    let own = b.side_levels(own_side);
    lemma_walk_props(order, opp, b.next_trade_id, opp_side);
    lemma_book_ladder_unique(b, opp_side);
    let w = walk(order, opp, b.next_trade_id);
    let b1 = submit_mid(b, order);
    assert(b1.side_levels(own_side) == own);
    assert(b1.side_levels(opp_side) == w.levels);
    assert(ladder_ids_unique(w.levels));
    assert forall|side2: OrderSide, i: int, j1: int, j2: int|
        0 <= i < b1.side_levels(side2).len() && 0 <= j1 < b1.side_levels(
            side2,
        )[i].orders.len() && 0 <= j2 < b1.side_levels(side2)[i].orders.len()
            && (#[trigger] b1.side_levels(side2)[i].orders[j1]).id.0 == (#[trigger]
        b1.side_levels(side2)[i].orders[j2]).id.0 implies j1 == j2 by {
        if side2 == own_side {
            assert(b1.side_levels(side2) == own);
            lemma_book_id_unique(b, own_side, i, j1, own_side, i, j2);
        } else {
            assert(b1.side_levels(side2) == w.levels);
        }
    }
}

/// Submitting preserves the book invariants.
#[verifier::rlimit(60)]
#[verifier::spinoff_prover]
pub proof fn lemma_spec_submit_wf(b: BookView, order: Order)
    requires
        b.wf(),
        order.wf(),
        submit_safe(b, order),
    ensures
        spec_submit(b, order).0.wf(),
{
    if !b.index.contains_key(order.id.0) {
        let opp_side = order.side.spec_opposite();
        let own_side = order.side;
        let opp = b.side_levels(opp_side);
        let own = b.side_levels(own_side);
        if submit_acts(b, order) {
            lemma_book_ladder_unique(b, opp_side);
            lemma_walk_props(order, opp, b.next_trade_id, opp_side);
            lemma_walk_counts(order, opp, b.next_trade_id);
            let w = walk(order, opp, b.next_trade_id);
            let d = opp.len() - w.levels.len();
            lemma_remove_ids_props(b.index, w.removed);
            let b1 = submit_mid(b, order);
            assert(b.next_trade_id + w.trades.len() <= u64::MAX);
            assert(b1.side_levels(own_side) == own);
            assert(b1.side_levels(opp_side) == w.levels);
            lemma_submit_mid_entries(b, order);
            lemma_submit_mid_complete(b, order);
            lemma_submit_mid_sound(b, order);
            lemma_submit_mid_unique(b, order);
            assert(b1.inv_resting_orders()) by {
                assert(ladder_wf(w.levels, opp_side));
                assert(ladder_wf(own, own_side));
            }
            assert(b1.inv_not_crossed()) by {
                if b1.asks.len() > 0 && b1.bids.len() > 0 {
                    assert(opp.len() > 0);
                    assert(w.levels.len() > 0);
                    assert(w.levels[0].price == opp[d].price) by {
                        if d + 0 < opp.len() && w.levels.len() > 0 {
                        }
                    }
                    if d > 0 {
                        assert(better_price(opp_side, opp[0].price, opp[d].price));
                    }
                }
            }
            assert(b1.inv_trades()) by {
                assert(b.next_trade_id == b.trades.len());
                assert forall|i: int|
                    0 <= i < b1.trades.len() implies (#[trigger] b1.trades[i]).id.0 == i
                    && b1.trades[i].quantity.units > 0 by {
                    if i < b.trades.len() {
                        assert(b1.trades[i] == b.trades[i]);
                    } else {
                        assert(b1.trades[i] == w.trades[i - b.trades.len()]);
                    }
                }
            }
            assert(b1.index.dom().finite());
            assert(b1.wf());
            if submit_rests(b, order) {
                let price = rest_price(w.taker);
                assert(w.taker.spec_limit_price() == Some(price));
                let own1 = ladder_insert(own, own_side, w.taker, price);
                let b2 = BookView {
                    index: b1.index.insert(
                        order.id.0,
                        OrderLocation { side: own_side, price },
                    ),
                    ..b1.with_side(own_side, own1)
                };
                assert(spec_submit(b, order).0 == b2);
                lemma_submit_rest_wf(b, order);
            } else {
                assert(spec_submit(b, order).0 == b1);
            }
        } else {
            assert(spec_submit(b, order).0 == b);
        }
    }
}

/// Resting the walked remainder preserves the book invariants.
#[verifier::rlimit(60)]
#[verifier::spinoff_prover]
pub proof fn lemma_submit_rest_wf(b: BookView, order: Order)
    requires
        b.wf(),
        order.wf(),
        submit_safe(b, order),
        submit_acts(b, order),
        submit_rests(b, order),
        submit_mid(b, order).wf(),
    ensures
        spec_submit(b, order).0.wf(),
{
    let opp_side = order.side.spec_opposite();
    let own_side = order.side;
    let opp = b.side_levels(opp_side);
    let own = b.side_levels(own_side);
    lemma_walk_props(order, opp, b.next_trade_id, opp_side);
    let w = walk(order, opp, b.next_trade_id);
    let b1 = submit_mid(b, order);
    let price = rest_price(w.taker);
    assert(w.taker.spec_limit_price() == Some(price));
    let own1 = ladder_insert(own, own_side, w.taker, price);
    let b2 = BookView {
        index: b1.index.insert(order.id.0, OrderLocation { side: own_side, price }),
        ..b1.with_side(own_side, own1)
    };
    assert(spec_submit(b, order).0 == b2);
    assert(b2.side_levels(own_side) == own1);
    assert(b2.side_levels(opp_side) == w.levels);
    lemma_ladder_insert_wf(own, own_side, w.taker, price);
    lemma_ladder_insert_structure(own, own_side, w.taker, price);
    lemma_submit_mid_entries(b, order);
    // No old order on either side carries the incoming id.
    assert forall|i: int, j: int|
        0 <= i < own.len() && 0 <= j < own[i].orders.len() implies (#[trigger] own[i].orders[
    j]).id.0 != order.id.0 by {
        assert(b.index.contains_key(own[i].orders[j].id.0));
    }
    assert(b2.inv_resting_orders()) by {
        assert(ladder_wf(own1, own_side));
        assert(ladder_wf(w.levels, opp_side));
    }
    assert(b2.inv_index_complete()) by {
        assert forall|side2: OrderSide, i: int, j: int|
            0 <= i < b2.side_levels(side2).len() && 0 <= j < b2.side_levels(
                side2,
            )[i].orders.len() implies {
            &&& b2.index.contains_key((#[trigger] b2.side_levels(side2)[i].orders[j]).id.0)
            &&& b2.index[b2.side_levels(side2)[i].orders[j].id.0] == (OrderLocation {
                side: side2,
                price: b2.side_levels(side2)[i].price,
            })
        } by {
            if side2 == opp_side {
                assert(b2.side_levels(side2) == w.levels);
                assert(b1.index.contains_key(w.levels[i].orders[j].id.0));
            } else {
                assert(b2.side_levels(side2) == own1);
                let oo = own1[i].orders[j];
                if oo == w.taker && own1[i].price == price {
                    assert(oo.id.0 == order.id.0);
                } else {
                    let (io, jo): (int, int) = choose|io: int, jo: int|
                        0 <= io < own.len() && 0 <= jo < own[io].orders.len() && own[io].price
                            == own1[i].price && (#[trigger] own[io].orders[jo]) == own1[
                        i].orders[j];
                    assert(oo.id.0 != order.id.0);
                    assert(b1.index.contains_key(oo.id.0));
                    assert(b1.index[oo.id.0] == b.index[oo.id.0]);
                }
            }
        }
    }
    assert(b2.inv_index_sound()) by {
        assert forall|id: u64| #[trigger]
            b2.index.contains_key(id) implies b2.loc_found(id) by {
            if id == order.id.0 {
                lemma_has_to_found(own1, own_side, id, price);
            } else {
                let loc = b2.index[id];
                assert(b1.index.contains_key(id) && b1.index[id] == loc);
                assert(b1.loc_found(id));
                if loc.side == opp_side {
                    assert(b2.side_levels(loc.side) == b1.side_levels(loc.side));
                } else {
                    let lv = b1.side_levels(loc.side);
                    let k0 = level_index_at(lv, loc.price);
                    let j0 = index_of_id(lv[k0].orders, id);
                    lemma_level_index_at_props(lv, loc.price);
                    lemma_index_of_id_props(lv[k0].orders, id);
                    assert(ladder_has(lv, id, loc.price)) by {
                        assert(lv[k0].price == loc.price);
                        assert(lv[k0].orders[j0].id.0 == id);
                    }
                    assert(ladder_has(own1, id, loc.price));
                    lemma_has_to_found(own1, own_side, id, loc.price);
                }
            }
        }
    }
    assert(b2.inv_ids_unique()) by {
        assert forall|side2: OrderSide, i: int, j1: int, j2: int|
            0 <= i < b2.side_levels(side2).len() && 0 <= j1 < b2.side_levels(
                side2,
            )[i].orders.len() && 0 <= j2 < b2.side_levels(side2)[i].orders.len()
                && (#[trigger] b2.side_levels(side2)[i].orders[j1]).id.0 == (#[trigger]
            b2.side_levels(side2)[i].orders[j2]).id.0 implies j1 == j2 by {
            if side2 == opp_side {
                assert(b2.side_levels(side2) == w.levels);
                assert(ladder_ids_unique(w.levels)) by {
                    lemma_book_ladder_unique(b, opp_side);
                }
            } else {
                assert(b2.side_levels(side2) == own1);
                lemma_ladder_insert_unique_helper(
                    b,
                    own,
                    own_side,
                    w.taker,
                    price,
                    i,
                    j1,
                    i,
                    j2,
                );
            }
        }
    }
    assert(b2.inv_not_crossed()) by {
        if b2.asks.len() > 0 && b2.bids.len() > 0 {
            assert(own1.len() > 0);
            if w.levels.len() > 0 {
                assert(!crosses(w.taker, w.levels[0].price));
                assert(own1[0].price == price || (own.len() > 0 && own1[0].price
                    == own[0].price));
            }
        }
    }
    assert(b2.inv_trades());
    assert(b2.index.dom().finite());
    assert(b2.wf());
}

} // verus!
