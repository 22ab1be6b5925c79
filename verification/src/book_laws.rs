//! Properties of matching, cancelling and depth that hold for every book.
use vstd::prelude::*;

use crate::order_book::{
    add_level, apply_amounts, lemma_level_index, level_index, completed_ids, crosses, depth_levels, filled, has_level, is_complete,
    lemma_sweep_basics, levels_volume, order, orders_not_of, placed_by, side_after_sweep, sweep,
    total_volume, with_more_filled, sweep_fits, lemma_sweep_price_free, order_ids_of,
};

verus! {

/// The total quantity recorded by the trades.
pub open spec fn fills_quantity(fills: Seq<filled>) -> int
    decreases fills.len(),
{
    if fills.len() == 0 {
        0
    } else {
        fills_quantity(fills.drop_last()) + fills.last().quantity
    }
}

/// Every trade is made with a resting order of the swept side that crosses
/// the incoming limit, at that resting order's price, with its owner and id.
pub proof fn law_trades_meet_crossing_orders(
    side: Seq<order>,
    limit: u32, qty: u32,
    sells: bool,
    last_id: int,
    price: int,
)
    ensures
        ({
            let f = sweep(side, limit, qty, sells, last_id, price).fills;
            forall|j: int|
                #![trigger f[j]]
                0 <= j < f.len() ==> exists|i: int|
                    0 <= i < side.len() && crosses(#[trigger] side[i], limit, sells)
                        && f[j].price == side[i].price && f[j].market_order_id == side[i].order_id
                        && f[j].other_user_id == side[i].user_id
        }),
    decreases side.len(),
{
    if side.len() > 0 {
        let prev = side.drop_last();
        law_trades_meet_crossing_orders(prev, limit, qty, sells, last_id, price);
        let p = sweep(prev, limit, qty, sells, last_id, price);
        let f = sweep(side, limit, qty, sells, last_id, price).fills;
        assert forall|j: int| #![trigger f[j]] 0 <= j < f.len() implies exists|i: int|
            0 <= i < side.len() && crosses(#[trigger] side[i], limit, sells)
                && f[j].price == side[i].price && f[j].market_order_id == side[i].order_id
                && f[j].other_user_id == side[i].user_id by {
            if j < p.fills.len() {
                assert(f[j] == p.fills[j]);
                let i = choose|i: int|
                    0 <= i < prev.len() && crosses(#[trigger] prev[i], limit, sells)
                        && p.fills[j].price == prev[i].price && p.fills[j].market_order_id
                        == prev[i].order_id && p.fills[j].other_user_id == prev[i].user_id;
                assert(side[i] == prev[i]);
            } else {
                let i = side.len() - 1;
                assert(side[i] == side.last());
            }
        }
    }
}

/// Trades only happen at prices the incoming order accepts: at or above
/// the limit of a sell, at or below the limit of a buy.
pub proof fn law_trade_prices_respect_limit(
    side: Seq<order>,
    limit: u32, qty: u32,
    sells: bool,
    last_id: int,
    price: int,
)
    ensures
        ({
            let f = sweep(side, limit, qty, sells, last_id, price).fills;
            forall|j: int|
                0 <= j < f.len() ==> (if sells {
                    #[trigger] f[j].price >= limit
                } else {
                    f[j].price <= limit
                })
        }),
{
    law_trades_meet_crossing_orders(side, limit, qty, sells, last_id, price);
    let f = sweep(side, limit, qty, sells, last_id, price).fills;
    assert forall|j: int| 0 <= j < f.len() implies (if sells {
        #[trigger] f[j].price >= limit
    } else {
        f[j].price <= limit
    }) by {
        let i = choose|i: int|
            0 <= i < side.len() && crosses(#[trigger] side[i], limit, sells)
                && f[j].price == side[i].price && f[j].market_order_id == side[i].order_id
                && f[j].other_user_id == side[i].user_id;
    }
}

/// An order never executes more than its quantity, and a sweep makes at
/// most one trade per resting order.
pub proof fn law_execution_bounded(side: Seq<order>, limit: u32, qty: u32, sells: bool, last_id: int, price: int)
    ensures
        0 <= sweep(side, limit, qty, sells, last_id, price).executed <= qty,
        sweep(side, limit, qty, sells, last_id, price).fills.len() <= side.len(),
{
    lemma_sweep_basics(side, limit, qty, sells, last_id, price);
}

/// The trade quantities add up to the executed quantity, for a sell
/// sweeping the bids as for a buy sweeping the asks.
pub proof fn law_trades_sum_to_executed(side: Seq<order>, limit: u32, qty: u32, sells: bool, last_id: int, price: int)
    ensures
        fills_quantity(sweep(side, limit, qty, sells, last_id, price).fills) == sweep(
            side,
            limit,
            qty,
            sells,
            last_id,
            price,
        ).executed,
    decreases side.len(),
{
    if side.len() > 0 {
        let prev = side.drop_last();
        law_trades_sum_to_executed(prev, limit, qty, sells, last_id, price);
        lemma_sweep_basics(prev, limit, qty, sells, last_id, price);
        let p = sweep(prev, limit, qty, sells, last_id, price);
        let s = sweep(side, limit, qty, sells, last_id, price);
        if s.fills.len() > p.fills.len() {
            assert(s.fills.drop_last() =~= p.fills);
        }
    }
}

/// Trade ids are consecutive, continuing from the book's last trade id.
pub proof fn law_trade_ids_consecutive(side: Seq<order>, limit: u32, qty: u32, sells: bool, last_id: int, price: int)
    requires
        0 <= last_id,
        last_id + sweep(side, limit, qty, sells, last_id, price).trades <= u32::MAX,
    ensures
        ({
            let f = sweep(side, limit, qty, sells, last_id, price).fills;
            forall|j: int| 0 <= j < f.len() ==> #[trigger] f[j].trade_id == last_id + j + 1
        }),
    decreases side.len(),
{
    lemma_sweep_basics(side, limit, qty, sells, last_id, price);
    if side.len() > 0 {
        let prev = side.drop_last();
        lemma_sweep_basics(prev, limit, qty, sells, last_id, price);
        law_trade_ids_consecutive(prev, limit, qty, sells, last_id, price);
        let p = sweep(prev, limit, qty, sells, last_id, price);
        let f = sweep(side, limit, qty, sells, last_id, price).fills;
        assert forall|j: int| 0 <= j < f.len() implies #[trigger] f[j].trade_id == last_id + j + 1 by {
            if j < p.fills.len() {
                assert(f[j] == p.fills[j]);
            }
        }
    }
}

/// After a sweep, the book's price is that of the last trade, or unchanged
/// when nothing traded.
pub proof fn law_price_follows_last_trade(side: Seq<order>, limit: u32, qty: u32, sells: bool, last_id: int, price: int)
    ensures
        ({
            let s = sweep(side, limit, qty, sells, last_id, price);
            &&& s.fills.len() == 0 ==> s.price == price
            &&& s.fills.len() > 0 ==> s.price == s.fills.last().price
        }),
    decreases side.len(),
{
    lemma_sweep_basics(side, limit, qty, sells, last_id, price);
    if side.len() > 0 {
        law_price_follows_last_trade(side.drop_last(), limit, qty, sells, last_id, price);
    }
}

/// No completely filled order stays in the book after a match, and the
/// orders that stay keep their relative order.
pub proof fn law_no_filled_order_rests(side: Seq<order>, limit: u32, qty: u32, sells: bool, last_id: int, price: int)
    ensures
        ({
            let after = side_after_sweep(side, limit, qty, sells, last_id, price);
            &&& forall|i: int| 0 <= i < after.len() ==> !is_complete(#[trigger] after[i])
            &&& after.len() <= side.len()
        }),
{
    let updated = apply_amounts(side, sweep(side, limit, qty, sells, last_id, price).amounts);
    let keep = |o: order| !completed_ids(updated).contains(o.order_id);
    let after = updated.filter(keep);
    assert(after == side_after_sweep(side, limit, qty, sells, last_id, price));
    assert forall|i: int| 0 <= i < after.len() implies !is_complete(#[trigger] after[i]) by {
        updated.lemma_filter_pred(keep, i);
        if is_complete(after[i]) {
            assert(completed_ids(updated).contains(after[i].order_id)) by {
                lemma_filter_from(updated, keep, i);
                let j = choose|j: int| 0 <= j < updated.len() && updated[j] == after[i];
                assert(is_complete(updated[j]));
            }
        }
    }
    updated.lemma_filter_len(keep);
}

/// Cancelling removes every order of the user from the side and keeps the
/// others; cancelling again changes nothing.
pub proof fn law_cancel_removes_user_orders(side: Seq<order>, user: Seq<char>)
    ensures
        forall|i: int|
            0 <= i < orders_not_of(side, user).len() ==> !placed_by(#[trigger] orders_not_of(side, user)[i], user),
        forall|i: int|
            0 <= i < side.len() && !placed_by(#[trigger] side[i], user) ==> orders_not_of(side, user).contains(side[i]),
        orders_not_of(orders_not_of(side, user), user) == orders_not_of(side, user),
{
    let keep = |o: order| !placed_by(o, user);
    broadcast use vstd::seq_lib::group_filter_ensures;
    lemma_filter_keeps_all(side.filter(keep), keep);
}

/// Every element of a filtered sequence comes from the original one.
pub proof fn lemma_filter_from<A>(s: Seq<A>, keep: spec_fn(A) -> bool, i: int)
    requires
        0 <= i < s.filter(keep).len(),
    ensures
        exists|j: int| 0 <= j < s.len() && s[j] == s.filter(keep)[i],
    decreases s.len(),
{
    reveal_with_fuel(Seq::<_>::filter, 1);
    broadcast use vstd::seq_lib::group_filter_ensures;
    let sub = s.drop_last().filter(keep);
    if i < sub.len() {
        lemma_filter_from(s.drop_last(), keep, i);
        let j = choose|j: int| 0 <= j < s.drop_last().len() && s.drop_last()[j] == sub[i];
        assert(s[j] == s.filter(keep)[i]);
    } else {
        assert(s[s.len() - 1] == s.filter(keep)[i]);
    }
}

/// Filtering a sequence whose elements all pass the predicate leaves it as is.
pub proof fn lemma_filter_keeps_all<A>(s: Seq<A>, keep: spec_fn(A) -> bool)
    requires
        forall|i: int| 0 <= i < s.len() ==> keep(#[trigger] s[i]),
    ensures
        s.filter(keep) == s,
    decreases s.len(),
{
    reveal_with_fuel(Seq::<_>::filter, 1);
    if s.len() > 0 {
        lemma_filter_keeps_all(s.drop_last(), keep);
        assert(s.drop_last().push(s.last()) =~= s);
    } else {
        assert(s.filter(keep) =~= s);
    }
}

/// The depth of a side holds every unit of its resting quantity: the
/// levels add up to the side's total quantity.
pub proof fn law_depth_conserves_volume(side: Seq<order>)
    ensures
        levels_volume(depth_levels(side)) == total_volume(side),
    decreases side.len(),
{
    if side.len() > 0 {
        let prev = side.drop_last();
        law_depth_conserves_volume(prev);
        let l = depth_levels(prev);
        let p0 = side.last().price;
        let q0 = side.last().quantity as int;
        if has_level(l, p0) {
            let k0 = level_index(l, p0);
            lemma_level_index(l, p0);
            lemma_levels_volume_update(l, k0, (p0, l[k0].1 + q0));
            assert(depth_levels(side) == add_level(l, p0, q0));
            assert(add_level(l, p0, q0) == l.update(k0, (p0, l[k0].1 + q0)));
        } else {
            assert(l.push((p0, q0)).drop_last() =~= l);
            assert(depth_levels(side) == l.push((p0, q0)));
        }
        assert(total_volume(side) == total_volume(prev) + q0);
    }
}

/// Replacing one level changes the total by the difference of quantities.
pub proof fn lemma_levels_volume_update(levels: Seq<(u32, int)>, k: int, v: (u32, int))
    requires
        0 <= k < levels.len(),
    ensures
        levels_volume(levels.update(k, v)) == levels_volume(levels) - levels[k].1 + v.1,
    decreases levels.len(),
{
    let u = levels.update(k, v);
    if k == levels.len() - 1 {
        assert(u.drop_last() =~= levels.drop_last());
    } else {
        lemma_levels_volume_update(levels.drop_last(), k, v);
        assert(u.drop_last() =~= levels.drop_last().update(k, v));
    }
}

/// The sum of a sequence of integers.
pub open spec fn sum_of(xs: Seq<int>) -> int
    decreases xs.len(),
{
    if xs.len() == 0 {
        0
    } else {
        sum_of(xs.drop_last()) + xs.last()
    }
}

/// What the incoming order executes is exactly what the resting orders
/// gain in filled quantity: the two sides of every trade balance.
pub proof fn law_both_sides_of_a_match_balance(
    side: Seq<order>,
    limit: u32,
    qty: u32,
    sells: bool,
    last_id: int,
    price: int,
)
    ensures
        sum_of(sweep(side, limit, qty, sells, last_id, price).amounts) == sweep(
            side,
            limit,
            qty,
            sells,
            last_id,
            price,
        ).executed,
    decreases side.len(),
{
    if side.len() > 0 {
        let prev = side.drop_last();
        law_both_sides_of_a_match_balance(prev, limit, qty, sells, last_id, price);
        let p = sweep(prev, limit, qty, sells, last_id, price);
        let s = sweep(side, limit, qty, sells, last_id, price);
        assert(s.amounts.drop_last() =~= p.amounts);
    }
}

/// Matching only ever adds to the filled quantity of resting orders: every
/// order still in the book after a match is an order that was there before,
/// with the same price, quantity, owner, side and id, and at least as much
/// filled.
pub proof fn law_matching_only_fills_resting_orders(
    side: Seq<order>,
    limit: u32,
    qty: u32,
    sells: bool,
    last_id: int,
    price: int,
)
    requires
        sweep_fits(side, limit, qty, sells, last_id),
    ensures
        ({
            let after = side_after_sweep(side, limit, qty, sells, last_id, price);
            forall|i: int|
                #![trigger after[i]]
                0 <= i < after.len() ==> exists|j: int|
                    0 <= j < side.len() && #[trigger] side[j].order_id == after[i].order_id
                        && side[j].price == after[i].price && side[j].quantity == after[i].quantity
                        && side[j].user_id == after[i].user_id && side[j].order_type
                        == after[i].order_type && side[j].filled_qty <= after[i].filled_qty
        }),
{
    let s = sweep(side, limit, qty, sells, last_id, price);
    lemma_sweep_basics(side, limit, qty, sells, last_id, price);
    lemma_sweep_price_free(side, limit, qty, sells, last_id, price, 0);
    let updated = apply_amounts(side, s.amounts);
    let keep = |o: order| !completed_ids(updated).contains(o.order_id);
    let after = updated.filter(keep);
    assert(after == side_after_sweep(side, limit, qty, sells, last_id, price));
    assert forall|i: int| #![trigger after[i]] 0 <= i < after.len() implies exists|j: int|
        0 <= j < side.len() && #[trigger] side[j].order_id == after[i].order_id
            && side[j].price == after[i].price && side[j].quantity == after[i].quantity
            && side[j].user_id == after[i].user_id && side[j].order_type == after[i].order_type
            && side[j].filled_qty <= after[i].filled_qty by {
        lemma_filter_from(updated, keep, i);
        let j = choose|j: int| 0 <= j < updated.len() && updated[j] == after[i];
        assert(updated[j] == with_more_filled(side[j], s.amounts[j]));
        assert(0 <= s.amounts[j]);
        assert(side[j].filled_qty + s.amounts[j] <= u32::MAX);
        assert(side[j].order_id == after[i].order_id);
    }
}

/// A match adds to each resting order's filled quantity exactly what it
/// traded with the incoming order, keeping everything else about the order;
/// no order left in the book is completely filled, and an order that a
/// match fills completely leaves the book.
pub proof fn law_fills_accumulate_on_resting_orders(
    side: Seq<order>,
    limit: u32,
    qty: u32,
    sells: bool,
    last_id: int,
    price: int,
)
    requires
        sweep_fits(side, limit, qty, sells, last_id),
    ensures
        ({
            let s = sweep(side, limit, qty, sells, last_id, price);
            let u = apply_amounts(side, s.amounts);
            let after = side_after_sweep(side, limit, qty, sells, last_id, price);
            &&& u.len() == side.len()
            &&& forall|i: int|
                0 <= i < side.len() ==> {
                    &&& #[trigger] u[i].filled_qty == side[i].filled_qty + s.amounts[i]
                    &&& 0 <= s.amounts[i] <= side[i].quantity
                    &&& u[i].price == side[i].price
                    &&& u[i].quantity == side[i].quantity
                    &&& u[i].order_id == side[i].order_id
                    &&& u[i].order_type == side[i].order_type
                    &&& u[i].user_id == side[i].user_id
                }
            &&& forall|j: int| 0 <= j < after.len() ==> #[trigger] after[j].filled_qty != after[j].quantity
            &&& forall|i: int, j: int|
                0 <= i < side.len() && side[i].filled_qty + s.amounts[i] == side[i].quantity && 0 <= j
                    < after.len() ==> #[trigger] after[j].order_id != #[trigger] side[i].order_id
        }),
{
    let s = sweep(side, limit, qty, sells, last_id, price);
    lemma_sweep_basics(side, limit, qty, sells, last_id, price);
    lemma_sweep_price_free(side, limit, qty, sells, last_id, price, 0);
    let u = apply_amounts(side, s.amounts);
    let keep = |o: order| !completed_ids(u).contains(o.order_id);
    let after = u.filter(keep);
    assert(after == side_after_sweep(side, limit, qty, sells, last_id, price));
    assert forall|i: int| 0 <= i < side.len() implies #[trigger] u[i].filled_qty == side[i].filled_qty
        + s.amounts[i] by {
        assert(side[i].filled_qty + s.amounts[i] <= u32::MAX);
    }
    law_no_filled_order_rests(side, limit, qty, sells, last_id, price);
    assert forall|j: int| 0 <= j < after.len() implies #[trigger] after[j].filled_qty != after[j].quantity by {
        assert(!is_complete(after[j]));
    }
    assert forall|i: int, j: int|
        0 <= i < side.len() && side[i].filled_qty + s.amounts[i] == side[i].quantity && 0 <= j < after.len()
            implies #[trigger] after[j].order_id != #[trigger] side[i].order_id by {
        assert(side[i].filled_qty + s.amounts[i] <= u32::MAX);
        assert(is_complete(u[i]));
        assert(completed_ids(u).contains(u[i].order_id));
        u.lemma_filter_pred(keep, j);
    }
}

/// Cancelling the orders of `user` keeps, in their order, exactly the
/// orders whose user id is a different text: every such order stays, no
/// order of `user` stays, and nothing else appears.
pub proof fn law_cancel_keeps_exactly_other_users(side: Seq<order>, user: Seq<char>)
    ensures
        forall|i: int|
            0 <= i < side.len() && #[trigger] side[i].user_id@ != user ==> orders_not_of(side, user).contains(
                side[i],
            ),
        forall|j: int|
            0 <= j < orders_not_of(side, user).len() ==> #[trigger] orders_not_of(side, user)[j].user_id@
                != user,
        forall|j: int|
            0 <= j < orders_not_of(side, user).len() ==> side.contains(#[trigger] orders_not_of(side, user)[j]),
{
    let keep = |o: order| !placed_by(o, user);
    broadcast use vstd::seq_lib::group_filter_ensures;
    assert forall|i: int| 0 <= i < side.len() && #[trigger] side[i].user_id@ != user implies orders_not_of(
        side,
        user,
    ).contains(side[i]) by {
        assert(keep(side[i]));
        side.lemma_filter_contains(keep, i);
    }
    assert forall|j: int| 0 <= j < orders_not_of(side, user).len() implies #[trigger] orders_not_of(
        side,
        user,
    )[j].user_id@ != user by {
        side.lemma_filter_pred(keep, j);
    }
    assert forall|j: int| 0 <= j < orders_not_of(side, user).len() implies side.contains(
        #[trigger] orders_not_of(side, user)[j],
    ) by {
        lemma_filter_from(side, keep, j);
        let i = choose|i: int| 0 <= i < side.len() && side[i] == side.filter(keep)[j];
        assert(side[i] == orders_not_of(side, user)[j]);
    }
}

/// Whether `side` holds an order of `user` with id `id`.
pub open spec fn has_order_of(side: Seq<order>, user: Seq<char>, id: u32) -> bool {
    exists|i: int| 0 <= i < side.len() && side[i].user_id@ == user && #[trigger] side[i].order_id == id
}

/// The open-order ids of `user` on a side are the ids of the orders whose
/// user id is exactly `user`: each such order's id is listed, and every
/// listed id is that of such an order.
pub proof fn law_open_order_ids_are_the_users(side: Seq<order>, user: Seq<char>)
    ensures
        forall|i: int|
            0 <= i < side.len() && #[trigger] side[i].user_id@ == user ==> order_ids_of(side, user).contains(
                side[i].order_id,
            ),
        forall|k: int|
            0 <= k < order_ids_of(side, user).len() ==> has_order_of(side, user, #[trigger] order_ids_of(side, user)[k]),
{
    let mine = |o: order| placed_by(o, user);
    let f = side.filter(mine);
    broadcast use vstd::seq_lib::group_filter_ensures;
    assert forall|i: int| 0 <= i < side.len() && #[trigger] side[i].user_id@ == user implies order_ids_of(
        side,
        user,
    ).contains(side[i].order_id) by {
        assert(mine(side[i]));
        side.lemma_filter_contains(mine, i);
        let k = choose|k: int| 0 <= k < f.len() && f[k] == side[i];
        assert(order_ids_of(side, user)[k] == side[i].order_id);
    }
    assert forall|k: int| 0 <= k < order_ids_of(side, user).len() implies has_order_of(
        side,
        user,
        #[trigger] order_ids_of(side, user)[k],
    ) by {
        side.lemma_filter_pred(mine, k);
        lemma_filter_from(side, mine, k);
        let i = choose|i: int| 0 <= i < side.len() && side[i] == f[k];
        assert(side[i].order_id == order_ids_of(side, user)[k]);
    }
}

} // verus!
