//! The order book of one market: resting bids and asks, and the matching of
//! an incoming order against the opposite side.
use vstd::prelude::*;

use crate::text::text_eq;

verus! {

broadcast use vstd::string::group_string_axioms;

/// The side of an order: an ask sells, a bid buys.
#[derive(PartialEq, Eq, Structural, Clone, Copy, Debug)]
pub enum OrderType {
    ASK,
    BID,
}

/// An order placed by a user: a limit price, a quantity, and how much of it
/// has been filled so far.
#[allow(non_camel_case_types)]
#[derive(Debug)]
pub struct order {
    pub price: u32,
    pub quantity: u32,
    pub filled_qty: u32,
    pub order_id: u32,
    pub order_type: OrderType,
    pub user_id: String,
}

/// One trade: an incoming order met the resting order `market_order_id` of
/// `other_user_id`.
#[allow(non_camel_case_types)]
#[derive(Debug)]
pub struct filled {
    pub price: u32,
    pub quantity: u32,
    pub trade_id: u32,
    pub other_user_id: String,
    pub market_order_id: u32,
}

/// The book of one market (`base_asset/quote_asset`).
#[allow(non_camel_case_types)]
#[derive(Debug)]
pub struct order_book {
    pub asks: Vec<order>,
    pub bids: Vec<order>,
    pub base_asset: String,
    pub quote_asset: String,
    pub last_traded_id: u32,
    pub current_price: u32,
}

pub open spec fn min_int(a: int, b: int) -> int {
    if a <= b {
        a
    } else {
        b
    }
}

/// Whether a resting order trades with an incoming order limited at `limit`:
/// an incoming sell meets bids at or above its price, an incoming buy meets
/// asks at or below its price.
pub open spec fn crosses(resting: order, limit: u32, incoming_sells: bool) -> bool {
    if incoming_sells {
        resting.price >= limit
    } else {
        resting.price <= limit
    }
}

/// The state of a sweep through the resting orders of one side.
pub struct Sweep {
    /// Quantity of the incoming order executed so far.
    pub executed: int,
    /// Number of trades made so far.
    pub trades: int,
    /// The price of the last trade (or the book's price before the sweep).
    pub price: int,
    /// The trades, in the order they were made.
    pub fills: Seq<filled>,
    /// For each resting order visited, the quantity added to its `filled_qty`.
    pub amounts: Seq<int>,
}

/// Visits the resting orders `side` front to back. Each one that crosses the
/// incoming limit trades `min(remaining, resting.quantity)`, and the trade
/// records that amount. Trade ids continue from `last_id`.
pub open spec fn sweep(side: Seq<order>, limit: u32, qty: u32, sells: bool, last_id: int, price: int) -> Sweep
    decreases side.len(),
{
    if side.len() == 0 {
        Sweep { executed: 0, trades: 0, price, fills: Seq::empty(), amounts: Seq::empty() }
    } else {
        let prev = sweep(side.drop_last(), limit, qty, sells, last_id, price);
        let r = side.last();
        if crosses(r, limit, sells) && prev.executed <= qty {
            let amt = min_int(qty - prev.executed, r.quantity as int);
            let exec = prev.executed + amt;
            let tid = last_id + prev.trades + 1;
            Sweep {
                executed: exec,
                trades: prev.trades + 1,
                price: r.price as int,
                fills: prev.fills.push(
                    filled {
                        price: r.price,
                        quantity: amt as u32,
                        trade_id: tid as u32,
                        other_user_id: r.user_id,
                        market_order_id: r.order_id,
                    },
                ),
                amounts: prev.amounts.push(amt),
            }
        } else {
            Sweep {
                executed: prev.executed,
                trades: prev.trades,
                price: prev.price,
                fills: prev.fills,
                amounts: prev.amounts.push(0),
            }
        }
    }
}

/// `o` with `amount` more filled.
pub open spec fn with_more_filled(o: order, amount: int) -> order {
    order {
        price: o.price,
        quantity: o.quantity,
        filled_qty: (o.filled_qty + amount) as u32,
        order_id: o.order_id,
        order_type: o.order_type,
        user_id: o.user_id,
    }
}

/// The resting orders after each one received its share of the sweep.
pub open spec fn apply_amounts(side: Seq<order>, amounts: Seq<int>) -> Seq<order> {
    Seq::new(side.len(), |i: int| with_more_filled(side[i], amounts[i]))
}

pub open spec fn is_complete(o: order) -> bool {
    o.filled_qty == o.quantity
}

/// The ids of the orders of `side` that are completely filled.
pub open spec fn completed_ids(side: Seq<order>) -> Set<u32> {
    Set::new(
        |id: u32|
            exists|i: int| 0 <= i < side.len() && is_complete(#[trigger] side[i]) && side[i].order_id == id,
    )
}

/// `side` without every order whose id is that of a completely filled order.
pub open spec fn without_completed(side: Seq<order>) -> Seq<order> {
    side.filter(|o: order| !completed_ids(side).contains(o.order_id))
}

/// The resting side after an incoming order swept it.
pub open spec fn side_after_sweep(side: Seq<order>, limit: u32, qty: u32, sells: bool, last_id: int, price: int) -> Seq<order> {
    without_completed(apply_amounts(side, sweep(side, limit, qty, sells, last_id, price).amounts))
}

/// The sweep keeps every counter within `u32`: trade ids and filled
/// quantities (the original arithmetic panics otherwise).
pub open spec fn sweep_fits(side: Seq<order>, limit: u32, qty: u32, sells: bool, last_id: int) -> bool {
    let s = sweep(side, limit, qty, sells, last_id, 0);
    &&& last_id + s.trades <= u32::MAX
    &&& forall|i: int| 0 <= i < side.len() ==> side[i].filled_qty + #[trigger] s.amounts[i] <= u32::MAX
}

pub proof fn lemma_sweep_basics(side: Seq<order>, limit: u32, qty: u32, sells: bool, last_id: int, price: int)
    ensures
        ({
            let s = sweep(side, limit, qty, sells, last_id, price);
            &&& s.amounts.len() == side.len()
            &&& 0 <= s.executed <= qty
            &&& 0 <= s.trades <= side.len()
            &&& s.fills.len() == s.trades
            &&& forall|i: int| 0 <= i < side.len() ==> 0 <= #[trigger] s.amounts[i] <= side[i].quantity
        }),
    decreases side.len(),
{
    if side.len() > 0 {
        lemma_sweep_basics(side.drop_last(), limit, qty, sells, last_id, price);
        let s = sweep(side, limit, qty, sells, last_id, price);
        let p = sweep(side.drop_last(), limit, qty, sells, last_id, price);
        assert forall|i: int| 0 <= i < side.len() implies 0 <= #[trigger] s.amounts[i] <= side[i].quantity by {
            if i < side.len() - 1 {
                assert(s.amounts[i] == p.amounts[i]);
                assert(side[i] == side.drop_last()[i]);
            }
        }
    }
}

/// The sweep of a prefix is the beginning of the sweep of the whole side.
pub proof fn lemma_sweep_prefix(side: Seq<order>, limit: u32, qty: u32, sells: bool, last_id: int, price: int, k: int)
    requires
        0 <= k <= side.len(),
    ensures
        ({
            let s = sweep(side, limit, qty, sells, last_id, price);
            let t = sweep(side.take(k), limit, qty, sells, last_id, price);
            &&& t.trades <= s.trades
            &&& forall|i: int| 0 <= i < k ==> #[trigger] t.amounts[i] == s.amounts[i]
        }),
    decreases side.len(),
{
    lemma_sweep_basics(side, limit, qty, sells, last_id, price);
    lemma_sweep_basics(side.take(k), limit, qty, sells, last_id, price);
    if k == side.len() {
        assert(side.take(k) =~= side);
    } else {
        lemma_sweep_prefix(side.drop_last(), limit, qty, sells, last_id, price, k);
        assert(side.drop_last().take(k) =~= side.take(k));
        lemma_sweep_basics(side.drop_last(), limit, qty, sells, last_id, price);
        let s = sweep(side, limit, qty, sells, last_id, price);
        let p = sweep(side.drop_last(), limit, qty, sells, last_id, price);
        assert forall|i: int| 0 <= i < k implies #[trigger] s.amounts[i] == p.amounts[i] by {}
    }
}

/// The amounts and the trade count of a sweep do not depend on the book's
/// price before it.
pub proof fn lemma_sweep_price_free(side: Seq<order>, limit: u32, qty: u32, sells: bool, last_id: int, p1: int, p2: int)
    ensures
        sweep(side, limit, qty, sells, last_id, p1).amounts == sweep(side, limit, qty, sells, last_id, p2).amounts,
        sweep(side, limit, qty, sells, last_id, p1).trades == sweep(side, limit, qty, sells, last_id, p2).trades,
        sweep(side, limit, qty, sells, last_id, p1).executed == sweep(side, limit, qty, sells, last_id, p2).executed,
        sweep(side, limit, qty, sells, last_id, p1).fills == sweep(side, limit, qty, sells, last_id, p2).fills,
    decreases side.len(),
{
    if side.len() > 0 {
        lemma_sweep_price_free(side.drop_last(), limit, qty, sells, last_id, p1, p2);
    }
}

/// Sweeps the resting orders of `side` with `incoming`, updating their
/// filled quantities, the trade counter and the last traded price.
fn sweep_side(
    side: &mut Vec<order>,
    incoming: &order,
    sells: bool,
    last_id: &mut u32,
    price: &mut u32,
) -> (r: (Vec<filled>, u32))
    requires
        sweep_fits(old(side)@, incoming.price, incoming.quantity, sells, *old(last_id) as int),
    ensures
        ({
            let s = sweep(old(side)@, incoming.price, incoming.quantity, sells, *old(last_id) as int, *old(price) as int);
            &&& final(side)@ == apply_amounts(old(side)@, s.amounts)
            &&& *final(last_id) == *old(last_id) + s.trades
            &&& *final(price) == s.price
            &&& r.0@ == s.fills
            &&& r.1 == s.executed
        }),
{
    let ghost orig = side@;
    let ghost id0 = *last_id as int;
    let ghost price0 = *price as int;
    proof {
        lemma_sweep_basics(orig, incoming.price, incoming.quantity, sells, id0, price0);
        lemma_sweep_price_free(orig, incoming.price, incoming.quantity, sells, id0, price0, 0);
    }
    let mut executed: u32 = 0;
    let mut fills: Vec<filled> = Vec::new();
    let n = side.len();
    let mut i: usize = 0;
    while i < n
        invariant
            0 <= i <= n,
            n == orig.len(),
            side@.len() == n,
            sweep_fits(orig, incoming.price, incoming.quantity, sells, id0),
            sweep(orig, incoming.price, incoming.quantity, sells, id0, 0).amounts == sweep(orig, incoming.price, incoming.quantity, sells, id0, price0).amounts,
            sweep(orig, incoming.price, incoming.quantity, sells, id0, 0).trades == sweep(orig, incoming.price, incoming.quantity, sells, id0, price0).trades,
            ({
                let t = sweep(orig.take(i as int), incoming.price, incoming.quantity, sells, id0, price0);
                &&& executed == t.executed
                &&& *last_id == id0 + t.trades
                &&& *price == t.price
                &&& fills@ == t.fills
                &&& forall|j: int| 0 <= j < i ==> #[trigger] side@[j] == with_more_filled(orig[j], t.amounts[j])
            }),
            forall|j: int| i <= j < n ==> #[trigger] side@[j] == orig[j],
        decreases n - i,
    {
        let ghost t = sweep(orig.take(i as int), incoming.price, incoming.quantity, sells, id0, price0);
        let ghost u = sweep(orig.take(i + 1), incoming.price, incoming.quantity, sells, id0, price0);
        proof {
            assert(orig.take(i + 1).drop_last() =~= orig.take(i as int));
            assert(orig.take(i + 1).last() == orig[i as int]);
            lemma_sweep_basics(orig.take(i as int), incoming.price, incoming.quantity, sells, id0, price0);
            lemma_sweep_basics(orig.take(i + 1), incoming.price, incoming.quantity, sells, id0, price0);
            lemma_sweep_prefix(orig, incoming.price, incoming.quantity, sells, id0, price0, i + 1);
        }
        let r = &side[i];
        let hit = if sells {
            r.price >= incoming.price
        } else {
            r.price <= incoming.price
        };
        if hit && executed <= incoming.quantity {
            let remaining = incoming.quantity - executed;
            let amt = if remaining <= r.quantity {
                remaining
            } else {
                r.quantity
            };
            executed = executed + amt;
            assert(u.amounts[i as int] == amt);
            assert(orig[i as int].filled_qty + amt <= u32::MAX);
            let updated = order {
                price: r.price,
                quantity: r.quantity,
                filled_qty: r.filled_qty + amt,
                order_id: r.order_id,
                order_type: r.order_type,
                user_id: r.user_id.clone(),
            };
            *last_id = *last_id + 1;
            *price = r.price;
            fills.push(
                filled {
                    price: r.price,
                    quantity: amt,
                    trade_id: *last_id,
                    other_user_id: r.user_id.clone(),
                    market_order_id: r.order_id,
                },
            );
            side.set(i, updated);
        }
        proof {
            assert forall|j: int| 0 <= j < i + 1 implies #[trigger] side@[j] == with_more_filled(
                orig[j],
                u.amounts[j],
            ) by {
                if j < i {
                    assert(u.amounts[j] == t.amounts[j]);
                }
            }
        }
        i = i + 1;
    }
    assert(orig.take(n as int) =~= orig);
    assert(side@ =~= apply_amounts(orig, sweep(orig, incoming.price, incoming.quantity, sells, id0, price0).amounts));
    (fills, executed)
}

/// Whether `o` was placed by `user`.
pub open spec fn placed_by(o: order, user: Seq<char>) -> bool {
    o.user_id@ == user
}

/// The orders of `side` not placed by `user`, in their order.
pub open spec fn orders_not_of(side: Seq<order>, user: Seq<char>) -> Seq<order> {
    side.filter(|o: order| !placed_by(o, user))
}

/// The ids of the orders of `side` placed by `user`, in their order.
pub open spec fn order_ids_of(side: Seq<order>, user: Seq<char>) -> Seq<u32> {
    side.filter(|o: order| placed_by(o, user)).map_values(|o: order| o.order_id)
}

/// Whether some level of `levels` is at price `p`.
pub open spec fn has_level(levels: Seq<(u32, int)>, p: u32) -> bool {
    exists|k: int| 0 <= k < levels.len() && #[trigger] levels[k].0 == p
}

/// The position of a level at price `p` (meaningful when there is one).
pub open spec fn level_index(levels: Seq<(u32, int)>, p: u32) -> int {
    choose|k: int| 0 <= k < levels.len() && #[trigger] levels[k].0 == p
}

pub proof fn lemma_level_index(levels: Seq<(u32, int)>, p: u32)
    requires
        has_level(levels, p),
    ensures
        0 <= level_index(levels, p) < levels.len(),
        levels[level_index(levels, p)].0 == p,
{
}

/// Adds `q` to the level at price `p`, or opens a new level at the end.
pub open spec fn add_level(levels: Seq<(u32, int)>, p: u32, q: int) -> Seq<(u32, int)> {
    if has_level(levels, p) {
        let k = level_index(levels, p);
        levels.update(k, (p, levels[k].1 + q))
    } else {
        levels.push((p, q))
    }
}

/// The price levels of `side`: one per price, in order of first
/// appearance, each with the total quantity of the orders at that price.
pub open spec fn depth_levels(side: Seq<order>) -> Seq<(u32, int)>
    decreases side.len(),
{
    if side.len() == 0 {
        Seq::empty()
    } else {
        add_level(depth_levels(side.drop_last()), side.last().price, side.last().quantity as int)
    }
}

/// The total quantity of the orders of `side` at price `p`.
pub open spec fn price_volume(side: Seq<order>, p: u32) -> int
    decreases side.len(),
{
    if side.len() == 0 {
        0
    } else {
        price_volume(side.drop_last(), p) + if side.last().price == p {
            side.last().quantity as int
        } else {
            0
        }
    }
}

/// The total quantity of all orders of `side`.
pub open spec fn total_volume(side: Seq<order>) -> int
    decreases side.len(),
{
    if side.len() == 0 {
        0
    } else {
        total_volume(side.drop_last()) + side.last().quantity
    }
}

/// The total quantity of the levels.
pub open spec fn levels_volume(levels: Seq<(u32, int)>) -> int
    decreases levels.len(),
{
    if levels.len() == 0 {
        0
    } else {
        levels_volume(levels.drop_last()) + levels.last().1
    }
}

/// Every price's total fits in a `u32` (the original sums panic otherwise).
pub open spec fn depth_fits(side: Seq<order>) -> bool {
    forall|p: u32| #[trigger] price_volume(side, p) <= u32::MAX
}

/// The levels as the depth functions return them.
pub open spec fn levels_view(levels: Seq<(u32, u32)>) -> Seq<(u32, int)> {
    levels.map_values(|l: (u32, u32)| (l.0, l.1 as int))
}

pub proof fn lemma_price_volume_prefix(side: Seq<order>, p: u32, k: int)
    requires
        0 <= k <= side.len(),
    ensures
        price_volume(side.take(k), p) <= price_volume(side, p),
    decreases side.len() - k,
{
    if k < side.len() {
        lemma_price_volume_prefix(side, p, k + 1);
        assert(side.take(k + 1).drop_last() =~= side.take(k));
    } else {
        assert(side.take(k) =~= side);
    }
}

/// The price levels of a side are a faithful summary of it: no price
/// appears twice, each level holds the total quantity at its price, and
/// exactly the prices of the orders appear.
pub proof fn law_depth_levels_summarize_side(side: Seq<order>)
    ensures
        forall|a: int, b: int|
            0 <= a < depth_levels(side).len() && 0 <= b < depth_levels(side).len() && a != b
                ==> #[trigger] depth_levels(side)[a].0 != #[trigger] depth_levels(side)[b].0,
        forall|k: int|
            0 <= k < depth_levels(side).len() ==> #[trigger] depth_levels(side)[k].1 == price_volume(
                side,
                depth_levels(side)[k].0,
            ),
        forall|p: u32|
            has_level(depth_levels(side), p) <==> exists|i: int|
                0 <= i < side.len() && #[trigger] side[i].price == p,
        forall|p: u32| !has_level(depth_levels(side), p) ==> price_volume(side, p) == 0,
    decreases side.len(),
{
    if side.len() > 0 {
        let prev = side.drop_last();
        law_depth_levels_summarize_side(prev);
        let l = depth_levels(prev);
        let d = depth_levels(side);
        let p0 = side.last().price;
        let q0 = side.last().quantity as int;
        if has_level(l, p0) {
            let k0 = level_index(l, p0);
            assert(d == l.update(k0, (p0, l[k0].1 + q0)));
            assert forall|p: u32| !has_level(d, p) implies price_volume(side, p) == 0 by {
                if has_level(l, p) {
                    let k = choose|k: int| 0 <= k < l.len() && #[trigger] l[k].0 == p;
                    assert(d[k].0 == p);
                }
                assert(d[k0].0 == p0);
                assert(has_level(d, p0));
                assert(p != p0);
                assert(!has_level(l, p));
                assert(price_volume(prev, p) == 0);
            }
            assert forall|k: int| 0 <= k < d.len() implies #[trigger] d[k].1 == price_volume(side, d[k].0) by {
                if k != k0 {
                    assert(d[k] == l[k]);
                }
            }
            assert forall|p: u32| has_level(d, p) <==> exists|i: int| 0 <= i < side.len() && #[trigger] side[i].price == p by {
                if has_level(d, p) {
                    let k = choose|k: int| 0 <= k < d.len() && #[trigger] d[k].0 == p;
                    if k == k0 {
                        assert(side[side.len() - 1].price == p);
                    } else {
                        assert(l[k].0 == p);
                        assert(has_level(l, p));
                        let i = choose|i: int| 0 <= i < prev.len() && #[trigger] prev[i].price == p;
                        assert(side[i].price == p);
                    }
                }
                if exists|i: int| 0 <= i < side.len() && #[trigger] side[i].price == p {
                    let i = choose|i: int| 0 <= i < side.len() && #[trigger] side[i].price == p;
                    if i == side.len() - 1 {
                        assert(d[k0].0 == p);
                    } else {
                        assert(prev[i].price == p);
                        assert(has_level(l, p));
                        let k = choose|k: int| 0 <= k < l.len() && #[trigger] l[k].0 == p;
                        assert(d[k].0 == p);
                    }
                }
            }
        } else {
            assert(d == l.push((p0, q0)));
            assert forall|k: int| 0 <= k < d.len() implies #[trigger] d[k].1 == price_volume(side, d[k].0) by {
                if k < l.len() {
                    assert(d[k] == l[k]);
                    assert(l[k].0 != p0);
                } else {
                    assert(price_volume(prev, p0) == 0);
                }
            }
            assert forall|p: u32| !has_level(d, p) implies price_volume(side, p) == 0 by {
                if has_level(l, p) {
                    let k = choose|k: int| 0 <= k < l.len() && #[trigger] l[k].0 == p;
                    assert(d[k].0 == p);
                }
                assert(d[l.len() as int].0 == p0);
                assert(has_level(d, p0));
                assert(p != p0);
                assert(!has_level(l, p));
                assert(price_volume(prev, p) == 0);
            }
            assert forall|p: u32| has_level(d, p) <==> exists|i: int| 0 <= i < side.len() && #[trigger] side[i].price == p by {
                if has_level(d, p) {
                    let k = choose|k: int| 0 <= k < d.len() && #[trigger] d[k].0 == p;
                    if k == l.len() {
                        assert(side[side.len() - 1].price == p);
                    } else {
                        assert(l[k].0 == p);
                        assert(has_level(l, p));
                        let i = choose|i: int| 0 <= i < prev.len() && #[trigger] prev[i].price == p;
                        assert(side[i].price == p);
                    }
                }
                if exists|i: int| 0 <= i < side.len() && #[trigger] side[i].price == p {
                    let i = choose|i: int| 0 <= i < side.len() && #[trigger] side[i].price == p;
                    if i == side.len() - 1 {
                        assert(d[l.len() as int].0 == p);
                    } else {
                        assert(prev[i].price == p);
                        assert(has_level(l, p));
                        let k = choose|k: int| 0 <= k < l.len() && #[trigger] l[k].0 == p;
                        assert(d[k].0 == p);
                    }
                }
            }
        }
    }
}

/// Matching an incoming order of type `t` keeps every counter of `book`
/// within `u32`.
pub open spec fn order_fits(book: order_book, t: OrderType, limit: u32, qty: u32) -> bool {
    if t == OrderType::ASK {
        sweep_fits(book.bids@, limit, qty, true, book.last_traded_id as int)
    } else {
        sweep_fits(book.asks@, limit, qty, false, book.last_traded_id as int)
    }
}

/// `new` is `old` after an incoming order of type `t` was matched against
/// the opposite side, with trades `fills` and executed quantity `executed`.
pub open spec fn order_added(
    old: order_book,
    new: order_book,
    t: OrderType,
    limit: u32,
    qty: u32,
    fills: Seq<filled>,
    executed: u32,
) -> bool {
    let sells = t == OrderType::ASK;
    let side = if sells {
        old.bids@
    } else {
        old.asks@
    };
    let s = sweep(side, limit, qty, sells, old.last_traded_id as int, old.current_price as int);
    let after = side_after_sweep(side, limit, qty, sells, old.last_traded_id as int, old.current_price as int);
    &&& sells ==> new.bids@ == after && new.asks@ == old.asks@
    &&& !sells ==> new.asks@ == after && new.bids@ == old.bids@
    &&& new.base_asset == old.base_asset
    &&& new.quote_asset == old.quote_asset
    &&& new.last_traded_id == old.last_traded_id + s.trades
    &&& new.current_price == s.price
    &&& fills == s.fills
    &&& executed == s.executed
}

/// The market name of a book.
pub open spec fn ticker_of(book: order_book) -> Seq<char> {
    book.base_asset@ + seq!['/'] + book.quote_asset@
}

/// Whether `id` occurs in `ids`.
fn contains_id(ids: &Vec<u32>, id: u32) -> (r: bool)
    ensures
        r == ids@.contains(id),
{
    let mut i: usize = 0;
    while i < ids.len()
        invariant
            0 <= i <= ids.len(),
            forall|j: int| 0 <= j < i ==> ids@[j] != id,
        decreases ids.len() - i,
    {
        if ids[i] == id {
            return true;
        }
        i = i + 1;
    }
    false
}

/// The ids of the completely filled orders of `side`.
fn completed_id_list(side: &Vec<order>) -> (ids: Vec<u32>)
    ensures
        forall|id: u32| ids@.contains(id) <==> completed_ids(side@).contains(id),
{
    let mut ids: Vec<u32> = Vec::new();
    let mut i: usize = 0;
    while i < side.len()
        invariant
            0 <= i <= side.len(),
            forall|k: int| 0 <= k < ids@.len() ==> completed_ids(side@).contains(#[trigger] ids@[k]),
            forall|j: int|
                0 <= j < i && is_complete(#[trigger] side@[j]) ==> ids@.contains(side@[j].order_id),
        decreases side.len() - i,
    {
        let o = &side[i];
        if o.filled_qty == o.quantity {
            let ghost before = ids@;
            ids.push(o.order_id);
            assert(completed_ids(side@).contains(o.order_id)) by {
                assert(is_complete(side@[i as int]));
            }
            assert forall|j: int|
                0 <= j < i + 1 && is_complete(#[trigger] side@[j]) implies ids@.contains(side@[j].order_id) by {
                if j < i {
                    let k = choose|k: int| 0 <= k < before.len() && before[k] == side@[j].order_id;
                    assert(ids@[k] == before[k]);
                } else {
                    assert(ids@[ids@.len() - 1] == side@[j].order_id);
                }
            }
        }
        i = i + 1;
    }
    assert forall|id: u32| ids@.contains(id) <==> completed_ids(side@).contains(id) by {
        if ids@.contains(id) {
            let k = choose|k: int| 0 <= k < ids@.len() && ids@[k] == id;
            assert(completed_ids(side@).contains(ids@[k]));
        }
        if completed_ids(side@).contains(id) {
            let j = choose|j: int| 0 <= j < side@.len() && is_complete(#[trigger] side@[j]) && side@[j].order_id == id;
            assert(ids@.contains(side@[j].order_id));
        }
    }
    ids
}

/// Removes every order whose id is that of a completely filled order.
fn drop_completed(side: &mut Vec<order>)
    ensures
        final(side)@ == without_completed(old(side)@),
{
    let ghost orig = side@;
    let ghost keep = |o: order| !completed_ids(orig).contains(o.order_id);
    let done = completed_id_list(side);
    let mut rest: Vec<order> = Vec::new();
    std::mem::swap(side, &mut rest);
    assert(rest@ == orig);
    for o in it: rest.into_iter()
        invariant
            it.seq() == orig,
            forall|x: order| #[trigger] keep(x) == !completed_ids(orig).contains(x.order_id),
            forall|id: u32| done@.contains(id) <==> completed_ids(orig).contains(id),
            side@ == orig.take(it.index() as int).filter(keep),
    {
        let ghost k = it.index() as int;
        proof {
            reveal_with_fuel(Seq::<_>::filter, 1);
            assert(orig.take(k + 1).drop_last() =~= orig.take(k));
            assert(orig.take(k + 1).last() == o);
        }
        let found = contains_id(&done, o.order_id);
        assert(keep(o) == !found);
        if !found {
            side.push(o);
        }
    }
    assert(orig.take(orig.len() as int) =~= orig);
}

/// The price levels of `side` (see `depth_levels`).
fn aggregate_levels(side: &Vec<order>) -> (levels: Vec<(u32, u32)>)
    requires
        depth_fits(side@),
    ensures
        levels_view(levels@) == depth_levels(side@),
{
    let mut levels: Vec<(u32, u32)> = Vec::new();
    let mut i: usize = 0;
    while i < side.len()
        invariant
            0 <= i <= side.len(),
            depth_fits(side@),
            levels_view(levels@) == depth_levels(side@.take(i as int)),
        decreases side.len() - i,
    {
        let ghost pre = side@.take(i as int);
        let ghost post = side@.take(i + 1);
        let ghost l = depth_levels(pre);
        proof {
            assert(post.drop_last() =~= pre);
            law_depth_levels_summarize_side(pre);
            law_depth_levels_summarize_side(post);
        }
        let p = side[i].price;
        let q = side[i].quantity;
        let mut k: usize = 0;
        while k < levels.len() && levels[k].0 != p
            invariant
                0 <= k <= levels.len(),
                levels_view(levels@) == l,
                forall|j: int| 0 <= j < k ==> levels@[j].0 != p,
            decreases levels.len() - k,
        {
            k = k + 1;
        }
        proof {
            lemma_price_volume_prefix(side@, p, i + 1);
            assert(price_volume(side@, p) <= u32::MAX);
        }
        if k < levels.len() {
            assert(levels@[k as int].0 == p);
            assert(l[k as int].0 == p);
            assert(has_level(l, p));
            let ghost k0 = level_index(l, p);
            assert(k0 == k) by {
                law_depth_levels_summarize_side(pre);
            }
            assert(depth_levels(post) == l.update(k0, (p, l[k0].1 + q)));
            assert(depth_levels(post)[k0].1 == price_volume(post, p));
            let sum = levels[k].1 + q;
            levels.set(k, (p, sum));
            assert(levels_view(levels@) =~= depth_levels(post));
        } else {
            assert(!has_level(l, p)) by {
                if has_level(l, p) {
                    let j = choose|j: int| 0 <= j < l.len() && #[trigger] l[j].0 == p;
                    assert(levels@[j].0 == p);
                }
            }
            levels.push((p, q));
            assert(levels_view(levels@) =~= depth_levels(post));
        }
        i = i + 1;
    }
    assert(side@.take(side@.len() as int) =~= side@);
    levels
}

/// The orders of `side` not placed by `user_id`, in their order.
fn retain_others(side: &mut Vec<order>, user_id: &str)
    ensures
        final(side)@ == orders_not_of(old(side)@, user_id@),
{
    let ghost orig = side@;
    let ghost keep = |o: order| !placed_by(o, user_id@);
    let mut rest: Vec<order> = Vec::new();
    std::mem::swap(side, &mut rest);
    for o in it: rest.into_iter()
        invariant
            it.seq() == orig,
            forall|x: order| #[trigger] keep(x) == !placed_by(x, user_id@),
            side@ == orig.take(it.index() as int).filter(keep),
    {
        let ghost k = it.index() as int;
        proof {
            reveal_with_fuel(Seq::<_>::filter, 1);
            assert(orig.take(k + 1).drop_last() =~= orig.take(k));
            assert(orig.take(k + 1).last() == o);
        }
        let mine = text_eq(o.user_id.as_str(), user_id);
        assert(keep(o) == !mine);
        if !mine {
            side.push(o);
        }
    }
    assert(orig.take(orig.len() as int) =~= orig);
}

/// The ids of the orders of `side` placed by `user_id`, in their order.
fn ids_of_user(side: &Vec<order>, user_id: &str) -> (ids: Vec<u32>)
    ensures
        ids@ == order_ids_of(side@, user_id@),
{
    let ghost mine = |o: order| placed_by(o, user_id@);
    let ghost id_of = |o: order| o.order_id;
    let mut ids: Vec<u32> = Vec::new();
    let mut i: usize = 0;
    while i < side.len()
        invariant
            0 <= i <= side.len(),
            forall|x: order| #[trigger] mine(x) == placed_by(x, user_id@),
            forall|x: order| #[trigger] id_of(x) == x.order_id,
            ids@ == side@.take(i as int).filter(mine).map_values(id_of),
        decreases side.len() - i,
    {
        proof {
            reveal_with_fuel(Seq::<_>::filter, 1);
            assert(side@.take(i + 1).drop_last() =~= side@.take(i as int));
            assert(side@.take(i + 1).last() == side@[i as int]);
        }
        let o = &side[i];
        if text_eq(o.user_id.as_str(), user_id) {
            ids.push(o.order_id);
        }
        assert(ids@ =~= side@.take(i + 1).filter(mine).map_values(id_of));
        i = i + 1;
    }
    assert(side@.take(side@.len() as int) =~= side@);
    ids
}

/// Whether sweeping `side` keeps every counter within `u32` (see `sweep_fits`).
fn sweep_fits_check(side: &Vec<order>, limit: u32, qty: u32, sells: bool, last_id: u32) -> (r: bool)
    ensures
        r == sweep_fits(side@, limit, qty, sells, last_id as int),
{
    let ghost orig = side@;
    proof {
        lemma_sweep_basics(orig, limit, qty, sells, last_id as int, 0);
    }
    let mut executed: u32 = 0;
    let mut trades: u64 = 0;
    let mut ok = true;
    let n = side.len();
    let mut i: usize = 0;
    while i < n
        invariant
            0 <= i <= n,
            n == orig.len(),
            side@ == orig,
            sweep(orig, limit, qty, sells, last_id as int, 0).amounts.len() == n,
            ({
                let t = sweep(orig.take(i as int), limit, qty, sells, last_id as int, 0);
                &&& executed == t.executed
                &&& trades == t.trades
                &&& ok == (forall|j: int|
                    0 <= j < i ==> orig[j].filled_qty + #[trigger] sweep(orig, limit, qty, sells, last_id as int, 0).amounts[j]
                        <= u32::MAX)
            }),
        decreases n - i,
    {
        let ghost t = sweep(orig.take(i as int), limit, qty, sells, last_id as int, 0);
        let ghost u = sweep(orig.take(i + 1), limit, qty, sells, last_id as int, 0);
        let ghost full = sweep(orig, limit, qty, sells, last_id as int, 0);
        proof {
            assert(orig.take(i + 1).drop_last() =~= orig.take(i as int));
            assert(orig.take(i + 1).last() == orig[i as int]);
            lemma_sweep_basics(orig.take(i as int), limit, qty, sells, last_id as int, 0);
            lemma_sweep_basics(orig.take(i + 1), limit, qty, sells, last_id as int, 0);
            lemma_sweep_prefix(orig, limit, qty, sells, last_id as int, 0, i + 1);
        }
        let r = &side[i];
        let hit = if sells {
            r.price >= limit
        } else {
            r.price <= limit
        };
        let mut amt: u32 = 0;
        if hit && executed <= qty {
            let remaining = qty - executed;
            amt = if remaining <= r.quantity {
                remaining
            } else {
                r.quantity
            };
            executed = executed + amt;
            trades = trades + 1;
        }
        assert(u.amounts[i as int] == amt);
        assert(full.amounts[i as int] == amt);
        if r.filled_qty as u64 + amt as u64 > 4294967295 {
            ok = false;
        }
        i = i + 1;
    }
    assert(orig.take(n as int) =~= orig);
    ok && trades <= 4294967295 && last_id as u64 + trades <= 4294967295
}

impl order_book {
    /// A book with the given resting orders, assets, trade counter and price.
    pub fn new(
        asks: Vec<order>,
        bids: Vec<order>,
        base_asset: String,
        quote_asset: String,
        last_traded_id: u32,
        current_price: u32,
    ) -> (b: Self)
        ensures
            b.asks@ == asks@,
            b.bids@ == bids@,
            b.base_asset == base_asset,
            b.quote_asset == quote_asset,
            b.last_traded_id == last_traded_id,
            b.current_price == current_price,
    {
        order_book { asks, bids, base_asset, quote_asset, last_traded_id, current_price }
    }

    /// Matches an incoming sell order against the resting bids, front to
    /// back. Returns the trades and the executed quantity. Bids that end up
    /// completely filled leave the book; the sell order itself does not rest.
    pub fn match_ask(&mut self, sell_order: order) -> (r: (Vec<filled>, u32))
        requires
            sweep_fits(old(self).bids@, sell_order.price, sell_order.quantity, true, old(self).last_traded_id as int),
        ensures
            ({
                let s = sweep(
                    old(self).bids@,
                    sell_order.price,
                    sell_order.quantity,
                    true,
                    old(self).last_traded_id as int,
                    old(self).current_price as int,
                );
                &&& final(self).bids@ == side_after_sweep(
                    old(self).bids@,
                    sell_order.price,
                    sell_order.quantity,
                    true,
                    old(self).last_traded_id as int,
                    old(self).current_price as int,
                )
                &&& final(self).asks@ == old(self).asks@
                &&& final(self).base_asset == old(self).base_asset
                &&& final(self).quote_asset == old(self).quote_asset
                &&& final(self).last_traded_id == old(self).last_traded_id + s.trades
                &&& final(self).current_price == s.price
                &&& r.0@ == s.fills
                &&& r.1 == s.executed
            }),
    {
        let r = sweep_side(
            &mut self.bids,
            &sell_order,
            true,
            &mut self.last_traded_id,
            &mut self.current_price,
        );
        drop_completed(&mut self.bids);
        r
    }

    /// Matches an incoming buy order against the resting asks, front to
    /// back. Returns the trades and the executed quantity; each trade records
    /// its own price and quantity. Asks that end up completely filled leave
    /// the book; the buy order itself does not rest.
    pub fn match_bid(&mut self, buy_order: order) -> (r: (Vec<filled>, u32))
        requires
            sweep_fits(old(self).asks@, buy_order.price, buy_order.quantity, false, old(self).last_traded_id as int),
        ensures
            ({
                let s = sweep(
                    old(self).asks@,
                    buy_order.price,
                    buy_order.quantity,
                    false,
                    old(self).last_traded_id as int,
                    old(self).current_price as int,
                );
                &&& final(self).asks@ == side_after_sweep(
                    old(self).asks@,
                    buy_order.price,
                    buy_order.quantity,
                    false,
                    old(self).last_traded_id as int,
                    old(self).current_price as int,
                )
                &&& final(self).bids@ == old(self).bids@
                &&& final(self).base_asset == old(self).base_asset
                &&& final(self).quote_asset == old(self).quote_asset
                &&& final(self).last_traded_id == old(self).last_traded_id + s.trades
                &&& final(self).current_price == s.price
                &&& r.0@ == s.fills
                &&& r.1 == s.executed
            }),
    {
        let r = sweep_side(
            &mut self.asks,
            &buy_order,
            false,
            &mut self.last_traded_id,
            &mut self.current_price,
        );
        drop_completed(&mut self.asks);
        r
    }

    /// Whether an incoming order of type `t` can be matched in this book
    /// with every counter staying within `u32` (the requirement of `add_order`).
    pub fn fits_order(&self, t: OrderType, limit: u32, qty: u32) -> (r: bool)
        ensures
            r == order_fits(*self, t, limit, qty),
    {
        if t == OrderType::ASK {
            sweep_fits_check(&self.bids, limit, qty, true, self.last_traded_id)
        } else {
            sweep_fits_check(&self.asks, limit, qty, false, self.last_traded_id)
        }
    }

    /// The market's name: `base_asset/quote_asset`.
    pub fn ticker(&self) -> (t: String)
        ensures
            t@ == ticker_of(*self),
    {
        let mut t = self.base_asset.clone();
        proof {
            reveal_strlit("/");
        }
        t.append("/");
        t.append(self.quote_asset.as_str());
        t
    }

    /// The price levels of both sides, `(bids, asks)`: one level per price,
    /// in order of first appearance, with the total quantity at that price.
    pub fn get_depth(&mut self) -> (r: (Vec<(u32, u32)>, Vec<(u32, u32)>))
        requires
            depth_fits(old(self).bids@),
            depth_fits(old(self).asks@),
        ensures
            *final(self) == *old(self),
            levels_view(r.0@) == depth_levels(old(self).bids@),
            levels_view(r.1@) == depth_levels(old(self).asks@),
    {
        let asks = aggregate_levels(&self.asks);
        let bids = aggregate_levels(&self.bids);
        (bids, asks)
    }

    /// Looks up the ids of the open orders of `user_id` on both sides; the
    /// book does not change and nothing is returned.
    pub fn get_open_order(&mut self, user_id: &str)
        ensures
            *final(self) == *old(self),
    {
        let _open_asks = ids_of_user(&self.asks, user_id);
        let _open_bids = ids_of_user(&self.bids, user_id);
        assert(_open_asks@ == order_ids_of(self.asks@, user_id@));
        assert(_open_bids@ == order_ids_of(self.bids@, user_id@));
    }

    /// Cancels every order of `user_id` on the side `order_type`.
    pub fn get_cancel_order(&mut self, user_id: &str, order_type: OrderType)
        ensures
            order_type == OrderType::ASK ==> final(self).asks@ == orders_not_of(old(self).asks@, user_id@)
                && final(self).bids@ == old(self).bids@,
            order_type == OrderType::BID ==> final(self).bids@ == orders_not_of(old(self).bids@, user_id@)
                && final(self).asks@ == old(self).asks@,
            final(self).base_asset == old(self).base_asset,
            final(self).quote_asset == old(self).quote_asset,
            final(self).last_traded_id == old(self).last_traded_id,
            final(self).current_price == old(self).current_price,
    {
        if order_type == OrderType::ASK {
            retain_others(&mut self.asks, user_id);
        } else {
            retain_others(&mut self.bids, user_id);
        }
    }

    /// Matches an incoming order against the opposite side: a bid against
    /// the asks (`match_bid`), an ask against the bids (`match_ask`).
    pub fn add_order(&mut self, placed_order: order) -> (r: (Vec<filled>, u32))
        requires
            order_fits(*old(self), placed_order.order_type, placed_order.price, placed_order.quantity),
        ensures
            order_added(
                *old(self),
                *final(self),
                placed_order.order_type,
                placed_order.price,
                placed_order.quantity,
                r.0@,
                r.1,
            ),
    {
        if placed_order.order_type == OrderType::BID {
            self.match_bid(placed_order)
        } else {
            let (filled_qty, executed_qty) = self.match_ask(placed_order);
            (filled_qty, executed_qty)
        }
    }
}

} // verus!
