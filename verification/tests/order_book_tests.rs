use exchange::order_book::{filled, order, order_book, OrderType};

fn resting(price: u32, quantity: u32, order_id: u32, user: &str, order_type: OrderType) -> order {
    order {
        price,
        quantity,
        filled_qty: 0,
        order_id,
        order_type,
        user_id: user.to_string(),
    }
}

fn book(asks: Vec<order>, bids: Vec<order>) -> order_book {
    order_book::new(asks, bids, "SOL".to_string(), "USDT".to_string(), 10, 0)
}

fn summary(fills: &[filled]) -> Vec<(u32, u32, u32, String, u32)> {
    fills
        .iter()
        .map(|f| (f.price, f.quantity, f.trade_id, f.other_user_id.clone(), f.market_order_id))
        .collect()
}

fn side_summary(side: &[order]) -> Vec<(u32, u32, u32, u32)> {
    side.iter().map(|o| (o.order_id, o.price, o.quantity, o.filled_qty)).collect()
}

#[test]
fn new_keeps_every_field() {
    let b = order_book::new(
        vec![resting(5, 1, 1, "a", OrderType::ASK)],
        vec![],
        "BTC".to_string(),
        "EUR".to_string(),
        7,
        42,
    );
    assert_eq!(b.asks.len(), 1);
    assert!(b.bids.is_empty());
    assert_eq!(b.base_asset, "BTC");
    assert_eq!(b.quote_asset, "EUR");
    assert_eq!(b.last_traded_id, 7);
    assert_eq!(b.current_price, 42);
}

#[test]
fn ticker_joins_the_assets_with_a_slash() {
    let b = book(vec![], vec![]);
    assert_eq!(b.ticker(), "SOL/USDT");
}

#[test]
fn match_ask_trades_with_bids_at_or_above_the_limit() {
    let mut b = book(
        vec![],
        vec![
            resting(100, 5, 1, "u1", OrderType::BID),
            resting(90, 5, 2, "u2", OrderType::BID),
            resting(110, 3, 3, "u3", OrderType::BID),
        ],
    );
    let (fills, executed) = b.match_ask(resting(95, 6, 9, "seller", OrderType::ASK));
    assert_eq!(executed, 6);
    assert_eq!(
        summary(&fills),
        vec![(100, 5, 11, "u1".to_string(), 1), (110, 1, 12, "u3".to_string(), 3)]
    );
    // the first bid is complete and leaves; the others stay, in order
    assert_eq!(side_summary(&b.bids), vec![(2, 90, 5, 0), (3, 110, 3, 1)]);
    assert_eq!(b.last_traded_id, 12);
    assert_eq!(b.current_price, 110);
    assert!(b.asks.is_empty());
}

#[test]
fn match_ask_trade_quantities_add_up_to_the_executed_quantity() {
    let mut b = book(
        vec![],
        vec![resting(10, 2, 1, "a", OrderType::BID), resting(11, 2, 2, "b", OrderType::BID)],
    );
    let (fills, executed) = b.match_ask(resting(10, 3, 5, "s", OrderType::ASK));
    let total: u32 = fills.iter().map(|f| f.quantity).sum();
    assert_eq!(total, executed);
    assert_eq!(executed, 3);
}

#[test]
fn match_ask_keeps_trading_at_zero_once_the_order_is_done() {
    let mut b = book(
        vec![],
        vec![resting(100, 4, 1, "a", OrderType::BID), resting(100, 4, 2, "b", OrderType::BID)],
    );
    let (fills, executed) = b.match_ask(resting(100, 4, 3, "s", OrderType::ASK));
    assert_eq!(executed, 4);
    assert_eq!(
        summary(&fills),
        vec![(100, 4, 11, "a".to_string(), 1), (100, 0, 12, "b".to_string(), 2)]
    );
    assert_eq!(side_summary(&b.bids), vec![(2, 100, 4, 0)]);
}

#[test]
fn match_bid_trades_record_their_own_quantity() {
    let mut b = book(
        vec![resting(100, 3, 1, "a", OrderType::ASK), resting(101, 4, 2, "b", OrderType::ASK)],
        vec![],
    );
    let (fills, executed) = b.match_bid(resting(105, 5, 3, "buyer", OrderType::BID));
    assert_eq!(executed, 5);
    assert_eq!(
        summary(&fills),
        vec![(100, 3, 11, "a".to_string(), 1), (101, 2, 12, "b".to_string(), 2)]
    );
    assert_eq!(side_summary(&b.asks), vec![(2, 101, 4, 2)]);
    assert_eq!(b.current_price, 101);
}

#[test]
fn match_bid_ignores_asks_above_the_limit() {
    let mut b = book(vec![resting(120, 3, 1, "a", OrderType::ASK)], vec![]);
    let (fills, executed) = b.match_bid(resting(100, 5, 3, "buyer", OrderType::BID));
    assert!(fills.is_empty());
    assert_eq!(executed, 0);
    assert_eq!(side_summary(&b.asks), vec![(1, 120, 3, 0)]);
    assert_eq!(b.last_traded_id, 10);
    assert_eq!(b.current_price, 0);
}

#[test]
fn completed_order_takes_orders_with_its_id_along() {
    let mut b = book(
        vec![],
        vec![resting(100, 2, 7, "a", OrderType::BID), resting(50, 9, 7, "b", OrderType::BID)],
    );
    let (_fills, executed) = b.match_ask(resting(100, 2, 1, "s", OrderType::ASK));
    assert_eq!(executed, 2);
    assert!(b.bids.is_empty());
}

#[test]
fn empty_orders_leave_the_book_on_the_next_match() {
    let mut b = book(vec![], vec![resting(1, 0, 4, "a", OrderType::BID)]);
    let (fills, executed) = b.match_ask(resting(5, 1, 1, "s", OrderType::ASK));
    assert!(fills.is_empty());
    assert_eq!(executed, 0);
    assert!(b.bids.is_empty());
}

#[test]
fn add_order_sends_bids_to_the_asks_and_asks_to_the_bids() {
    let mut b = book(
        vec![resting(100, 3, 1, "a", OrderType::ASK)],
        vec![resting(90, 3, 2, "b", OrderType::BID)],
    );
    let (fills, executed) = b.add_order(resting(100, 1, 3, "c", OrderType::BID));
    assert_eq!(executed, 1);
    assert_eq!(summary(&fills), vec![(100, 1, 11, "a".to_string(), 1)]);
    assert_eq!(side_summary(&b.bids), vec![(2, 90, 3, 0)]);
    let (fills, executed) = b.add_order(resting(80, 3, 4, "d", OrderType::ASK));
    assert_eq!(executed, 3);
    assert_eq!(summary(&fills), vec![(90, 3, 12, "b".to_string(), 2)]);
    assert!(b.bids.is_empty());
    assert_eq!(side_summary(&b.asks), vec![(1, 100, 3, 1)]);
}

#[test]
fn cancel_removes_only_that_users_orders_on_that_side() {
    let mut b = book(
        vec![
            resting(1, 1, 1, "x", OrderType::ASK),
            resting(2, 1, 2, "y", OrderType::ASK),
            resting(3, 1, 3, "x", OrderType::ASK),
        ],
        vec![resting(1, 1, 4, "x", OrderType::BID)],
    );
    b.get_cancel_order("x", OrderType::ASK);
    assert_eq!(side_summary(&b.asks), vec![(2, 2, 1, 0)]);
    assert_eq!(side_summary(&b.bids), vec![(4, 1, 1, 0)]);
    b.get_cancel_order("x", OrderType::ASK);
    assert_eq!(side_summary(&b.asks), vec![(2, 2, 1, 0)]);
    b.get_cancel_order("x", OrderType::BID);
    assert!(b.bids.is_empty());
}

#[test]
fn depth_sums_quantities_per_price_in_order_of_appearance() {
    let mut b = book(
        vec![resting(7, 1, 1, "a", OrderType::ASK)],
        vec![
            resting(100, 2, 2, "a", OrderType::BID),
            resting(101, 3, 3, "b", OrderType::BID),
            resting(100, 4, 4, "c", OrderType::BID),
        ],
    );
    let (bids, asks) = b.get_depth();
    assert_eq!(bids, vec![(100, 6), (101, 3)]);
    assert_eq!(asks, vec![(7, 1)]);
    let total: u32 = bids.iter().map(|l| l.1).sum();
    assert_eq!(total, 9);
    assert_eq!(b.bids.len(), 3);
}

#[test]
fn depth_of_an_empty_book_is_empty() {
    let mut b = book(vec![], vec![]);
    let (bids, asks) = b.get_depth();
    assert!(bids.is_empty());
    assert!(asks.is_empty());
}

#[test]
fn open_order_lookup_leaves_the_book_alone() {
    let mut b = book(
        vec![resting(1, 1, 1, "x", OrderType::ASK)],
        vec![resting(1, 1, 2, "x", OrderType::BID)],
    );
    b.get_open_order("x");
    assert_eq!(side_summary(&b.asks), vec![(1, 1, 1, 0)]);
    assert_eq!(side_summary(&b.bids), vec![(2, 1, 1, 0)]);
}

#[test]
fn fits_order_detects_counter_overflow() {
    let mut b = book(vec![], vec![resting(10, 5, 1, "a", OrderType::BID)]);
    assert!(b.fits_order(OrderType::ASK, 10, 5));
    b.bids[0].filled_qty = u32::MAX - 2;
    assert!(!b.fits_order(OrderType::ASK, 10, 5));
    assert!(b.fits_order(OrderType::ASK, 10, 2));
    assert!(b.fits_order(OrderType::BID, 10, 5));
    b.last_traded_id = u32::MAX;
    assert!(!b.fits_order(OrderType::ASK, 10, 1));
    assert!(b.fits_order(OrderType::ASK, 11, 1));
}

#[test]
fn what_a_buy_executes_is_what_the_asks_gain() {
    let mut b = book(
        vec![
            resting(100, 3, 1, "a", OrderType::ASK),
            resting(102, 4, 2, "b", OrderType::ASK),
            resting(101, 9, 3, "c", OrderType::ASK),
        ],
        vec![],
    );
    let before: u32 = b.asks.iter().map(|o| o.filled_qty).sum();
    let (_fills, executed) = b.match_bid(resting(101, 10, 4, "buyer", OrderType::BID));
    // the first ask is complete and has left the book with its 3 units
    let after: u32 = b.asks.iter().map(|o| o.filled_qty).sum::<u32>() + 3;
    assert_eq!(executed, 10);
    assert_eq!(after - before, executed);
    assert_eq!(side_summary(&b.asks), vec![(2, 102, 4, 0), (3, 101, 9, 7)]);
}

#[test]
fn match_bid_worked_example() {
    let mut b = order_book::new(
        vec![
            resting(100, 2, 1, "a", OrderType::ASK),
            resting(110, 5, 2, "b", OrderType::ASK),
            resting(150, 5, 3, "c", OrderType::ASK),
        ],
        vec![],
        "SOL".to_string(),
        "USDT".to_string(),
        0,
        0,
    );
    let (fills, executed) = b.match_bid(resting(120, 4, 9, "buyer", OrderType::BID));
    assert_eq!(executed, 4);
    assert_eq!(
        summary(&fills),
        vec![(100, 2, 1, "a".to_string(), 1), (110, 2, 2, "b".to_string(), 2)]
    );
    let total: u32 = fills.iter().map(|f| f.quantity).sum();
    assert_eq!(total, executed);
    assert_eq!(side_summary(&b.asks), vec![(2, 110, 5, 2), (3, 150, 5, 0)]);
    assert_eq!(b.last_traded_id, 2);
    assert_eq!(b.current_price, 110);
}
