use exchange::engine::Engine;
use exchange::messages::{order_message, time_based_id, CreateOrderData, GetDepthData, MessageToEngine};
use exchange::order_book::{order, order_book, OrderType};

fn create(market: &str, price: u32, quantity: u32, user: u32, side: &str) -> MessageToEngine {
    MessageToEngine::CreateOrder(CreateOrderData {
        market: market.to_string(),
        price,
        quantity,
        user_id: Some(user),
        side: side.to_string(),
    })
}

#[test]
fn first_order_of_a_market_opens_its_book() {
    let mut engine = Engine { orderbooks: vec![] };
    let r = engine.process_order(create("SOL/USDT", 180, 1, 4, "BUY"));
    assert_eq!(r.err(), Some("Market not found".to_string()));
    assert_eq!(engine.orderbooks.len(), 1);
    let b = &engine.orderbooks[0];
    assert_eq!(b.base_asset, "SOL");
    assert_eq!(b.quote_asset, "USDT");
    assert_eq!(b.ticker(), "SOL/USDT");
    assert_eq!(b.bids.len(), 1);
    assert!(b.asks.is_empty());
    assert_eq!(b.bids[0].price, 180);
    assert_eq!(b.bids[0].quantity, 1);
    assert_eq!(b.bids[0].filled_qty, 0);
    assert_eq!(b.bids[0].user_id, "4");
    assert_eq!(b.bids[0].order_type, OrderType::BID);
    assert_eq!(b.last_traded_id, 0);
    assert_eq!(b.current_price, 0);
}

#[test]
fn an_opening_sell_order_also_rests_among_the_bids() {
    let mut engine = Engine { orderbooks: vec![] };
    let r = engine.process_order(create("ETH/USDT", 10, 2, 8, "SELL"));
    assert!(r.is_err());
    assert_eq!(engine.orderbooks[0].bids.len(), 1);
    assert_eq!(engine.orderbooks[0].bids[0].order_type, OrderType::ASK);
}

#[test]
fn orders_of_a_known_market_are_matched_in_its_book() {
    let mut engine = Engine { orderbooks: vec![] };
    let _ = engine.process_order(create("SOL/USDT", 180, 2, 4, "BUY"));
    let r = engine.process_order(create("SOL/USDT", 170, 1, 5, "SELL"));
    let (fills, executed, user) = r.unwrap();
    assert_eq!(executed, 1);
    assert_eq!(user, 5);
    assert_eq!(fills.len(), 1);
    assert_eq!(fills[0].price, 180);
    assert_eq!(fills[0].quantity, 1);
    assert_eq!(fills[0].trade_id, 1);
    assert_eq!(fills[0].other_user_id, "4");
    let b = &engine.orderbooks[0];
    assert_eq!(b.bids[0].filled_qty, 1);
    assert_eq!(b.current_price, 180);
    assert_eq!(engine.orderbooks.len(), 1);
}

#[test]
fn a_market_named_with_two_slashes_never_finds_its_book() {
    let mut engine = Engine { orderbooks: vec![] };
    let _ = engine.process_order(create("A/B/C", 1, 1, 1, "BUY"));
    let r = engine.process_order(create("A/B/C", 1, 1, 1, "BUY"));
    assert!(r.is_err());
    assert_eq!(engine.orderbooks.len(), 2);
    assert_eq!(engine.orderbooks[0].ticker(), "A/B");
}

#[test]
fn depth_requests_get_an_empty_answer() {
    let mut engine = Engine { orderbooks: vec![] };
    let r = engine.process_order(MessageToEngine::GetDepth(GetDepthData { market_pair: "SOL/USDT".to_string() }));
    let (fills, executed, user) = r.unwrap();
    assert!(fills.is_empty());
    assert_eq!(executed, 0);
    assert_eq!(user, 0);
    assert!(engine.orderbooks.is_empty());
}

#[test]
fn placing_with_a_given_id_uses_that_id() {
    let mut engine = Engine { orderbooks: vec![] };
    let r = engine.place_order_with_id("X/Y".to_string(), 3, 4, "12".to_string(), "BUY".to_string(), 77);
    assert!(r.is_err());
    assert_eq!(engine.orderbooks[0].bids[0].order_id, 77);
    let r = engine.place_order_with_id("X/Y".to_string(), 3, 1, "13".to_string(), "SELL".to_string(), 78);
    let (fills, executed, user) = r.unwrap();
    assert_eq!((executed, user), (1, 13));
    assert_eq!(fills[0].market_order_id, 77);
}

#[test]
fn reply_goes_to_the_orders_user() {
    assert_eq!(create("A/B", 1, 1, 9, "BUY").reply_user_id(), 9);
    let anonymous = MessageToEngine::CreateOrder(CreateOrderData {
        market: "A/B".to_string(),
        price: 1,
        quantity: 1,
        user_id: None,
        side: "BUY".to_string(),
    });
    assert_eq!(anonymous.reply_user_id(), 0);
    let depth = MessageToEngine::GetDepth(GetDepthData { market_pair: "A/B".to_string() });
    assert_eq!(depth.reply_user_id(), 0);
}

#[test]
fn channel_id_is_time_then_nanos_then_suffix() {
    assert_eq!(time_based_id(5, 1700000000123, 456789), "1700000000123_456789_63568");
    assert_eq!(time_based_id(0, 0, 0), "0_0_0");
    assert_eq!(time_based_id(u32::MAX, 1, 0), "1_0_65535");
}

#[test]
fn engine_books_can_be_built_directly() {
    let b = order_book::new(
        vec![order { price: 1, quantity: 1, filled_qty: 0, order_id: 1, order_type: OrderType::ASK, user_id: "u".to_string() }],
        vec![],
        "A".to_string(),
        "B".to_string(),
        0,
        0,
    );
    let mut engine = Engine { orderbooks: vec![b] };
    let r = engine.process_order(create("A/B", 2, 1, 3, "BUY"));
    let (fills, executed, user) = r.unwrap();
    assert_eq!((fills.len(), executed, user), (1, 1, 3));
    assert!(engine.orderbooks[0].asks.is_empty());
}

#[test]
fn engine_accepts_only_what_it_can_process() {
    let mut engine = Engine { orderbooks: vec![] };
    assert!(engine.accepts(&create("SOL/USDT", 1, 1, 1, "BUY")));
    assert!(!engine.accepts(&create("SOLUSDT", 1, 1, 1, "BUY")));
    let anonymous = MessageToEngine::CreateOrder(CreateOrderData {
        market: "A/B".to_string(),
        price: 1,
        quantity: 1,
        user_id: None,
        side: "BUY".to_string(),
    });
    assert!(!engine.accepts(&anonymous));
    assert!(engine.accepts(&MessageToEngine::GetDepth(GetDepthData { market_pair: "x".to_string() })));
    let _ = engine.process_order(create("SOL/USDT", 10, 1, 1, "BUY"));
    engine.orderbooks[0].last_traded_id = u32::MAX;
    // a sell at 10 would trade with the resting bid and overflow the trade id
    assert!(!engine.accepts(&create("SOL/USDT", 10, 1, 2, "SELL")));
    // a sell above the bid trades nothing
    assert!(engine.accepts(&create("SOL/USDT", 11, 1, 2, "SELL")));
    // a market without a book but without a slash cannot be opened
    assert!(!engine.accepts(&create("BTC", 1, 1, 2, "BUY")));
}

#[test]
fn order_message_sets_the_user_from_the_token() {
    let d = CreateOrderData {
        market: "SOL/USDT".to_string(),
        price: 180,
        quantity: 2,
        user_id: None,
        side: "BUY".to_string(),
    };
    match order_message(d, 42) {
        MessageToEngine::CreateOrder(o) => {
            assert_eq!(o.user_id, Some(42));
            assert_eq!(o.market, "SOL/USDT");
            assert_eq!((o.price, o.quantity), (180, 2));
            assert_eq!(o.side, "BUY");
        },
        other => panic!("unexpected {:?}", other),
    }
}

#[test]
fn new_orders_get_ids_from_the_clock() {
    let mut engine = Engine { orderbooks: vec![] };
    let _ = engine.process_order(create("SOL/USDT", 1, 1, 4, "BUY"));
    let _ = engine.process_order(create("ETH/USDT", 1, 1, 4, "BUY"));
    assert_eq!(engine.orderbooks.len(), 2);
}
