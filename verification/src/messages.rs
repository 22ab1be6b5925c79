//! The messages that travel between the HTTP front end and the engine.
use vstd::prelude::*;

use crate::text::{dec_chars, decimal_string};

verus! {

broadcast use vstd::string::group_string_axioms;

/// A request to place an order on `market` (such as `SOL/USDT`).
/// `side` is `BUY` for a bid; anything else is an ask.
#[derive(Debug)]
pub struct CreateOrderData {
    pub market: String,
    pub price: u32,
    pub quantity: u32,
    pub user_id: Option<u32>,
    pub side: String,
}

/// A request for the depth of a market.
#[derive(Debug)]
pub struct GetDepthData {
    pub market_pair: String,
}

/// What the front end asks of the engine.
#[derive(Debug)]
pub enum MessageToEngine {
    CreateOrder(CreateOrderData),
    GetDepth(GetDepthData),
}

/// An order as the engine's queue carries it.
#[derive(Debug)]
pub struct Order {
    pub market_pair: String,
    pub price: u32,
    pub quantity: u32,
    pub user_id: Option<u32>,
    pub side: String,
}

/// An order request with its type.
#[derive(Debug)]
pub struct OrderPayload {
    pub order_type: String,
    pub market_pair: String,
    pub price: u32,
    pub quantity: u32,
    pub user_id: Option<u32>,
    pub side: String,
}

/// An order request whose numbers are still text.
#[allow(non_camel_case_types)]
#[derive(Debug)]
pub struct message_from_api {
    pub market_pair: String,
    pub price: String,
    pub quantity: String,
    pub user_id: Option<u32>,
    pub side: String,
}

/// The user a reply is addressed to: the order's user, or 0.
pub open spec fn reply_user_spec(m: MessageToEngine) -> u32 {
    match m {
        MessageToEngine::CreateOrder(d) => match d.user_id {
            Some(u) => u,
            None => 0,
        },
        MessageToEngine::GetDepth(_) => 0,
    }
}

impl MessageToEngine {
    /// The user a reply to this message is addressed to (0 when unknown).
    pub fn reply_user_id(&self) -> (u: u32)
        ensures
            u == reply_user_spec(*self),
    {
        match self {
            MessageToEngine::CreateOrder(msg) => match msg.user_id {
                Some(u) => u,
                None => 0,
            },
            MessageToEngine::GetDepth(_) => 0,
        }
    }
}

/// The message for an order submitted by the user with token id
/// `claim_id`: the order, with its user set to that id.
pub fn order_message(d: CreateOrderData, claim_id: i32) -> (m: MessageToEngine)
    ensures
        m matches MessageToEngine::CreateOrder(o) && o.user_id == Some(claim_id as u32) && o.market
            == d.market && o.price == d.price && o.quantity == d.quantity && o.side == d.side,
{
    let CreateOrderData { market, price, quantity, user_id: _, side } = d;
    MessageToEngine::CreateOrder(CreateOrderData { market, price, quantity, user_id: Some(claim_id as u32), side })
}

/// The reply channel suffix: the low 16 bits of `nanos ^ user_id`.
pub open spec fn channel_suffix(user_id: u32, nanos: u32) -> u32 {
    (nanos ^ user_id) & 0xFFFF
}

/// The reply channel name: `millis_nanos_suffix`.
pub open spec fn channel_id_spec(user_id: u32, millis: u128, nanos: u32) -> Seq<char> {
    dec_chars(millis as nat) + seq!['_'] + dec_chars(nanos as nat) + seq!['_'] + dec_chars(
        channel_suffix(user_id, nanos) as nat,
    )
}

/// The name of the channel on which the engine answers a request of
/// `user_id`, made from the time (milliseconds since the epoch, and the
/// nanoseconds within the current second).
pub fn time_based_id(user_id: u32, millis: u128, nanos: u32) -> (id: String)
    ensures
        id@ == channel_id_spec(user_id, millis, nanos),
{
    let suffix: u32 = (nanos ^ user_id) & 0xFFFF;
    let mut id = decimal_string(millis);
    let a = decimal_string(nanos as u128);
    let b = decimal_string(suffix as u128);
    proof {
        reveal_strlit("_");
    }
    id.append("_");
    id.append(a.as_str());
    id.append("_");
    id.append(b.as_str());
    id
}

} // verus!
