//! The matching engine and the request logic of a small crypto exchange:
//! order books that match incoming bids and asks against resting orders,
//! an engine that routes orders to the book of their market, and the
//! checks the HTTP front end applies to logins and bearer tokens.
use vstd::prelude::*;

pub mod text;
pub mod order_book;
pub mod book_laws;
pub mod messages;
pub mod engine;
pub mod auth;

verus! {

} // verus!
