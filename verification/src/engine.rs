//! The engine: one order book per market, and the routing of requests to them.
use vstd::prelude::*;

use std::collections::hash_map::DefaultHasher;
use std::hash::Hash;
use std::hash::Hasher;
use std::time::{SystemTime, UNIX_EPOCH};

use crate::messages::{CreateOrderData, MessageToEngine};
use crate::order_book::{filled, order, order_added, order_book, order_fits, ticker_of, OrderType};
use crate::text::{
    contains_char, dec_chars, decimal_string, lemma_parse_dec_chars, parse_u32, parse_u32_spec, split_first,
    split_pair, split_second,
};

verus! {

broadcast use vstd::string::group_string_axioms;

/// All the markets the engine trades.
#[derive(Debug)]
pub struct Engine {
    pub orderbooks: Vec<order_book>,
}

/// Hashes the pair `(user_id, timestamp)` into `hasher` through
/// `Hash for (&str, i64)` (std). The bytes it feeds are not portable across
/// platforms (integers go in native byte order), so nothing is claimed of
/// the hasher's new state.
#[verifier::external_body]
fn hash_user_and_time(hasher: &mut DefaultHasher, user_id: &str, timestamp: i64) {
    (user_id, timestamp).hash(hasher);
}

/// The time since the Unix epoch as `(seconds, nanoseconds)`, from
/// `SystemTime::now().duration_since(UNIX_EPOCH)` (std); `None` when the
/// clock reads before the epoch. It depends on the clock, so only the range
/// of the nanoseconds is claimed.
#[verifier::external_body]
fn time_since_epoch() -> (r: Option<(u64, u32)>)
    ensures
        r matches Some(t) ==> t.1 < 1_000_000_000,
{
    match SystemTime::now().duration_since(UNIX_EPOCH) {
        Ok(d) => Some((d.as_secs(), d.subsec_nanos())),
        Err(_) => None,
    }
}

/// The Unix timestamp of the UTC time `secs` seconds and `nsecs`
/// nanoseconds after the epoch: `chrono::DateTime::<Utc>::from_timestamp`
/// followed by `timestamp()`. chrono gives `None` for times out of its range,
/// and the timestamp of a time it made from `secs` is `secs`.
#[verifier::external_body]
fn utc_timestamp(secs: i64, nsecs: u32) -> (r: Option<i64>)
    ensures
        r matches Some(t) ==> t == secs,
{
    match chrono::DateTime::<chrono::Utc>::from_timestamp(secs, nsecs) {
        Some(t) => Some(t.timestamp()),
        None => None,
    }
}

/// The current UTC time in seconds since the epoch, as `Utc::now()` reads
/// it; `None` where `Utc::now()` would panic (a clock before the epoch, or
/// a time out of chrono's range).
fn utc_now_timestamp() -> Option<i64> {
    match time_since_epoch() {
        None => None,
        Some((secs, nsecs)) => {
            if secs > 9223372036854775807u64 {
                None
            } else {
                utc_timestamp(secs as i64, nsecs)
            }
        },
    }
}

/// The reply to an order placed while the clock cannot be read.
pub open spec fn clock_error() -> Seq<char> {
    "system time before Unix epoch"@
}

/// `BUY` places a bid; any other side places an ask.
pub open spec fn side_type(side: Seq<char>) -> OrderType {
    if side == seq!['B', 'U', 'Y'] {
        OrderType::BID
    } else {
        OrderType::ASK
    }
}

/// The position of the first book trading `market` (the number of books
/// when there is none).
pub open spec fn book_index(books: Seq<order_book>, market: Seq<char>) -> nat
    decreases books.len(),
{
    if books.len() == 0 {
        0
    } else if ticker_of(books[0]) == market {
        0
    } else {
        1 + book_index(books.drop_first(), market)
    }
}

pub proof fn lemma_book_index(books: Seq<order_book>, market: Seq<char>)
    ensures
        book_index(books, market) <= books.len(),
        book_index(books, market) < books.len() ==> ticker_of(books[book_index(books, market) as int]) == market,
        forall|j: int| 0 <= j < book_index(books, market) ==> ticker_of(#[trigger] books[j]) != market,
    decreases books.len(),
{
    if books.len() > 0 && ticker_of(books[0]) != market {
        lemma_book_index(books.drop_first(), market);
        assert forall|j: int| 0 <= j < book_index(books, market) implies ticker_of(#[trigger] books[j]) != market by {
            if j > 0 {
                assert(books[j] == books.drop_first()[j - 1]);
            }
        }
    }
}

/// Whether `o` is the fresh order an engine makes for a request.
pub open spec fn is_fresh_order(o: order, price: u32, qty: u32, order_id: u32, t: OrderType, user: Seq<char>) -> bool {
    &&& o.price == price
    &&& o.quantity == qty
    &&& o.filled_qty == 0
    &&& o.order_id == order_id
    &&& o.order_type == t
    &&& o.user_id@ == user
}

/// The reply to an order for a market that has no book yet.
pub open spec fn market_not_found() -> Seq<char> {
    seq!['M', 'a', 'r', 'k', 'e', 't', ' ', 'n', 'o', 't', ' ', 'f', 'o', 'u', 'n', 'd']
}

/// The engine can take an order for `market`: when the market has a book,
/// the user id is a number and the match keeps its counters within `u32`;
/// otherwise the market name has a `/` to split into its assets.
pub open spec fn can_place(
    books: Seq<order_book>,
    market: Seq<char>,
    price: u32,
    qty: u32,
    user: Seq<char>,
    side: Seq<char>,
) -> bool {
    let i = book_index(books, market);
    if i < books.len() {
        parse_u32_spec(user) is Some && order_fits(books[i as int], side_type(side), price, qty)
    } else {
        market.contains('/')
    }
}

/// `new` and `r` are the books and the reply after an order (`price`,
/// `qty`, `side`) of `user` with id `order_id` was placed on `market`.
/// When the market has a book, the order is matched there and the reply
/// is the trades, the executed quantity and the user id. Otherwise a new
/// book is opened holding the order among its bids (whatever its side),
/// and the reply is the error `Market not found`.
pub open spec fn order_placed(
    old: Seq<order_book>,
    new: Seq<order_book>,
    market: Seq<char>,
    price: u32,
    qty: u32,
    user: Seq<char>,
    side: Seq<char>,
    order_id: u32,
    r: Result<(Vec<filled>, u32, u32), String>,
) -> bool {
    let t = side_type(side);
    let i = book_index(old, market);
    if i < old.len() {
        &&& new.len() == old.len()
        &&& forall|j: int| 0 <= j < old.len() && j != i ==> new[j] == old[j]
        &&& r is Ok
        &&& order_added(old[i as int], new[i as int], t, price, qty, r->Ok_0.0@, r->Ok_0.1)
        &&& parse_u32_spec(user) == Some(r->Ok_0.2)
    } else {
        let b = new[old.len() as int];
        &&& new.len() == old.len() + 1
        &&& forall|j: int| 0 <= j < old.len() ==> new[j] == old[j]
        &&& b.bids@.len() == 1
        &&& is_fresh_order(b.bids@[0], price, qty, order_id, t, user)
        &&& b.asks@.len() == 0
        &&& b.base_asset@ == split_first(market, '/')
        &&& b.quote_asset@ == split_second(market, '/')
        &&& b.last_traded_id == 0
        &&& b.current_price == 0
        &&& r is Err
        &&& r->Err_0@ == market_not_found()
    }
}

/// The type of an order of side `side`: `BUY` is a bid, anything else an ask.
fn side_type_of(side: &String) -> (t: OrderType)
    ensures
        t == side_type(side@),
{
    let buy = String::from_str("BUY");
    proof {
        reveal_strlit("BUY");
        assert(buy@ =~= seq!['B', 'U', 'Y']);
    }
    if *side == buy {
        OrderType::BID
    } else {
        OrderType::ASK
    }
}

/// The engine can handle `m`: an order names its user and can be placed
/// (see `can_place`); a depth request always can.
pub open spec fn can_process(books: Seq<order_book>, m: MessageToEngine) -> bool {
    match m {
        MessageToEngine::CreateOrder(d) => d.user_id is Some && can_place(
            books,
            d.market@,
            d.price,
            d.quantity,
            dec_chars(d.user_id->0 as nat),
            d.side@,
        ),
        MessageToEngine::GetDepth(_) => true,
    }
}

/// `new` and `r` are the books and the reply after an order given as text
/// (`price_text`, `qty_text`) was handled: either the clock could not be
/// read, the books are unchanged and the reply is that error; or the order
/// was placed with some id, as `order_placed` describes.
pub open spec fn order_created(
    old: Seq<order_book>,
    new: Seq<order_book>,
    market: Seq<char>,
    price_text: Seq<char>,
    qty_text: Seq<char>,
    user: Seq<char>,
    side: Seq<char>,
    r: Result<(Vec<filled>, u32, u32), String>,
) -> bool {
    ||| new == old && r is Err && r->Err_0@ == clock_error()
    ||| exists|id: u32|
        #[trigger] order_placed(
            old,
            new,
            market,
            parse_u32_spec(price_text)->0,
            parse_u32_spec(qty_text)->0,
            user,
            side,
            id,
            r,
        )
}

impl Engine {
    /// Whether `process_order` can handle `message` in the current state.
    pub fn accepts(&self, message: &MessageToEngine) -> (r: bool)
        ensures
            r == can_process(self.orderbooks@, *message),
    {
        match message {
            MessageToEngine::CreateOrder(d) => match d.user_id {
                None => false,
                Some(uid) => {
                    proof {
                        lemma_parse_dec_chars(uid);
                    }
                    match self.find_book(&d.market) {
                        Some(i) => {
                            let t = side_type_of(&d.side);
                            self.orderbooks[i].fits_order(t, d.price, d.quantity)
                        },
                        None => contains_char(d.market.as_str(), '/'),
                    }
                },
            },
            MessageToEngine::GetDepth(_) => true,
        }
    }

    /// The position of the first book trading `market`.
    fn find_book(&self, market: &String) -> (idx: Option<usize>)
        ensures
            match idx {
                Some(i) => i == book_index(self.orderbooks@, market@) && i < self.orderbooks@.len(),
                None => book_index(self.orderbooks@, market@) == self.orderbooks@.len(),
            },
    {
        let ghost books = self.orderbooks@;
        proof {
            lemma_book_index(books, market@);
        }
        let mut i: usize = 0;
        while i < self.orderbooks.len()
            invariant
                0 <= i <= self.orderbooks@.len(),
                books == self.orderbooks@,
                forall|j: int| 0 <= j < i ==> ticker_of(#[trigger] books[j]) != market@,
                book_index(books, market@) <= books.len(),
                book_index(books, market@) < books.len() ==> ticker_of(books[book_index(books, market@) as int]) == market@,
                forall|j: int| 0 <= j < book_index(books, market@) ==> ticker_of(#[trigger] books[j]) != market@,
            decreases self.orderbooks.len() - i,
        {
            let t = self.orderbooks[i].ticker();
            if t == *market {
                let ghost k = book_index(books, market@);
                assert(k == i) by {
                    if k < i {
                        assert(ticker_of(books[k as int]) != market@);
                    }
                }
                return Some(i);
            }
            i = i + 1;
        }
        None
    }

    /// The id of a new order of `user_id`: the low 32 bits of the
    /// `DefaultHasher` digest of the user and the current time (seconds);
    /// `None` when the clock cannot be read. The engine does not change.
    fn generate_order_id(&mut self, user_id: &str) -> (id: Option<u32>)
        ensures
            *final(self) == *old(self),
    {
        match utc_now_timestamp() {
            None => None,
            Some(now) => {
                let mut hasher = DefaultHasher::new();
                hash_user_and_time(&mut hasher, user_id, now);
                let h = hasher.finish();
                Some(h as u32)
            },
        }
    }

    /// Places an order with a given id: matches it in the book of its
    /// market, or opens that market's book with it (see `order_placed`).
    pub fn place_order_with_id(
        &mut self,
        market: String,
        price: u32,
        quantity: u32,
        user_id: String,
        side: String,
        order_id: u32,
    ) -> (r: Result<(Vec<filled>, u32, u32), String>)
        requires
            can_place(old(self).orderbooks@, market@, price, quantity, user_id@, side@),
        ensures
            order_placed(
                old(self).orderbooks@,
                final(self).orderbooks@,
                market@,
                price,
                quantity,
                user_id@,
                side@,
                order_id,
                r,
            ),
    {
        let order_type = side_type_of(&side);
        match self.find_book(&market) {
            Some(idx) => {
                let placed = order {
                    price,
                    quantity,
                    filled_qty: 0,
                    order_id,
                    order_type,
                    user_id: user_id.clone(),
                };
                let ghost before = self.orderbooks@;
                let mut book = self.orderbooks.remove(idx);
                let (fills, executed) = book.add_order(placed);
                self.orderbooks.insert(idx, book);
                assert(self.orderbooks@ =~= before.update(idx as int, book));
                let uid = parse_u32(user_id.as_str());
                let u = match uid {
                    Some(u) => u,
                    None => 0,
                };
                Ok((fills, executed, u))
            },
            None => {
                let new_order = order {
                    price,
                    quantity,
                    filled_qty: 0,
                    order_id,
                    order_type,
                    user_id,
                };
                let (base_asset, quote_asset) = split_pair(market.as_str(), '/');
                let book = order_book {
                    bids: vec![new_order],
                    asks: Vec::new(),
                    base_asset,
                    quote_asset,
                    last_traded_id: 0,
                    current_price: 0,
                };
                self.orderbooks.push(book);
                let e = String::from_str("Market not found");
                proof {
                    reveal_strlit("Market not found");
                    assert(e@ =~= market_not_found());
                }
                Err(e)
            },
        }
    }

    /// Places an order whose numbers are still text: the price and the
    /// quantity are parsed, the order id comes from the user and the clock
    /// (see `order_created`).
    fn create_order(
        &mut self,
        market: String,
        price: String,
        quantity: String,
        user_id: String,
        side: String,
    ) -> (r: Result<(Vec<filled>, u32, u32), String>)
        requires
            parse_u32_spec(price@) is Some,
            parse_u32_spec(quantity@) is Some,
            can_place(
                old(self).orderbooks@,
                market@,
                parse_u32_spec(price@)->0,
                parse_u32_spec(quantity@)->0,
                user_id@,
                side@,
            ),
        ensures
            order_created(
                old(self).orderbooks@,
                final(self).orderbooks@,
                market@,
                price@,
                quantity@,
                user_id@,
                side@,
                r,
            ),
    {
        let order_id = match self.generate_order_id(user_id.as_str()) {
            Some(id) => id,
            None => {
                let e = String::from_str("system time before Unix epoch");
                return Err(e);
            },
        };
        let p = match parse_u32(price.as_str()) {
            Some(p) => p,
            None => 0,
        };
        let q = match parse_u32(quantity.as_str()) {
            Some(q) => q,
            None => 0,
        };
        let ghost old_books = self.orderbooks@;
        let ghost (m, u, sd) = (market@, user_id@, side@);
        let r = self.place_order_with_id(market, p, q, user_id, side, order_id);
        assert(order_placed(old_books, self.orderbooks@, m, p, q, u, sd, order_id, r));
        r
    }

    /// Handles a request from the front end. An order is placed with its
    /// numbers and user id written out in decimal (see `create_order`); a
    /// depth request is answered with no trades.
    pub fn process_order(&mut self, message: MessageToEngine) -> (r: Result<(Vec<filled>, u32, u32), String>)
        requires
            can_process(old(self).orderbooks@, message),
        ensures
            match message {
                MessageToEngine::CreateOrder(d) => order_created(
                    old(self).orderbooks@,
                    final(self).orderbooks@,
                    d.market@,
                    dec_chars(d.price as nat),
                    dec_chars(d.quantity as nat),
                    dec_chars(d.user_id->0 as nat),
                    d.side@,
                    r,
                ) && (r is Ok ==> r->Ok_0.2 == d.user_id->0),
                MessageToEngine::GetDepth(_) => final(self).orderbooks@ == old(self).orderbooks@
                    && r is Ok && r->Ok_0.0@.len() == 0 && r->Ok_0.1 == 0 && r->Ok_0.2 == 0,
            },
    {
        match message {
            MessageToEngine::CreateOrder(msg) => {
                let CreateOrderData { market, price, quantity, user_id, side } = msg;
                let uid = match user_id {
                    Some(u) => u,
                    None => 0,
                };
                let user = decimal_string(uid as u128);
                let price_text = decimal_string(price as u128);
                let quantity_text = decimal_string(quantity as u128);
                proof {
                    lemma_parse_dec_chars(uid);
                    lemma_parse_dec_chars(price);
                    lemma_parse_dec_chars(quantity);
                }
                self.create_order(market, price_text, quantity_text, user, side)
            },
            MessageToEngine::GetDepth(_msg) => Ok((Vec::new(), 0, 0)),
        }
    }
}

/// `book_index` is the one position before which no book trades `market`
/// and at which one does (or which is the end).
pub proof fn lemma_book_index_unique(books: Seq<order_book>, market: Seq<char>, k: int)
    requires
        0 <= k <= books.len(),
        forall|j: int| 0 <= j < k ==> ticker_of(#[trigger] books[j]) != market,
        k < books.len() ==> ticker_of(books[k]) == market,
    ensures
        book_index(books, market) == k,
{
    lemma_book_index(books, market);
    let f = book_index(books, market) as int;
    if f < k {
        assert(ticker_of(books[f]) != market);
    } else if k < f {
        assert(ticker_of(books[k]) != market);
    }
}

/// Placing an order never removes a book nor changes the market of one; it
/// adds at most one book.
pub proof fn law_books_keep_their_markets(
    old: Seq<order_book>,
    new: Seq<order_book>,
    market: Seq<char>,
    price: u32,
    qty: u32,
    user: Seq<char>,
    side: Seq<char>,
    order_id: u32,
    r: Result<(Vec<filled>, u32, u32), String>,
)
    requires
        order_placed(old, new, market, price, qty, user, side, order_id, r),
    ensures
        old.len() <= new.len() <= old.len() + 1,
        forall|j: int| 0 <= j < old.len() ==> ticker_of(#[trigger] new[j]) == ticker_of(old[j]),
{
    let i = book_index(old, market) as int;
    assert forall|j: int| 0 <= j < old.len() implies ticker_of(#[trigger] new[j]) == ticker_of(old[j]) by {
        if j != i {
            assert(new[j] == old[j]);
        }
    }
}

/// The pieces around the one `/` of `a/b` are `a` and `b`.
pub proof fn lemma_split_single_slash(a: Seq<char>, b: Seq<char>)
    requires
        !a.contains('/'),
        !b.contains('/'),
    ensures
        split_first(a + seq!['/'] + b, '/') == a,
        split_second(a + seq!['/'] + b, '/') == b,
{
    let m = a + seq!['/'] + b;
    assert forall|j: int| 0 <= j < a.len() implies m[j] != '/' by {
        assert(m[j] == a[j]);
        if a[j] == '/' {
            assert(a.contains('/'));
        }
    }
    assert(m[a.len() as int] == '/');
    crate::text::lemma_first_index_unique(m, '/', a.len() as int);
    assert(m.take(a.len() as int) =~= a);
    let rest = m.skip(a.len() as int + 1);
    assert(rest =~= b);
    assert forall|j: int| 0 <= j < b.len() implies rest[j] != '/' by {
        if b[j] == '/' {
            assert(b.contains('/'));
        }
    }
    crate::text::lemma_first_index_unique(rest, '/', b.len() as int);
    assert(rest.take(b.len() as int) =~= b);
}

/// Once an order opened the book of a market written `base/quote` (one
/// `/`), later orders for that market find that book.
pub proof fn law_opened_market_is_found(
    old: Seq<order_book>,
    new: Seq<order_book>,
    base: Seq<char>,
    quote: Seq<char>,
    price: u32,
    qty: u32,
    user: Seq<char>,
    side: Seq<char>,
    order_id: u32,
    r: Result<(Vec<filled>, u32, u32), String>,
)
    requires
        !base.contains('/'),
        !quote.contains('/'),
        order_placed(old, new, base + seq!['/'] + quote, price, qty, user, side, order_id, r),
    ensures
        book_index(new, base + seq!['/'] + quote) < new.len(),
{
    let market = base + seq!['/'] + quote;
    lemma_book_index(old, market);
    let i = book_index(old, market) as int;
    if i == old.len() {
        lemma_split_single_slash(base, quote);
        assert(ticker_of(new[i]) =~= market);
        assert forall|j: int| 0 <= j < i implies ticker_of(#[trigger] new[j]) != market by {
            assert(new[j] == old[j]);
        }
        lemma_book_index_unique(new, market, i);
    } else {
        assert forall|j: int| 0 <= j < i implies ticker_of(#[trigger] new[j]) != market by {
            assert(new[j] == old[j]);
        }
        lemma_book_index_unique(new, market, i);
    }
}

/// An order whose price and quantity were written out in decimal is placed
/// with exactly those numbers: `process_order` handles an order as
/// `create_order` does its decimal texts.
pub proof fn law_decimal_texts_place_their_numbers(
    old: Seq<order_book>,
    new: Seq<order_book>,
    market: Seq<char>,
    price: u32,
    qty: u32,
    user: Seq<char>,
    side: Seq<char>,
    r: Result<(Vec<filled>, u32, u32), String>,
)
    ensures
        order_created(old, new, market, dec_chars(price as nat), dec_chars(qty as nat), user, side, r) <==> (
        (new == old && r is Err && r->Err_0@ == clock_error()) || exists|id: u32|
            #[trigger] order_placed(old, new, market, price, qty, user, side, id, r)),
{
    lemma_parse_dec_chars(price);
    lemma_parse_dec_chars(qty);
    assert(parse_u32_spec(dec_chars(price as nat))->0 == price);
    assert(parse_u32_spec(dec_chars(qty as nat))->0 == qty);
    if exists|id: u32| #[trigger] order_placed(old, new, market, price, qty, user, side, id, r) {
        let id = choose|id: u32| #[trigger] order_placed(old, new, market, price, qty, user, side, id, r);
        assert(order_placed(
            old,
            new,
            market,
            parse_u32_spec(dec_chars(price as nat))->0,
            parse_u32_spec(dec_chars(qty as nat))->0,
            user,
            side,
            id,
            r,
        ));
    }
}

} // verus!
