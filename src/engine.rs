use vstd::prelude::*;
use vstd::string::*;
use crate::orderbook::{book_added, Order, OrderBook, Price, Level};

verus! {

/// A market, named by its base and quote symbols (as in BTC/USD).
#[derive(Debug, Clone)]
pub struct TradingPair {
    base: String,
    quote: String,
}

impl TradingPair {
    pub closed spec fn spec_base(&self) -> Seq<char> {
        self.base@
    }

    pub closed spec fn spec_quote(&self) -> Seq<char> {
        self.quote@
    }

    pub fn new(base: String, quote: String) -> (r: TradingPair)
        ensures
            r.spec_base() == base@,
            r.spec_quote() == quote@,
    {
        TradingPair { base, quote }
    }

    /// The pair written as `BASE/QUOTE`.
    pub fn to_string(&self) -> (r: String)
        ensures
            r@ == self.spec_base() + seq!['/'] + self.spec_quote(),
    {
        let mut s = self.base.clone();
        s.append("/");
        s.append(self.quote.as_str());
        proof {
            reveal_strlit("/");
        }
        s
    }
}

impl PartialEq for TradingPair {
    fn eq(&self, other: &TradingPair) -> (r: bool) {
        self.base == other.base && self.quote == other.quote
    }
}

impl vstd::std_specs::cmp::PartialEqSpecImpl for TradingPair {
    open spec fn obeys_eq_spec() -> bool {
        true
    }

    open spec fn eq_spec(&self, other: &TradingPair) -> bool {
        pair_key(*self) == pair_key(*other)
    }
}

impl Eq for TradingPair {
}

/// What identifies a market: its two symbols.
pub open spec fn pair_key(p: TradingPair) -> (Seq<char>, Seq<char>) {
    (p.spec_base(), p.spec_quote())
}

/// Whether `book` holds no order on either side.
pub open spec fn is_empty_book(book: OrderBook) -> bool {
    book.wf() && book.ask_levels() == Seq::<Level>::empty() && book.bid_levels() == Seq::<Level>::empty()
}

/// Some entry of `markets` is the market of `key`.
pub open spec fn has_market(markets: Seq<(TradingPair, OrderBook)>, key: (Seq<char>, Seq<char>)) -> bool {
    exists|i: int| 0 <= i < markets.len() && pair_key(#[trigger] markets[i].0) == key
}

/// Routes orders to the order book of each market.
pub struct MatchingEngine {
    orderbooks: Vec<(TradingPair, OrderBook)>,
}

impl MatchingEngine {
    /// The markets with their books, in the order they were first added.
    pub closed spec fn markets(&self) -> Seq<(TradingPair, OrderBook)> {
        self.orderbooks@
    }

    /// No two entries share a pair, and every book is well formed.
    pub open spec fn wf(&self) -> bool {
        &&& forall|i: int, j: int|
            0 <= i < j < self.markets().len() ==> pair_key(#[trigger] self.markets()[i].0) != pair_key(
                #[trigger] self.markets()[j].0,
            )
        &&& forall|i: int| 0 <= i < self.markets().len() ==> (#[trigger] self.markets()[i]).1.wf()
    }

    pub fn new() -> (r: MatchingEngine)
        ensures
            r.wf(),
            r.markets().len() == 0,
    {
        MatchingEngine { orderbooks: Vec::new() }
    }

    /// The position of the market of `pair`, if there is one.
    fn find(&self, pair: &TradingPair) -> (r: Option<usize>)
        requires
            self.wf(),
        ensures
            r is None ==> !has_market(self.markets(), pair_key(*pair)),
            r matches Some(i) ==> i < self.markets().len() && pair_key(self.markets()[i as int].0) == pair_key(*pair),
    {
        let mut i: usize = 0;
        while i < self.orderbooks.len()
            invariant
                i <= self.markets().len(),
                forall|j: int| 0 <= j < i ==> pair_key(#[trigger] self.markets()[j].0) != pair_key(*pair),
            decreases self.markets().len() - i,
        {
            if self.orderbooks[i].0 == *pair {
                return Some(i);
            }
            i = i + 1;
        }
        None
    }

    /// Opens the market of `pair` with an empty book, replacing the book of
    /// that market if it is already open.
    pub fn add_market(&mut self, trading_pair: TradingPair)
        requires
            old(self).wf(),
        ensures
            final(self).wf(),
            has_market(old(self).markets(), pair_key(trading_pair)) ==> exists|i: int|
                0 <= i < old(self).markets().len() && pair_key(#[trigger] old(self).markets()[i].0) == pair_key(
                    trading_pair,
                ) && final(self).markets() == old(self).markets().update(i, (final(self).markets()[i].0, final(self).markets()[i].1))
                    && pair_key(final(self).markets()[i].0) == pair_key(trading_pair)
                    && is_empty_book(final(self).markets()[i].1),
            !has_market(old(self).markets(), pair_key(trading_pair)) ==> final(self).markets().len() == old(
                self,
            ).markets().len() + 1 && final(self).markets().drop_last() == old(self).markets()
                && pair_key(final(self).markets().last().0) == pair_key(trading_pair)
                && is_empty_book(final(self).markets().last().1),
    {
        let book = OrderBook::new();
        match self.find(&trading_pair) {
            Some(i) => {
                self.orderbooks[i] = (trading_pair, book);
            },
            None => {
                self.orderbooks.push((trading_pair, book));
                assert(self.markets().drop_last() == old(self).markets());
            },
        }
    }

    /// Rests `order` at `price` in the book of the market of `trading_pair`;
    /// fails, changing nothing, where that market is not open.
    pub fn place_limit_order(&mut self, trading_pair: TradingPair, price: Price, order: Order) -> (r: Result<(), String>)
        requires
            old(self).wf(),
        ensures
            final(self).wf(),
            r is Err == !has_market(old(self).markets(), pair_key(trading_pair)),
            r matches Err(e) ==> e@ == "No such market"@ && final(self).markets() == old(self).markets(),
            r is Ok ==> exists|i: int|
                0 <= i < old(self).markets().len() && pair_key(#[trigger] old(self).markets()[i].0) == pair_key(
                    trading_pair,
                ) && final(self).markets() == old(self).markets().update(i, (old(self).markets()[i].0, final(self).markets()[i].1))
                    && book_added(old(self).markets()[i].1, final(self).markets()[i].1, price, order),
    {
        match self.find(&trading_pair) {
            Some(i) => {
                self.orderbooks[i].1.add_order(price, order);
                Ok(())
            },
            None => Err(String::from_str("No such market")),
        }
    }
}

} // verus!
