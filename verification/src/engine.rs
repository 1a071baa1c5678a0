//! The engine layer: trading pairs as lookup keys and the matching engine
//! that owns one order book per pair.

use vstd::prelude::*;
use vstd::string::StringExecFns;

use crate::orderbook::book_after_add;
use crate::orderbook::Order;
use crate::orderbook::OrderBook;
use crate::orderbook::Price;

verus! {

/// An ordered pair (base, quote) of instrument identifiers, used as a
/// lookup key. Two pairs are equal exactly when both components are equal
/// character for character.
#[derive(Clone, Debug)]
pub struct TradingPair {
    pub base: String,
    pub quote: String,
}

/// Key equality of two trading pairs: both components match exactly.
pub open spec fn pair_eq(a: TradingPair, b: TradingPair) -> bool {
    a.base@ == b.base@ && a.quote@ == b.quote@
}

impl TradingPair {
    pub fn new(base: String, quote: String) -> (pair: TradingPair)
        ensures
            pair.base == base,
            pair.quote == quote,
    {
        TradingPair { base, quote }
    }

    /// The pair's canonical display form: base and quote joined by an
    /// underscore.
    pub fn to_string(self) -> (name: String)
        ensures
            name@ == self.base@ + seq!['_'] + self.quote@,
    {
        proof {
            reveal_strlit("_");
            assert("_"@ =~= seq!['_']);
        }
        let mut name = self.base;
        name.append("_");
        name.append(self.quote.as_str());
        name
    }
}

impl PartialEq for TradingPair {
    fn eq(&self, other: &TradingPair) -> bool {
        self.base == other.base && self.quote == other.quote
    }
}

impl vstd::std_specs::cmp::PartialEqSpecImpl for TradingPair {
    open spec fn obeys_eq_spec() -> bool {
        true
    }

    open spec fn eq_spec(&self, other: &TradingPair) -> bool {
        pair_eq(*self, *other)
    }
}

/// A request to rest `order` at `price` on the book of `pair`.
pub struct PlaceLimitOrderParams {
    pub pair: TradingPair,
    pub price: Price,
    pub order: Order,
}

impl PlaceLimitOrderParams {
    pub fn new(pair: TradingPair, price: Price, order: Order) -> (params: PlaceLimitOrderParams)
        ensures
            params.pair == pair,
            params.price == price,
            params.order == order,
    {
        PlaceLimitOrderParams { pair, price, order }
    }
}

/// Whether some market in `books` is keyed by `pair`.
pub open spec fn has_market(books: Seq<(TradingPair, OrderBook)>, pair: TradingPair) -> bool {
    exists|i: int| 0 <= i < books.len() && pair_eq(books[i].0, pair)
}

/// Each trading pair keys at most one market.
pub open spec fn distinct_pairs(books: Seq<(TradingPair, OrderBook)>) -> bool {
    forall|i: int, j: int| 0 <= i < j < books.len() ==> !pair_eq(books[i].0, books[j].0)
}

/// The canonical text of the failure reported when an order names a pair
/// with no market.
pub open spec fn missing_market_message(pair: TradingPair) -> Seq<char> {
    "the orderbook for the given trading pair ("@ + pair.base@ + seq!['_'] + pair.quote@
        + ") does not exist"@
}

/// A mapping from trading pair to order book. Once a market is created,
/// its pair keys exactly one book for the engine's lifetime.
#[derive(Debug)]
pub struct MatchingEngine {
    pub orderbooks: Vec<(TradingPair, OrderBook)>,
}

impl MatchingEngine {
    /// Every pair keys at most one market, and every book is well formed.
    pub open spec fn wf(self) -> bool {
        &&& distinct_pairs(self.orderbooks@)
        &&& forall|i: int| 0 <= i < self.orderbooks@.len() ==> self.orderbooks@[i].1.wf()
    }

    /// An engine with no markets.
    pub fn new() -> (engine: MatchingEngine)
        ensures
            engine.orderbooks@ =~= Seq::<(TradingPair, OrderBook)>::empty(),
            engine.wf(),
    {
        MatchingEngine { orderbooks: Vec::new() }
    }

    /// The position of the market keyed by `pair`, if one exists.
    fn find_market(&self, pair: &TradingPair) -> (found: Option<usize>)
        ensures
            match found {
                Some(i) => 0 <= i < self.orderbooks@.len()
                    && pair_eq(self.orderbooks@[i as int].0, *pair),
                None => !has_market(self.orderbooks@, *pair),
            },
    {
        let mut i: usize = 0;
        while i < self.orderbooks.len()
            invariant
                0 <= i <= self.orderbooks@.len(),
                forall|k: int| 0 <= k < i ==> !pair_eq(self.orderbooks@[k].0, *pair),
            decreases self.orderbooks@.len() - i,
        {
            if self.orderbooks[i].0 == *pair {
                return Some(i);
            }
            i = i + 1;
        }
        None
    }

    /// Opens a fresh, empty order book for `pair` if none exists and
    /// reports whether one was created: asking again for an existing
    /// market is a no-op, reported informationally, not an error.
    pub fn add_new_market(&mut self, pair: TradingPair) -> (created: bool)
        requires
            old(self).wf(),
        ensures
            final(self).wf(),
            created == !has_market(old(self).orderbooks@, pair),
            !created ==> final(self).orderbooks@ == old(self).orderbooks@,
            created ==> {
                &&& final(self).orderbooks@.len() == old(self).orderbooks@.len() + 1
                &&& forall|i: int| 0 <= i < old(self).orderbooks@.len()
                    ==> final(self).orderbooks@[i] == old(self).orderbooks@[i]
                &&& final(self).orderbooks@.last().0 == pair
                &&& final(self).orderbooks@.last().1.asks@ =~= Seq::<crate::orderbook::Limit>::empty()
                &&& final(self).orderbooks@.last().1.bids@ =~= Seq::<crate::orderbook::Limit>::empty()
            },
    {
        match self.find_market(&pair) {
            Some(_) => false,
            None => {
                self.orderbooks.push((pair, OrderBook::new()));
                true
            },
        }
    }

    /// Rests `params.order` at `params.price` on the book keyed by
    /// `params.pair`. When no market exists for that pair, fails with the
    /// missing-market report carrying the pair's display form, and the
    /// engine is left unchanged.
    pub fn place_limit_order(&mut self, params: PlaceLimitOrderParams) -> (placed: Result<
        (),
        String,
    >)
        requires
            old(self).wf(),
        ensures
            final(self).wf(),
            match placed {
                Ok(()) => {
                    &&& has_market(old(self).orderbooks@, params.pair)
                    &&& final(self).orderbooks@.len() == old(self).orderbooks@.len()
                    &&& forall|i: int| 0 <= i < old(self).orderbooks@.len()
                        && pair_eq(old(self).orderbooks@[i].0, params.pair)
                        ==> final(self).orderbooks@[i].0 == old(self).orderbooks@[i].0
                            && book_after_add(
                            old(self).orderbooks@[i].1,
                            final(self).orderbooks@[i].1,
                            params.price,
                            params.order,
                        )
                    &&& forall|i: int| 0 <= i < old(self).orderbooks@.len()
                        && !pair_eq(old(self).orderbooks@[i].0, params.pair)
                        ==> final(self).orderbooks@[i] == old(self).orderbooks@[i]
                },
                Err(report) => {
                    &&& !has_market(old(self).orderbooks@, params.pair)
                    &&& final(self).orderbooks@ == old(self).orderbooks@
                    &&& report@ == missing_market_message(params.pair)
                },
            },
    {
        match self.find_market(&params.pair) {
            Some(i) => {
                let book = &mut self.orderbooks[i].1;
                book.add_order(params.price, params.order);
                proof {
                    let before = old(self).orderbooks@;
                    let now = self.orderbooks@;
                    assert forall|k: int| 0 <= k < before.len() && k != i
                        implies now[k] == before[k] by {
                        assert(now =~= before.update(i as int, now[i as int]));
                    }
                    assert forall|k: int| 0 <= k < before.len()
                        && pair_eq(before[k].0, params.pair) implies k == i by {
                        if k < i {
                            assert(!pair_eq(before[k].0, before[i as int].0));
                        }
                        if i < k {
                            assert(!pair_eq(before[i as int].0, before[k].0));
                        }
                    }
                }
                Ok(())
            },
            None => {
                proof {
                    reveal_strlit("the orderbook for the given trading pair (");
                    reveal_strlit(") does not exist");
                }
                let name = params.pair.to_string();
                let mut report = String::from_str("the orderbook for the given trading pair (");
                report.append(name.as_str());
                report.append(") does not exist");
                Err(report)
            },
        }
    }
}

} // verus!
