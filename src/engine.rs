use vstd::prelude::*;
use vstd::string::StringExecFns;

use crate::fixed::Fixed;
use crate::order_book::{valid_request, OrderBook, OrderBookState};
use crate::orders::{OrderRequest, OrderResult, TradeExecution};
use crate::sums::level_volume;
use crate::types::{OrderId, Price, Quantity, Side};

verus! {

/// An instrument: base and quote currency, shown as `"{base}_{quote}"`.
#[derive(Debug, Clone, Eq, Hash)]
pub struct TradingPair {
    pub base: String,
    pub quote: String,
}

impl PartialEq for TradingPair {
    fn eq(&self, o: &TradingPair) -> (r: bool) {
        self.base == o.base && self.quote == o.quote
    }
}

impl vstd::std_specs::cmp::PartialEqSpecImpl for TradingPair {
    open spec fn obeys_eq_spec() -> bool {
        true
    }

    open spec fn eq_spec(&self, o: &TradingPair) -> bool {
        self.key() == o.key()
    }
}

impl TradingPair {
    /// What identifies a pair: its two names.
    pub open spec fn key(self) -> (Seq<char>, Seq<char>) {
        (self.base@, self.quote@)
    }

    /// The pair's display form.
    pub open spec fn text(self) -> Seq<char> {
        self.base@ + "_"@ + self.quote@
    }

    pub fn new(base: String, quote: String) -> (r: TradingPair)
        ensures
            r.base@ == base@,
            r.quote@ == quote@,
    {
        TradingPair { base, quote }
    }

    /// `"{base}_{quote}"`.
    pub fn to_string(&self) -> (r: String)
        ensures
            r@ == self.text(),
    {
        let mut s = self.base.clone();
        s.append("_");
        s.append(self.quote.as_str());
        proof {
            reveal_strlit("_");
        }
        s
    }

    fn same(&self, o: &TradingPair) -> (r: bool)
        ensures
            r == (self.key() == o.key()),
    {
        self.base == o.base && self.quote == o.quote
    }

    fn duplicate(&self) -> (r: TradingPair)
        ensures
            r.key() == self.key(),
    {
        TradingPair { base: self.base.clone(), quote: self.quote.clone() }
    }
}

/// The text of the error for a pair that is already listed.
pub open spec fn exists_message(p: TradingPair) -> Seq<char> {
    "Market for "@ + p.text() + " already exists"@
}

/// The text of the error for a pair that is not listed.
pub open spec fn missing_message(p: TradingPair) -> Seq<char> {
    "Market for "@ + p.text() + " does not exist"@
}

fn exists_error(p: &TradingPair) -> (r: String)
    ensures
        r@ == exists_message(*p),
{
    proof {
        reveal_strlit("Market for ");
        reveal_strlit(" already exists");
    }
    let mut s = "Market for ".to_owned();
    let t = p.to_string();
    s.append(t.as_str());
    s.append(" already exists");
    s
}

fn missing_error(p: &TradingPair) -> (r: String)
    ensures
        r@ == missing_message(*p),
{
    proof {
        reveal_strlit("Market for ");
        reveal_strlit(" does not exist");
    }
    let mut s = "Market for ".to_owned();
    let t = p.to_string();
    s.append(t.as_str());
    s.append(" does not exist");
    s
}

/// Books by instrument, each pair listed once.
///
/// A sequence rather than a hash map: vstd models a hash map only for keys of
/// integer or boolean type, and a pair is keyed by two strings.
pub struct MatchingEngine {
    pub orderbooks: Vec<(TradingPair, OrderBook)>,
}

impl MatchingEngine {
    /// The listed pairs, each once, and each book well formed.
    pub open spec fn wf(self) -> bool {
        &&& forall|i: int, j: int| #![trigger self.orderbooks@[i], self.orderbooks@[j]]
            0 <= i < j < self.orderbooks@.len() ==> self.orderbooks@[i].0.key() != self.orderbooks@[j].0.key()
        &&& forall|i: int| 0 <= i < self.orderbooks@.len() ==> (#[trigger] self.orderbooks@[i]).1.wf()
    }

    /// The pair is listed.
    pub open spec fn lists(self, p: TradingPair) -> bool {
        exists|i: int| 0 <= i < self.orderbooks@.len() && (#[trigger] self.orderbooks@[i]).0.key() == p.key()
    }

    /// The book of a listed pair.
    pub open spec fn book_of(self, p: TradingPair) -> OrderBook {
        let i = choose|i: int| 0 <= i < self.orderbooks@.len() && (#[trigger] self.orderbooks@[i]).0.key() == p.key();
        self.orderbooks@[i].1
    }

    pub fn new() -> (r: Self)
        ensures
            r.wf(),
            r.orderbooks@.len() == 0,
    {
        MatchingEngine { orderbooks: Vec::new() }
    }

    fn find(&self, pair: &TradingPair) -> (r: Option<usize>)
        requires
            self.wf(),
        ensures
            match r {
                Some(i) => i < self.orderbooks@.len() && self.orderbooks@[i as int].0.key() == pair.key()
                    && self.book_of(*pair) == self.orderbooks@[i as int].1,
                None => !self.lists(*pair),
            },
    {
        let mut i: usize = 0;
        while i < self.orderbooks.len()
            invariant
                self.wf(),
                i <= self.orderbooks@.len(),
                forall|j: int| 0 <= j < i ==> (#[trigger] self.orderbooks@[j]).0.key() != pair.key(),
            decreases self.orderbooks@.len() - i,
        {
            if self.orderbooks[i].0.same(pair) {
                proof {
                    let k = choose|k: int| 0 <= k < self.orderbooks@.len() && (#[trigger] self.orderbooks@[k]).0.key() == pair.key();
                    if k != i {
                        if k < i {
                            assert(self.orderbooks@[k].0.key() != self.orderbooks@[i as int].0.key());
                        } else {
                            assert(self.orderbooks@[i as int].0.key() != self.orderbooks@[k].0.key());
                        }
                    }
                }
                return Some(i);
            }
            i += 1;
        }
        None
    }

    /// Lists `pair` with an empty book; an error if it is already listed.
    pub fn add_market(&mut self, pair: TradingPair) -> (r: Result<(), String>)
        requires
            old(self).wf(),
        ensures
            final(self).wf(),
            final(self).lists(pair),
            match r {
                Ok(()) => !old(self).lists(pair) && final(self).orderbooks@.len() == old(self).orderbooks@.len() + 1
                    && final(self).book_of(pair).ask_levels().dom().is_empty()
                    && final(self).book_of(pair).bid_levels().dom().is_empty(),
                Err(msg) => old(self).lists(pair) && msg@ == exists_message(pair) && final(self).orderbooks@
                    == old(self).orderbooks@,
            },
    {
        match self.find(&pair) {
            Some(_) => Err(exists_error(&pair)),
            None => {
                let ghost n = self.orderbooks@.len();
                self.orderbooks.push((pair, OrderBook::new()));
                proof {
                    assert(self.orderbooks@[n as int].0.key() == pair.key());
                    let k = choose|k: int| 0 <= k < self.orderbooks@.len() && (#[trigger] self.orderbooks@[k]).0.key() == pair.key();
                    if k != n {
                        assert(old(self).orderbooks@[k] == self.orderbooks@[k]);
                    }
                }
                Ok(())
            },
        }
    }

    /// Delists `pair` and drops its book; an error if it is not listed.
    pub fn remove_market(&mut self, pair: &TradingPair) -> (r: Result<(), String>)
        requires
            old(self).wf(),
        ensures
            final(self).wf(),
            !final(self).lists(*pair),
            match r {
                Ok(()) => old(self).lists(*pair) && final(self).orderbooks@.len() == old(self).orderbooks@.len() - 1,
                Err(msg) => !old(self).lists(*pair) && msg@ == missing_message(*pair) && final(self).orderbooks@
                    == old(self).orderbooks@,
            },
    {
        match self.find(pair) {
            Some(i) => {
                let ghost before = self.orderbooks@;
                self.orderbooks.remove(i);
                proof {
                    assert forall|k: int| 0 <= k < self.orderbooks@.len() implies (#[trigger] self.orderbooks@[k]).0.key() != pair.key() by {
                        let k0 = if k < i { k } else { k + 1 };
                        assert(self.orderbooks@[k] == before[k0]);
                        if k0 != i {
                            if k0 < i {
                                assert(before[k0].0.key() != before[i as int].0.key());
                            } else {
                                assert(before[i as int].0.key() != before[k0].0.key());
                            }
                        }
                    }
                    assert forall|a: int, b: int| #![trigger self.orderbooks@[a], self.orderbooks@[b]]
                        0 <= a < b < self.orderbooks@.len() implies self.orderbooks@[a].0.key() != self.orderbooks@[b].0.key() by {
                        let a0 = if a < i { a } else { a + 1 };
                        let b0 = if b < i { b } else { b + 1 };
                        assert(self.orderbooks@[a] == before[a0] && self.orderbooks@[b] == before[b0]);
                    }
                    assert forall|k: int| 0 <= k < self.orderbooks@.len() implies (#[trigger] self.orderbooks@[k]).1.wf() by {
                        let k0 = if k < i { k } else { k + 1 };
                        assert(self.orderbooks@[k] == before[k0]);
                    }
                }
                Ok(())
            },
            None => Err(missing_error(pair)),
        }
    }

    /// Places `order` on the book of `pair`; an error if it is not listed.
    pub fn place_order(&mut self, pair: &TradingPair, order: OrderRequest) -> (r: Result<
        (OrderResult, Vec<TradeExecution>),
        String,
    >)
        requires
            old(self).wf(),
            old(self).lists(*pair) && valid_request(order) ==> old(self).book_of(*pair).admissible(order),
        ensures
            final(self).wf(),
            match r {
                Ok(out) => old(self).lists(*pair) && final(self).lists(*pair) && old(self).book_of(*pair).place_outcome(
                    order,
                    out,
                    final(self).book_of(*pair),
                ),
                Err(msg) => !old(self).lists(*pair) && msg@ == missing_message(*pair) && final(self).orderbooks@
                    == old(self).orderbooks@,
            },
    {
        match self.find(pair) {
            Some(i) => {
                let ghost before = self.orderbooks@;
                let (p, mut book) = self.orderbooks.remove(i);
                let out = book.add_order(order);
                self.orderbooks.insert(i, (p, book));
                proof {
                    self.lemma_replaced(before, i as int, *pair);
                }
                Ok(out)
            },
            None => Err(missing_error(pair)),
        }
    }

    /// Deletes order `order_id` from the book of `pair`; an error if the pair
    /// is not listed.
    pub fn cancel_order(&mut self, pair: &TradingPair, order_id: OrderId) -> (r: Result<Option<OrderResult>, String>)
        requires
            old(self).wf(),
        ensures
            final(self).wf(),
            match r {
                Ok(out) => old(self).lists(*pair) && final(self).lists(*pair) && old(self).book_of(*pair).delete_outcome(
                    order_id,
                    out,
                    final(self).book_of(*pair),
                ),
                Err(msg) => !old(self).lists(*pair) && msg@ == missing_message(*pair) && final(self).orderbooks@
                    == old(self).orderbooks@,
            },
    {
        match self.find(pair) {
            Some(i) => {
                let ghost before = self.orderbooks@;
                let (p, mut book) = self.orderbooks.remove(i);
                let out = book.delete_order(order_id);
                self.orderbooks.insert(i, (p, book));
                proof {
                    self.lemma_replaced(before, i as int, *pair);
                }
                Ok(out)
            },
            None => Err(missing_error(pair)),
        }
    }

    /// After the book at position `i` is replaced by a well-formed one under the
    /// same pair, the engine is well formed and `pair` finds the new book.
    proof fn lemma_replaced(self, before: Seq<(TradingPair, OrderBook)>, i: int, pair: TradingPair)
        requires
            0 <= i < before.len(),
            before[i].0.key() == pair.key(),
            self.orderbooks@.len() == before.len(),
            self.orderbooks@[i].0 == before[i].0,
            self.orderbooks@[i].1.wf(),
            forall|k: int| 0 <= k < before.len() && k != i ==> self.orderbooks@[k] == before[k],
            forall|a: int, b: int| #![trigger before[a], before[b]] 0 <= a < b < before.len() ==> before[a].0.key() != before[b].0.key(),
            forall|k: int| 0 <= k < before.len() ==> (#[trigger] before[k]).1.wf(),
        ensures
            self.wf(),
            self.lists(pair),
            self.book_of(pair) == self.orderbooks@[i].1,
    {
        assert forall|a: int, b: int| #![trigger self.orderbooks@[a], self.orderbooks@[b]]
            0 <= a < b < self.orderbooks@.len() implies self.orderbooks@[a].0.key() != self.orderbooks@[b].0.key() by {
            assert(self.orderbooks@[a].0.key() == before[a].0.key());
            assert(self.orderbooks@[b].0.key() == before[b].0.key());
        }
        assert forall|k: int| 0 <= k < self.orderbooks@.len() implies (#[trigger] self.orderbooks@[k]).1.wf() by {
            if k != i {
                assert(self.orderbooks@[k] == before[k]);
            }
        }
        assert(self.orderbooks@[i].0.key() == pair.key());
        let k = choose|k: int| 0 <= k < self.orderbooks@.len() && (#[trigger] self.orderbooks@[k]).0.key() == pair.key();
        if k != i {
            if k < i {
                assert(self.orderbooks@[k].0.key() != self.orderbooks@[i].0.key());
            } else {
                assert(self.orderbooks@[i].0.key() != self.orderbooks@[k].0.key());
            }
        }
    }

    /// The levels of the book of `pair`.
    pub fn get_order_book_state(&self, pair: &TradingPair) -> (r: Result<OrderBookState, String>)
        requires
            self.wf(),
        ensures
            match r {
                Ok(st) => self.lists(*pair) && self.book_of(*pair).is_state(st),
                Err(msg) => !self.lists(*pair) && msg@ == missing_message(*pair),
            },
    {
        match self.find(pair) {
            Some(i) => Ok(self.orderbooks[i].1.get_order_book_state()),
            None => Err(missing_error(pair)),
        }
    }

    /// Best bid and best ask of the book of `pair`.
    pub fn get_best_bid_ask(&self, pair: &TradingPair) -> (r: Result<(Option<Price>, Option<Price>), String>)
        requires
            self.wf(),
        ensures
            match r {
                Ok(bb) => self.lists(*pair) && match bb.0 {
                    Some(p) => self.book_of(*pair).bids.is_best(p.units),
                    None => self.book_of(*pair).bid_levels().dom().is_empty(),
                } && match bb.1 {
                    Some(p) => self.book_of(*pair).asks.is_best(p.units),
                    None => self.book_of(*pair).ask_levels().dom().is_empty(),
                },
                Err(msg) => !self.lists(*pair) && msg@ == missing_message(*pair),
            },
    {
        match self.find(pair) {
            Some(i) => Ok(self.orderbooks[i].1.best_prices()),
            None => Err(missing_error(pair)),
        }
    }

    /// Spread of the book of `pair`.
    pub fn get_spread(&self, pair: &TradingPair) -> (r: Result<Option<Price>, String>)
        requires
            self.wf(),
        ensures
            match r {
                Ok(sp) => self.lists(*pair) && self.book_of(*pair).is_spread(sp),
                Err(msg) => !self.lists(*pair) && msg@ == missing_message(*pair),
            },
    {
        match self.find(pair) {
            Some(i) => Ok(self.orderbooks[i].1.spread()),
            None => Err(missing_error(pair)),
        }
    }

    /// Total resting volume of the book of `pair`.
    pub fn get_volume(&self, pair: &TradingPair) -> (r: Result<Quantity, String>)
        requires
            self.wf(),
        ensures
            match r {
                Ok(v) => self.lists(*pair) && v.val() == self.book_of(*pair).total_volume(),
                Err(msg) => !self.lists(*pair) && msg@ == missing_message(*pair),
            },
    {
        match self.find(pair) {
            Some(i) => Ok(self.orderbooks[i].1.get_total_volume()),
            None => Err(missing_error(pair)),
        }
    }

    /// Depth (asks, bids) of the book of `pair`.
    pub fn get_depth(&self, pair: &TradingPair) -> (r: Result<(usize, usize), String>)
        requires
            self.wf(),
        ensures
            match r {
                Ok(d) => self.lists(*pair) && d.0 == self.book_of(*pair).depth().0 && d.1 == self.book_of(*pair).depth().1,
                Err(msg) => !self.lists(*pair) && msg@ == missing_message(*pair),
            },
    {
        match self.find(pair) {
            Some(i) => Ok(self.orderbooks[i].1.get_depth()),
            None => Err(missing_error(pair)),
        }
    }

    /// Quantity at `price` on side `side` of the book of `pair`; zero where
    /// there is no level.
    pub fn get_volume_at_price(&self, pair: &TradingPair, side: Side, price: Price) -> (r: Result<Quantity, String>)
        requires
            self.wf(),
        ensures
            match r {
                Ok(q) => self.lists(*pair) && q.val() == if self.book_of(*pair).at(side).contains_key(price.units) {
                    level_volume(self.book_of(*pair).at(side)[price.units])
                } else {
                    0
                },
                Err(msg) => !self.lists(*pair) && msg@ == missing_message(*pair),
            },
    {
        match self.find(pair) {
            Some(i) => match self.orderbooks[i].1.get_volume_at_price(&side, &price) {
                Some(q) => Ok(q),
                None => Ok(Fixed::zero()),
            },
            None => Err(missing_error(pair)),
        }
    }

    /// The listed pairs.
    pub fn get_markets(&self) -> (r: Vec<TradingPair>)
        ensures
            r@.len() == self.orderbooks@.len(),
            forall|i: int| 0 <= i < r@.len() ==> (#[trigger] r@[i]).key() == self.orderbooks@[i].0.key(),
    {
        let mut r: Vec<TradingPair> = Vec::new();
        let mut i: usize = 0;
        while i < self.orderbooks.len()
            invariant
                i <= self.orderbooks@.len(),
                r@.len() == i,
                forall|k: int| 0 <= k < i ==> (#[trigger] r@[k]).key() == self.orderbooks@[k].0.key(),
            decreases self.orderbooks@.len() - i,
        {
            r.push(self.orderbooks[i].0.duplicate());
            i += 1;
        }
        r
    }

    pub fn market_exists(&self, pair: &TradingPair) -> (r: bool)
        requires
            self.wf(),
        ensures
            r == self.lists(*pair),
    {
        self.find(pair).is_some()
    }
}

impl Default for MatchingEngine {
    fn default() -> (r: Self)
        ensures
            r.wf(),
            r.orderbooks@.len() == 0,
    {
        MatchingEngine::new()
    }
}

} // verus!
