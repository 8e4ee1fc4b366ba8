//! A multi-symbol book variant that acknowledges or rejects orders instead of
//! matching them: an order that would cross the other side's top of book is
//! rejected, and every change is written to a per-symbol log.

use vstd::prelude::*;

use std::cmp::Ordering;

use vstd::string::StringExecFns;

verus! {

/// Side of an order: buy or sell.
#[derive(Debug, Copy, Clone, PartialEq, Eq, Structural)]
pub enum Side {
    Buy,
    Sell,
}

impl Side {
    pub open spec fn spec_from_char(c: char) -> Option<Side> {
        if c == 'B' {
            Some(Side::Buy)
        } else if c == 'S' {
            Some(Side::Sell)
        } else {
            None
        }
    }

    /// The side written `B` (buy) or `S` (sell); any other character has none.
    pub fn new(side: char) -> (r: Option<Side>)
        ensures
            r == Self::spec_from_char(side),
    {
        match side {
            'B' => Some(Side::Buy),
            'S' => Some(Side::Sell),
            _ => None,
        }
    }

    /// The side written `side`, which must be `B` or `S`.
    pub fn from(side: char) -> (r: Side)
        requires
            side == 'B' || side == 'S',
        ensures
            Some(r) == Self::spec_from_char(side),
    {
        Self::new(side).unwrap()
    }

    pub open spec fn spec_not(self) -> Side {
        match self {
            Side::Buy => Side::Sell,
            Side::Sell => Side::Buy,
        }
    }

    /// The other side.
    pub fn opposite(self) -> (r: Side)
        ensures
            r == self.spec_not(),
    {
        match self {
            Side::Buy => Side::Sell,
            Side::Sell => Side::Buy,
        }
    }

    /// The side's letter: `B` or `S`.
    pub fn to_string(&self) -> (r: String)
        ensures
            r@ == seq![if *self == Side::Buy { 'B' } else { 'S' }],
    {
        proof {
            reveal_strlit("B");
            reveal_strlit("S");
        }
        match self {
            Side::Buy => "B".to_owned(),
            Side::Sell => "S".to_owned(),
        }
    }
}

impl std::ops::Not for Side {
    type Output = Self;

    fn not(self) -> (r: Self::Output) {
        self.opposite()
    }
}

impl vstd::std_specs::ops::NotSpecImpl for Side {
    open spec fn obeys_not_spec() -> bool {
        true
    }

    open spec fn not_req(self) -> bool {
        true
    }

    open spec fn not_spec(self) -> Side {
        self.spec_not()
    }
}

/// A resting order of a user: price and volume in whole units.
#[derive(Copy, Clone, Debug, Eq, PartialEq, Structural)]
pub struct Order {
    pub user_id: usize,
    pub order_id: usize,
    pub price: usize,
    pub volume: usize,
    pub side: Side,
}

pub open spec fn cmp_usize(a: usize, b: usize) -> Ordering {
    if a < b {
        Ordering::Less
    } else if a > b {
        Ordering::Greater
    } else {
        Ordering::Equal
    }
}

fn compare(a: usize, b: usize) -> (r: Ordering)
    ensures
        r == cmp_usize(a, b),
{
    if a < b {
        Ordering::Less
    } else if a > b {
        Ordering::Greater
    } else {
        Ordering::Equal
    }
}

impl Order {
    pub fn new(side: Side, user_id: usize, order_id: usize, price: usize, volume: usize) -> (r: Order)
        ensures
            r == (Order { user_id, order_id, price, volume, side }),
    {
        Order { user_id, order_id, price, volume, side }
    }

    /// Order among orders of one side: by price, then volume, then id (for
    /// buys the lower id ranks higher, for sells lower).
    pub open spec fn spec_price_cmp(self, other: Self) -> Ordering {
        if self.price != other.price {
            cmp_usize(self.price, other.price)
        } else if self.volume != other.volume {
            cmp_usize(self.volume, other.volume)
        } else {
            match self.side {
                Side::Buy => cmp_usize(other.order_id, self.order_id),
                Side::Sell => cmp_usize(self.order_id, other.order_id),
            }
        }
    }

    /// Order between any two orders: every buy ranks above every sell.
    pub open spec fn spec_cmp(self, other: Self) -> Ordering {
        match (self.side, other.side) {
            (Side::Buy, Side::Sell) => Ordering::Greater,
            (Side::Sell, Side::Buy) => Ordering::Less,
            _ => self.spec_price_cmp(other),
        }
    }

    pub fn price_cmp(&self, other: &Self) -> (r: Option<Ordering>)
        ensures
            r == Some(self.spec_price_cmp(*other)),
    {
        if self.price != other.price {
            Some(compare(self.price, other.price))
        } else if self.volume != other.volume {
            Some(compare(self.volume, other.volume))
        } else {
            match self.side {
                Side::Buy => Some(compare(other.order_id, self.order_id)),
                Side::Sell => Some(compare(self.order_id, other.order_id)),
            }
        }
    }
}

impl PartialOrd for Order {
    fn partial_cmp(&self, other: &Self) -> (r: Option<Ordering>) {
        match self.side {
            Side::Buy => match other.side {
                Side::Buy => self.price_cmp(other),
                Side::Sell => Some(Ordering::Greater),
            },
            Side::Sell => match other.side {
                Side::Buy => Some(Ordering::Less),
                Side::Sell => self.price_cmp(other),
            },
        }
    }
}

impl vstd::std_specs::cmp::PartialOrdSpecImpl for Order {
    open spec fn obeys_partial_cmp_spec() -> bool {
        true
    }

    open spec fn partial_cmp_spec(&self, other: &Order) -> Option<Ordering> {
        Some(self.spec_cmp(*other))
    }
}

/// An entry of a symbol's log.
#[derive(Clone, Copy, Debug, PartialEq, Eq, Structural)]
pub enum LogEntry {
    Acknowledge { user_id: usize, order_id: usize },
    Reject { user_id: usize, order_id: usize },
    TopOfBook { side: Option<Side>, price: usize, volume: usize },
    SideElimination(Side),
    Trade {
        user_id_buy: usize,
        order_id_buy: usize,
        user_id_sell: usize,
        order_id_sell: usize,
        price: usize,
        volume: usize,
    },
}

/// The orders of one symbol and its log. Each order goes before the first
/// one that does not rank below it by `Order::spec_price_cmp`; one ranking
/// equal to an order already there is not added.
///
/// A sequence rather than an ordered set: the ranking looks at the order's
/// own side to break ties, so it is not a total order over orders of both
/// sides, and an ordered set of `Order` would need a total order that Verus
/// can rely on.
pub struct OrderBookEntry {
    pub orders: Vec<Order>,
    pub log: Vec<LogEntry>,
}

impl OrderBookEntry {
    pub fn new() -> (r: OrderBookEntry)
        ensures
            r.orders@.len() == 0,
            r.log@.len() == 0,
    {
        OrderBookEntry { orders: Vec::new(), log: Vec::new() }
    }
}

/// The orders of a symbol as seen from the top of side `side`: from the back
/// for buys, from the front for sells.
pub open spec fn facing(s: Seq<Order>, side: Side) -> Seq<Order> {
    if side == Side::Buy {
        s.reverse()
    } else {
        s
    }
}

/// Length of the leading run of orders of user `user` at `price`.
pub open spec fn run_len(q: Seq<Order>, user: usize, price: usize) -> nat
    decreases q.len(),
{
    if q.len() > 0 && q[0].user_id == user && q[0].price == price {
        1 + run_len(q.skip(1), user, price)
    } else {
        0
    }
}

/// Total volume of a sequence of orders.
pub open spec fn vol_sum(q: Seq<Order>) -> int
    decreases q.len(),
{
    if q.len() == 0 {
        0
    } else {
        vol_sum(q.drop_last()) + q.last().volume
    }
}

/// Least order id of a sequence of orders; `usize::MAX` when empty.
pub open spec fn min_id(q: Seq<Order>) -> usize
    decreases q.len(),
{
    if q.len() == 0 {
        usize::MAX
    } else {
        let m = min_id(q.drop_last());
        if q.last().order_id < m {
            q.last().order_id
        } else {
            m
        }
    }
}

/// `x`, or `usize::MAX` where it is larger.
pub open spec fn capped(x: int) -> usize {
    if x > usize::MAX {
        usize::MAX
    } else if x < 0 {
        0
    } else {
        x as usize
    }
}

/// The top of side `side` among `s`: the order at that end, if it is on that
/// side, with the total volume and the least id of the leading run of orders of
/// the same user at the same price.
pub open spec fn spec_top(s: Seq<Order>, side: Side) -> Option<Order> {
    let q = facing(s, side);
    if q.len() == 0 || q[0].side != side {
        None
    } else {
        let run = q.take(run_len(q, q[0].user_id, q[0].price) as int);
        Some(
            Order {
                user_id: q[0].user_id,
                order_id: min_id(run),
                price: q[0].price,
                volume: capped(vol_sum(run)),
                side: q[0].side,
            },
        )
    }
}

/// What a change of top of book from `old` to `new` adds to the log: an empty
/// top when the side has none left, the new top when it differs.
pub open spec fn top_log(old: Option<Order>, new: Option<Order>) -> Seq<LogEntry> {
    match new {
        None => seq![LogEntry::TopOfBook { side: None, price: 0, volume: 0 }],
        Some(n) => if old == Some(n) {
            Seq::empty()
        } else {
            seq![LogEntry::TopOfBook { side: Some(n.side), price: n.price, volume: n.volume }]
        },
    }
}

/// Where `o` goes among `s`: before the first order that does not rank below
/// it.
pub open spec fn insert_pos(s: Seq<Order>, o: Order) -> int {
    if exists|i: int| 0 <= i < s.len() && s[i].spec_price_cmp(o) != Ordering::Less {
        choose|i: int|
            0 <= i < s.len() && s[i].spec_price_cmp(o) != Ordering::Less && forall|j: int|
                0 <= j < i ==> #[trigger] s[j].spec_price_cmp(o) == Ordering::Less
    } else {
        s.len() as int
    }
}

/// `s` after `o` is added, unless an order ranking equal to it is already at
/// its place.
pub open spec fn with_inserted(s: Seq<Order>, o: Order) -> Seq<Order> {
    let p = insert_pos(s, o);
    if p < s.len() && s[p].spec_price_cmp(o) == Ordering::Equal {
        s
    } else {
        s.insert(p, o)
    }
}

/// `s` without its first order ranking equal to `o`.
pub open spec fn with_removed(s: Seq<Order>, o: Order) -> Seq<Order> {
    if exists|i: int| 0 <= i < s.len() && s[i].spec_price_cmp(o) == Ordering::Equal {
        let i = choose|i: int|
            0 <= i < s.len() && s[i].spec_price_cmp(o) == Ordering::Equal && forall|j: int|
                0 <= j < i ==> #[trigger] s[j].spec_price_cmp(o) != Ordering::Equal;
        s.remove(i)
    } else {
        s
    }
}

/// The top of the other side has been reached: a sell at or below the best
/// buy, or a buy at or above the best sell.
pub open spec fn spec_crossed(top: Order, other_top: Order, order: Order) -> bool {
    match top.side {
        Side::Sell => other_top.price >= order.price,
        Side::Buy => order.price >= other_top.price,
    }
}

proof fn lemma_run_len(q: Seq<Order>, user: usize, price: usize, i: int)
    requires
        0 <= i <= q.len(),
        forall|k: int| 0 <= k < i ==> (#[trigger] q[k]).user_id == user && q[k].price == price,
        i == q.len() || !(q[i].user_id == user && q[i].price == price),
    ensures
        run_len(q, user, price) == i,
    decreases i,
{
    if i > 0 {
        assert forall|k: int| 0 <= k < i - 1 implies (#[trigger] q.skip(1)[k]).user_id == user && q.skip(1)[k].price == price by {
            assert(q.skip(1)[k] == q[k + 1]);
        }
        if i < q.len() {
            assert(q.skip(1)[i - 1] == q[i]);
        }
        lemma_run_len(q.skip(1), user, price, i - 1);
    }
}

fn top_of(orders: &Vec<Order>, side: Side) -> (r: Option<Order>)
    ensures
        r == spec_top(orders@, side),
{
    let n = orders.len();
    if n == 0 {
        return None;
    }
    let ghost q = facing(orders@, side);
    let o = match side {
        Side::Buy => orders[n - 1],
        Side::Sell => orders[0],
    };
    proof {
        assert(q[0] == o);
    }
    if o.side != side {
        return None;
    }
    let mut total: usize = 0;
    let mut min_order_id: usize = usize::MAX;
    let mut i: usize = 0;
    while i < n
        invariant
            n == orders@.len(),
            q == facing(orders@, side),
            q.len() == n,
            i <= n,
            forall|k: int| 0 <= k < i ==> (#[trigger] q[k]).user_id == o.user_id && q[k].price == o.price,
            total == capped(vol_sum(q.take(i as int))),
            vol_sum(q.take(i as int)) >= 0,
            min_order_id == min_id(q.take(i as int)),
        ensures
            i == n || !(q[i as int].user_id == o.user_id && q[i as int].price == o.price),
        decreases n - i,
    {
        let x = match side {
            Side::Buy => orders[n - 1 - i],
            Side::Sell => orders[i],
        };
        proof {
            assert(q[i as int] == x);
        }
        if !(x.user_id == o.user_id && x.price == o.price) {
            break;
        }
        proof {
            assert(q.take(i as int + 1).drop_last() =~= q.take(i as int));
            assert(q.take(i as int + 1).last() == x);
        }
        total = if total > usize::MAX - x.volume {
            usize::MAX
        } else {
            total + x.volume
        };
        if x.order_id < min_order_id {
            min_order_id = x.order_id;
        }
        i += 1;
    }
    proof {
        lemma_run_len(q, o.user_id, o.price, i as int);
    }
    Some(Order { user_id: o.user_id, order_id: min_order_id, price: o.price, volume: total, side: o.side })
}

fn log_top_of_book(log: &mut Vec<LogEntry>, old_top: Option<Order>, new_top: Option<Order>)
    ensures
        final(log)@ == old(log)@ + top_log(old_top, new_top),
{
    match new_top {
        None => {
            log.push(LogEntry::TopOfBook { side: None, price: 0, volume: 0 });
        },
        Some(n) => {
            let same = match old_top {
                Some(t) => t == n,
                None => false,
            };
            if !same {
                log.push(LogEntry::TopOfBook { side: Some(n.side), price: n.price, volume: n.volume });
            } else {
                proof {
                    assert(old(log)@ + Seq::<LogEntry>::empty() =~= old(log)@);
                }
            }
        },
    }
}

fn insert_order(orders: &mut Vec<Order>, o: Order)
    ensures
        final(orders)@ == with_inserted(old(orders)@, o),
{
    let ghost s = orders@;
    let mut i: usize = 0;
    while i < orders.len()
        invariant
            orders@ == s,
            i <= s.len(),
            forall|j: int| 0 <= j < i ==> #[trigger] s[j].spec_price_cmp(o) == Ordering::Less,
        ensures
            i == s.len() || s[i as int].spec_price_cmp(o) != Ordering::Less,
        decreases s.len() - i,
    {
        match orders[i].price_cmp(&o) {
            Some(Ordering::Less) => {},
            _ => break,
        }
        i += 1;
    }
    proof {
        if i < s.len() {
            let p = insert_pos(s, o);
            assert(exists|k: int| 0 <= k < s.len() && s[k].spec_price_cmp(o) != Ordering::Less);
            if p != i {
                if p < i {
                    assert(s[p].spec_price_cmp(o) == Ordering::Less);
                } else {
                    assert(s[i as int].spec_price_cmp(o) == Ordering::Less);
                }
            }
        } else {
            assert(!exists|k: int| 0 <= k < s.len() && s[k].spec_price_cmp(o) != Ordering::Less);
        }
    }
    if i < orders.len() {
        if let Some(Ordering::Equal) = orders[i].price_cmp(&o) {
            return;
        }
    }
    orders.insert(i, o);
}

fn remove_order(orders: &mut Vec<Order>, o: &Order)
    ensures
        final(orders)@ == with_removed(old(orders)@, *o),
{
    let ghost s = orders@;
    let mut i: usize = 0;
    while i < orders.len()
        invariant
            orders@ == s,
            i <= s.len(),
            forall|j: int| 0 <= j < i ==> #[trigger] s[j].spec_price_cmp(*o) != Ordering::Equal,
        ensures
            i == s.len() || s[i as int].spec_price_cmp(*o) == Ordering::Equal,
        decreases s.len() - i,
    {
        if let Some(Ordering::Equal) = orders[i].price_cmp(o) {
            break;
        }
        i += 1;
    }
    if i < orders.len() {
        proof {
            let k = choose|k: int|
                0 <= k < s.len() && s[k].spec_price_cmp(*o) == Ordering::Equal && forall|j: int|
                    0 <= j < k ==> #[trigger] s[j].spec_price_cmp(*o) != Ordering::Equal;
            if k != i {
                if k < i {
                    assert(s[k].spec_price_cmp(*o) != Ordering::Equal);
                } else {
                    assert(s[i as int].spec_price_cmp(*o) != Ordering::Equal);
                }
            }
        }
        orders.remove(i);
    }
}

/// Books by symbol, and an index from (user, order id) to the symbol and the
/// order.
///
/// Both are sequences with unique keys: vstd models a hash map only for keys
/// of integer or boolean type, and these are keyed by a string and by a pair.
pub struct OrderBook {
    pub order_book: Vec<(String, OrderBookEntry)>,
    pub index: Vec<((usize, usize), (String, Order))>,
}

/// Position of the entry of symbol `sym`.
pub open spec fn entry_pos(es: Seq<(String, OrderBookEntry)>, sym: Seq<char>) -> Option<int> {
    if exists|i: int| 0 <= i < es.len() && (#[trigger] es[i]).0@ == sym {
        Some(choose|i: int| 0 <= i < es.len() && (#[trigger] es[i]).0@ == sym)
    } else {
        None
    }
}

/// The orders of symbol `sym`; none when it has no entry.
pub open spec fn orders_of(es: Seq<(String, OrderBookEntry)>, sym: Seq<char>) -> Seq<Order> {
    match entry_pos(es, sym) {
        Some(i) => es[i].1.orders@,
        None => Seq::empty(),
    }
}

/// The log of symbol `sym`; empty when it has no entry.
pub open spec fn log_of(es: Seq<(String, OrderBookEntry)>, sym: Seq<char>) -> Seq<LogEntry> {
    match entry_pos(es, sym) {
        Some(i) => es[i].1.log@,
        None => Seq::empty(),
    }
}

/// Position of key `key` in the index.
pub open spec fn index_pos(ix: Seq<((usize, usize), (String, Order))>, key: (usize, usize)) -> Option<int> {
    if exists|i: int| 0 <= i < ix.len() && (#[trigger] ix[i]).0 == key {
        Some(choose|i: int| 0 <= i < ix.len() && (#[trigger] ix[i]).0 == key)
    } else {
        None
    }
}

impl OrderBook {
    /// Symbols and index keys are unique.
    pub open spec fn wf(self) -> bool {
        &&& forall|i: int, j: int| #![trigger self.order_book@[i], self.order_book@[j]]
            0 <= i < j < self.order_book@.len() ==> self.order_book@[i].0@ != self.order_book@[j].0@
        &&& forall|i: int, j: int| #![trigger self.index@[i], self.index@[j]]
            0 <= i < j < self.index@.len() ==> self.index@[i].0 != self.index@[j].0
    }

    pub open spec fn orders(self, sym: Seq<char>) -> Seq<Order> {
        orders_of(self.order_book@, sym)
    }

    pub open spec fn log(self, sym: Seq<char>) -> Seq<LogEntry> {
        log_of(self.order_book@, sym)
    }

    pub fn new() -> (r: OrderBook)
        ensures
            r.wf(),
            r.order_book@.len() == 0,
            r.index@.len() == 0,
    {
        OrderBook { order_book: Vec::new(), index: Vec::new() }
    }

    fn find(&self, sym: &String) -> (r: Option<usize>)
        requires
            self.wf(),
        ensures
            match r {
                Some(i) => i < self.order_book@.len() && entry_pos(self.order_book@, sym@) == Some(i as int),
                None => entry_pos(self.order_book@, sym@) is None,
            },
    {
        let mut i: usize = 0;
        while i < self.order_book.len()
            invariant
                self.wf(),
                i <= self.order_book@.len(),
                forall|k: int| 0 <= k < i ==> (#[trigger] self.order_book@[k]).0@ != sym@,
            decreases self.order_book@.len() - i,
        {
            if self.order_book[i].0 == *sym {
                proof {
                    let k = choose|k: int| 0 <= k < self.order_book@.len() && (#[trigger] self.order_book@[k]).0@ == sym@;
                    if k != i {
                        if k < i {
                            assert(self.order_book@[k].0@ != self.order_book@[i as int].0@);
                        } else {
                            assert(self.order_book@[i as int].0@ != self.order_book@[k].0@);
                        }
                    }
                }
                return Some(i);
            }
            i += 1;
        }
        None
    }

    /// The top of book of side `side` for `symbol`: see `spec_top`.
    pub fn top(&self, side: Side, symbol: &str) -> (r: Option<Order>)
        requires
            self.wf(),
        ensures
            entry_pos(self.order_book@, symbol@) is None ==> r is None,
            r == spec_top(self.orders(symbol@), side) || entry_pos(self.order_book@, symbol@) is None,
    {
        let sym = symbol.to_owned();
        match self.find(&sym) {
            Some(i) => top_of(&self.order_book[i].1.orders, side),
            None => None,
        }
    }

    /// With the entry at `pos` replaced by one under the same symbol, every
    /// symbol keeps its position.
    proof fn lemma_entry_pos_same(es: Seq<(String, OrderBookEntry)>, es2: Seq<(String, OrderBookEntry)>, sym: Seq<char>)
        requires
            es.len() == es2.len(),
            forall|k: int| 0 <= k < es.len() ==> (#[trigger] es2[k]).0@ == es[k].0@,
            forall|i: int, j: int| #![trigger es[i], es[j]] 0 <= i < j < es.len() ==> es[i].0@ != es[j].0@,
        ensures
            entry_pos(es2, sym) == entry_pos(es, sym),
            forall|i: int, j: int| #![trigger es2[i], es2[j]] 0 <= i < j < es2.len() ==> es2[i].0@ != es2[j].0@,
    {
        assert forall|i: int, j: int| #![trigger es2[i], es2[j]] 0 <= i < j < es2.len() implies es2[i].0@ != es2[j].0@ by {
            assert(es2[i].0@ == es[i].0@ && es2[j].0@ == es[j].0@);
        }
        if exists|i: int| 0 <= i < es.len() && (#[trigger] es[i]).0@ == sym {
            let a = choose|i: int| 0 <= i < es.len() && (#[trigger] es[i]).0@ == sym;
            assert(es2[a].0@ == sym);
            let b = choose|i: int| 0 <= i < es2.len() && (#[trigger] es2[i]).0@ == sym;
            assert(es[b].0@ == sym);
            if a != b {
                if a < b {
                    assert(es[a].0@ != es[b].0@);
                } else {
                    assert(es[b].0@ != es[a].0@);
                }
            }
        } else {
            assert forall|i: int| 0 <= i < es2.len() implies (#[trigger] es2[i]).0@ != sym by {
                assert(es2[i].0@ == es[i].0@);
            }
        }
    }

    /// Replacing the entry at `pos`, of symbol `sym`, by one under the same
    /// symbol changes what `sym` holds and nothing else.
    proof fn lemma_entry_replaced(es: Seq<(String, OrderBookEntry)>, es2: Seq<(String, OrderBookEntry)>, pos: int, sym: Seq<char>)
        requires
            0 <= pos < es.len(),
            es2 == es.update(pos, es2[pos]),
            es2[pos].0@ == sym,
            es[pos].0@ == sym,
            forall|i: int, j: int| #![trigger es[i], es[j]] 0 <= i < j < es.len() ==> es[i].0@ != es[j].0@,
        ensures
            forall|i: int, j: int| #![trigger es2[i], es2[j]] 0 <= i < j < es2.len() ==> es2[i].0@ != es2[j].0@,
            entry_pos(es2, sym) == Some(pos),
            orders_of(es2, sym) == es2[pos].1.orders@,
            log_of(es2, sym) == es2[pos].1.log@,
            forall|other: Seq<char>| #![trigger orders_of(es2, other)] other != sym ==> orders_of(es2, other) == orders_of(es, other)
                && log_of(es2, other) == log_of(es, other),
    {
        assert forall|k: int| 0 <= k < es.len() implies (#[trigger] es2[k]).0@ == es[k].0@ by {
            if k != pos {
                assert(es2[k] == es[k]);
            }
        }
        Self::lemma_entry_pos_same(es, es2, sym);
        assert(es[pos].0@ == sym);
        let a = choose|i: int| 0 <= i < es.len() && (#[trigger] es[i]).0@ == sym;
        if a != pos {
            if a < pos {
                assert(es[a].0@ != es[pos].0@);
            } else {
                assert(es[pos].0@ != es[a].0@);
            }
        }
        assert forall|other: Seq<char>| other != sym implies #[trigger] orders_of(es2, other) == orders_of(es, other)
            && log_of(es2, other) == log_of(es, other) by {
            Self::lemma_entry_pos_same(es, es2, other);
            match entry_pos(es, other) {
                Some(j) => {
                    assert(es[j].0@ == other);
                    assert(j != pos);
                    assert(es2[j] == es[j]);
                },
                None => {},
            }
        }
    }

    /// The position of the entry of `sym`, which is created empty if absent.
    fn entry_or_insert(&mut self, sym: &String) -> (r: usize)
        requires
            old(self).wf(),
        ensures
            final(self).wf(),
            final(self).index == old(self).index,
            r < final(self).order_book@.len(),
            entry_pos(final(self).order_book@, sym@) == Some(r as int),
            final(self).orders(sym@) == old(self).orders(sym@),
            final(self).log(sym@) == old(self).log(sym@),
            forall|other: Seq<char>| other != sym@ ==> entry_pos(final(self).order_book@, other) == entry_pos(
                old(self).order_book@,
                other,
            ),
            forall|j: int| 0 <= j < old(self).order_book@.len() ==> #[trigger] final(self).order_book@[j] == old(self).order_book@[j],
    {
        match self.find(sym) {
            Some(i) => i,
            None => {
                let ghost es = self.order_book@;
                let n = self.order_book.len();
                self.order_book.push((sym.clone(), OrderBookEntry::new()));
                proof {
                    let es2 = self.order_book@;
                    assert(es2[n as int].0@ == sym@);
                    assert forall|i: int, j: int| #![trigger es2[i], es2[j]] 0 <= i < j < es2.len() implies es2[i].0@ != es2[j].0@ by {
                        if j == n {
                            assert(es2[i] == es[i]);
                        } else {
                            assert(es2[i] == es[i] && es2[j] == es[j]);
                        }
                    }
                    let b = choose|i: int| 0 <= i < es2.len() && (#[trigger] es2[i]).0@ == sym@;
                    if b != n {
                        assert(es2[b] == es[b]);
                    }
                    assert(es2[n as int].1.orders@ =~= Seq::<Order>::empty());
                    assert(es2[n as int].1.log@ =~= Seq::<LogEntry>::empty());
                    assert forall|other: Seq<char>| other != sym@ implies entry_pos(es2, other) == entry_pos(es, other) by {
                        if exists|i: int| 0 <= i < es.len() && (#[trigger] es[i]).0@ == other {
                            let a = choose|i: int| 0 <= i < es.len() && (#[trigger] es[i]).0@ == other;
                            assert(es2[a] == es[a]);
                            let c = choose|i: int| 0 <= i < es2.len() && (#[trigger] es2[i]).0@ == other;
                            if c != a {
                                if c == n {
                                    assert(es2[c].0@ == sym@);
                                } else {
                                    assert(es2[c] == es[c]);
                                    if c < a {
                                        assert(es[c].0@ != es[a].0@);
                                    } else {
                                        assert(es[a].0@ != es[c].0@);
                                    }
                                }
                            }
                        } else {
                            assert forall|i: int| 0 <= i < es2.len() implies (#[trigger] es2[i]).0@ != other by {
                                if i < n {
                                    assert(es2[i] == es[i]);
                                }
                            }
                        }
                    }
                }
                n
            },
        }
    }

    /// Records `val` under `key` in the index, replacing what was there.
    fn index_insert(&mut self, key: (usize, usize), val: (String, Order))
        requires
            old(self).wf(),
        ensures
            final(self).wf(),
            final(self).order_book == old(self).order_book,
            index_pos(final(self).index@, key) matches Some(p) && final(self).index@[p].1.0@ == val.0@
                && final(self).index@[p].1.1 == val.1,
    {
        let ghost ix = self.index@;
        let mut i: usize = 0;
        while i < self.index.len()
            invariant
                self.index@ == ix,
                i <= ix.len(),
                forall|k: int| 0 <= k < i ==> (#[trigger] ix[k]).0 != key,
            ensures
                i == ix.len() || ix[i as int].0 == key,
            decreases ix.len() - i,
        {
            if self.index[i].0.0 == key.0 && self.index[i].0.1 == key.1 {
                break;
            }
            i += 1;
        }
        let ghost vv = val;
        if i < self.index.len() {
            self.index.remove(i);
            self.index.insert(i, (key, val));
            proof {
                let ix2 = self.index@;
                assert(ix2 =~= ix.update(i as int, (key, vv)));
                assert forall|a: int, b: int| #![trigger ix2[a], ix2[b]] 0 <= a < b < ix2.len() implies ix2[a].0 != ix2[b].0 by {
                    assert(ix2[a].0 == ix[a].0 && ix2[b].0 == ix[b].0);
                }
                assert(ix2[i as int] == (key, vv));
                assert(ix2[i as int].0 == key);
                let p = choose|k: int| 0 <= k < ix2.len() && (#[trigger] ix2[k]).0 == key;
                if p != i {
                    if p < i {
                        assert(ix2[p].0 != ix2[i as int].0);
                    } else {
                        assert(ix2[i as int].0 != ix2[p].0);
                    }
                }
            }
        } else {
            self.index.push((key, val));
            proof {
                let ix2 = self.index@;
                assert forall|a: int, b: int| #![trigger ix2[a], ix2[b]] 0 <= a < b < ix2.len() implies ix2[a].0 != ix2[b].0 by {
                    if b == ix.len() {
                        assert(ix2[a] == ix[a]);
                    } else {
                        assert(ix2[a] == ix[a] && ix2[b] == ix[b]);
                    }
                }
                assert(ix2[ix.len() as int] == (key, vv));
                assert(ix2[ix.len() as int].0 == key);
                let p = choose|k: int| 0 <= k < ix2.len() && (#[trigger] ix2[k]).0 == key;
                if p != ix.len() {
                    assert(ix2[p] == ix[p]);
                    assert(ix[p].0 == key);
                }
            }
        }
    }

    /// Adds `order` under `symbol`: rejected (and logged so) when both sides
    /// have a top and the order would reach the other side's top; otherwise
    /// acknowledged, indexed, placed among the symbol's orders, and the change
    /// of top of book, if any, logged.
    pub fn add(&mut self, symbol: &str, order: &Order)
        requires
            old(self).wf(),
        ensures
            final(self).wf(),
            entry_pos(final(self).order_book@, symbol@) is Some,
            forall|other: Seq<char>| #![trigger final(self).orders(other)] other != symbol@ ==> final(self).orders(other) == old(self).orders(other)
                && final(self).log(other) == old(self).log(other),
            ({
                let before = old(self).orders(symbol@);
                let top = spec_top(before, order.side);
                let other = spec_top(before, order.side.spec_not());
                if top is Some && other is Some && spec_crossed(top.unwrap(), other.unwrap(), *order) {
                    &&& final(self).orders(symbol@) == before
                    &&& final(self).log(symbol@) == old(self).log(symbol@).push(
                        LogEntry::Reject { user_id: order.user_id, order_id: order.order_id },
                    )
                    &&& final(self).index == old(self).index
                } else {
                    &&& final(self).orders(symbol@) == with_inserted(before, *order)
                    &&& final(self).log(symbol@) == old(self).log(symbol@).push(
                        LogEntry::Acknowledge { user_id: order.user_id, order_id: order.order_id },
                    ) + top_log(top, spec_top(final(self).orders(symbol@), order.side))
                    &&& index_pos(final(self).index@, (order.user_id, order.order_id)) matches Some(p)
                        && final(self).index@[p].1.0@ == symbol@ && final(self).index@[p].1.1 == *order
                }
            }),
    {
        let sym = symbol.to_owned();
        let top = self.top(order.side, symbol);
        let other_top = self.top(order.side.opposite(), symbol);
        let ghost es_start = self.order_book@;
        let pos = self.entry_or_insert(&sym);
        let ghost es = self.order_book@;
        let (name, mut entry) = self.order_book.remove(pos);
        let crossed = match (top, other_top) {
            (Some(t), Some(ot)) => match t.side {
                Side::Sell => ot.price >= order.price,
                Side::Buy => order.price >= ot.price,
            },
            _ => false,
        };
        if crossed {
            entry.log.push(LogEntry::Reject { user_id: order.user_id, order_id: order.order_id });
        } else {
            entry.log.push(LogEntry::Acknowledge { user_id: order.user_id, order_id: order.order_id });
            insert_order(&mut entry.orders, *order);
            let new_top = top_of(&entry.orders, order.side);
            log_top_of_book(&mut entry.log, top, new_top);
        }
        self.order_book.insert(pos, (name, entry));
        proof {
            let es2 = self.order_book@;
            assert(es2 =~= es.update(pos as int, es2[pos as int]));
            Self::lemma_entry_replaced(es, es2, pos as int, symbol@);
            assert forall|other: Seq<char>| other != symbol@ implies #[trigger] orders_of(es2, other) == orders_of(es_start, other)
                && log_of(es2, other) == log_of(es_start, other) by {
                assert(orders_of(es2, other) == orders_of(es, other));
                match entry_pos(es_start, other) {
                    Some(j) => {
                        assert(es[j] == es_start[j]);
                    },
                    None => {},
                }
            }
        }
        if !crossed {
            self.index_insert((order.user_id, order.order_id), (sym, *order));
        }
    }

    /// Withdraws the order `order_id` of user `user_id`, if indexed: it leaves
    /// the index and its symbol's orders, and the symbol's log acknowledges it
    /// and records the change of top of book, if any.
    #[verifier::rlimit(60)]
    pub fn cancel(&mut self, user_id: usize, order_id: usize)
        requires
            old(self).wf(),
        ensures
            final(self).wf(),
            match index_pos(old(self).index@, (user_id, order_id)) {
                None => final(self).index == old(self).index && final(self).order_book == old(self).order_book,
                Some(p) => {
                    let sym = old(self).index@[p].1.0@;
                    let o = old(self).index@[p].1.1;
                    &&& final(self).index@ == old(self).index@.remove(p)
                    &&& forall|other: Seq<char>| #![trigger final(self).orders(other)] other != sym ==> final(self).orders(other) == old(self).orders(other)
                        && final(self).log(other) == old(self).log(other)
                    &&& entry_pos(old(self).order_book@, sym) is Some ==> {
                        &&& final(self).orders(sym) == with_removed(old(self).orders(sym), o)
                        &&& final(self).log(sym) == old(self).log(sym).push(LogEntry::Acknowledge { user_id, order_id })
                            + top_log(spec_top(old(self).orders(sym), o.side), spec_top(final(self).orders(sym), o.side))
                    }
                },
            },
    {
        let key = (user_id, order_id);
        let ghost ix = self.index@;
        let mut i: usize = 0;
        while i < self.index.len()
            invariant
                self.index@ == ix,
                i <= ix.len(),
                forall|k: int| 0 <= k < i ==> (#[trigger] ix[k]).0 != key,
            ensures
                i == ix.len() || ix[i as int].0 == key,
            decreases ix.len() - i,
        {
            if self.index[i].0.0 == key.0 && self.index[i].0.1 == key.1 {
                break;
            }
            i += 1;
        }
        if i == self.index.len() {
            proof {
                assert(!(exists|k: int| 0 <= k < ix.len() && (#[trigger] ix[k]).0 == key));
            }
            return;
        }
        proof {
            let p = choose|k: int| 0 <= k < ix.len() && (#[trigger] ix[k]).0 == key;
            if p != i {
                if p < i {
                    assert(ix[p].0 != ix[i as int].0);
                } else {
                    assert(ix[i as int].0 != ix[p].0);
                }
            }
        }
        let ghost ob0 = self.order_book@;
        let (_, (symbol, order)) = self.index.remove(i);
        proof {
            assert(symbol@ == ix[i as int].1.0@);
            assert(order == ix[i as int].1.1);
            assert(index_pos(ix, key) == Some(i as int));
        }
        proof {
            let ix2 = self.index@;
            assert forall|a: int, b: int| #![trigger ix2[a], ix2[b]] 0 <= a < b < ix2.len() implies ix2[a].0 != ix2[b].0 by {
                let a0 = if a < i { a } else { a + 1 };
                let b0 = if b < i { b } else { b + 1 };
                assert(ix2[a] == ix[a0] && ix2[b] == ix[b0]);
            }
        }
        match self.find(&symbol) {
            Some(pos) => {
                let ghost es = self.order_book@;
                let (name, mut entry) = self.order_book.remove(pos);
                let old_top = top_of(&entry.orders, order.side);
                remove_order(&mut entry.orders, &order);
                entry.log.push(LogEntry::Acknowledge { user_id, order_id });
                let new_top = top_of(&entry.orders, order.side);
                log_top_of_book(&mut entry.log, old_top, new_top);
                self.order_book.insert(pos, (name, entry));
                proof {
                    let es2 = self.order_book@;
                    assert(es2 =~= es.update(pos as int, es2[pos as int]));
                    Self::lemma_entry_replaced(es, es2, pos as int, symbol@);
                    assert(es == ob0);
                    assert(orders_of(es, symbol@) == es[pos as int].1.orders@);
                    assert(log_of(es, symbol@) == es[pos as int].1.log@);
                    assert(orders_of(es2, symbol@) == with_removed(orders_of(es, symbol@), order));
                    assert(log_of(es2, symbol@) == log_of(es, symbol@).push(LogEntry::Acknowledge { user_id, order_id })
                        + top_log(spec_top(orders_of(es, symbol@), order.side), spec_top(orders_of(es2, symbol@), order.side)));
                    assert forall|other: Seq<char>| #![trigger self.orders(other)] other != symbol@ implies self.orders(other)
                        == old(self).orders(other) && self.log(other) == old(self).log(other) by {
                        assert(orders_of(es2, other) == orders_of(es, other));
                    }
                    assert(self.index@ == ix.remove(i as int));
                }
            },
            None => {
                proof {
                    assert(self.order_book@ == ob0);
                    assert(self.index@ == ix.remove(i as int));
                    assert(entry_pos(ob0, symbol@) is None);
                }
            },
        }
    }

    /// The log of `symbol`, if it has an entry.
    pub fn get_logs(&self, symbol: &str) -> (r: Option<&Vec<LogEntry>>)
        requires
            self.wf(),
        ensures
            match r {
                Some(l) => entry_pos(self.order_book@, symbol@) is Some && l@ == self.log(symbol@),
                None => entry_pos(self.order_book@, symbol@) is None,
            },
    {
        let sym = symbol.to_owned();
        match self.find(&sym) {
            Some(i) => Some(&self.order_book[i].1.log),
            None => None,
        }
    }
}

} // verus!
