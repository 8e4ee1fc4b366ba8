use vstd::prelude::*;

use crate::fixed::{decimal_bytes, fixed_text, Fixed, MAX_UNITS};
use crate::types::{
    create_id_from_bytes, create_order_id, timestamp, uuid_v5_dns, OrderId, Price, Quantity,
    Side, Timestamp,
};

verus! {

/// How an order trades.
#[derive(Clone, Copy, Debug, PartialEq, Eq, Structural)]
pub enum OrderType {
    /// No price: takes the best liquidity on the other side.
    Market,
    /// Matches up to the price and rests the remainder.
    Limit(Price),
    /// Immediate-or-cancel: matches what it can at the price or better.
    IOC(Price),
    /// Fill-or-kill: executes entirely at the price or better, or not at all.
    FOK(Price),
    /// Resting liquidity that aggregates with an order of the same id.
    SystemLevel(Price),
}

impl OrderType {
    pub fn limit(price: Price) -> (r: Self)
        ensures
            r == OrderType::Limit(price),
    {
        OrderType::Limit(price)
    }

    pub fn ioc(price: Price) -> (r: Self)
        ensures
            r == OrderType::IOC(price),
    {
        OrderType::IOC(price)
    }

    pub fn fok(price: Price) -> (r: Self)
        ensures
            r == OrderType::FOK(price),
    {
        OrderType::FOK(price)
    }

    pub fn system_level(price: Price) -> (r: Self)
        ensures
            r == OrderType::SystemLevel(price),
    {
        OrderType::SystemLevel(price)
    }

    pub open spec fn spec_price(self) -> Option<Price> {
        match self {
            OrderType::Market => None,
            OrderType::Limit(p) => Some(p),
            OrderType::IOC(p) => Some(p),
            OrderType::FOK(p) => Some(p),
            OrderType::SystemLevel(p) => Some(p),
        }
    }

    /// The limit price, absent for a market order.
    pub fn price(&self) -> (r: Option<Price>)
        ensures
            r == self.spec_price(),
    {
        match self {
            OrderType::Market => None,
            OrderType::Limit(p) => Some(*p),
            OrderType::IOC(p) => Some(*p),
            OrderType::FOK(p) => Some(*p),
            OrderType::SystemLevel(p) => Some(*p),
        }
    }

    /// The identifier a system-level order at price `p` gets: derived from the
    /// bytes of the price's text, so repeated submissions collide.
    pub open spec fn level_id(p: Price) -> OrderId {
        uuid_v5_dns(decimal_bytes(p.val()))
    }

    /// An identifier for a new order of this type: fresh for user orders,
    /// derived from the price's text for system-level orders.
    pub fn generate_id(&self) -> (r: OrderId)
        requires
            self.spec_price() is Some ==> self.spec_price().unwrap().in_range(),
        ensures
            self matches OrderType::SystemLevel(p) ==> r == Self::level_id(*p),
    {
        match self {
            OrderType::SystemLevel(p) => {
                let text = fixed_text(*p);
                create_id_from_bytes(text.as_slice())
            },
            _ => create_order_id(),
        }
    }

    /// The type's name.
    pub fn label(&self) -> (r: &'static str)
        ensures
            r@ == self.spec_label(),
    {
        proof {
            reveal_strlit("Market");
            reveal_strlit("Limit");
            reveal_strlit("IOC");
            reveal_strlit("FOK");
            reveal_strlit("SystemLevel");
        }
        match self {
            OrderType::Market => "Market",
            OrderType::Limit(_) => "Limit",
            OrderType::IOC(_) => "IOC",
            OrderType::FOK(_) => "FOK",
            OrderType::SystemLevel(_) => "SystemLevel",
        }
    }

    pub open spec fn spec_label(self) -> Seq<char> {
        match self {
            OrderType::Market => "Market"@,
            OrderType::Limit(_) => "Limit"@,
            OrderType::IOC(_) => "IOC"@,
            OrderType::FOK(_) => "FOK"@,
            OrderType::SystemLevel(_) => "SystemLevel"@,
        }
    }
}

/// Lifecycle state reported for an order.
#[derive(Clone, Copy, Debug, PartialEq, Eq, Structural)]
pub enum OrderStatus {
    Open,
    Filled,
    PartiallyFilled,
    Cancelled,
}

/// One execution against an order, from that order's point of view.
#[derive(Clone, Copy, Debug, PartialEq)]
pub struct Fill {
    pub qty: Quantity,
    pub price: Price,
    pub timestamp: Timestamp,
    /// The counterparty order.
    pub order_id: OrderId,
}

impl Fill {
    pub fn new(qty: Quantity, price: Price, order_id: OrderId) -> (r: Self)
        ensures
            r.qty == qty,
            r.price == price,
            r.order_id == order_id,
    {
        Fill { qty, price, timestamp: timestamp(), order_id }
    }
}

/// Total quantity of a sequence of fills.
pub open spec fn fills_qty(s: Seq<Fill>) -> int
    decreases s.len(),
{
    if s.len() == 0 {
        0
    } else {
        fills_qty(s.drop_last()) + s.last().qty.val()
    }
}

pub proof fn lemma_fills_qty_push(s: Seq<Fill>, f: Fill)
    ensures
        fills_qty(s.push(f)) == fills_qty(s) + f.qty.val(),
{
    assert(s.push(f).drop_last() == s);
}

pub proof fn lemma_fills_qty_concat(a: Seq<Fill>, b: Seq<Fill>)
    ensures
        fills_qty(a + b) == fills_qty(a) + fills_qty(b),
    decreases b.len(),
{
    if b.len() == 0 {
        assert(a + b == a);
    } else {
        lemma_fills_qty_concat(a, b.drop_last());
        assert((a + b).drop_last() == a + b.drop_last());
    }
}

pub proof fn lemma_fills_qty_nonneg(s: Seq<Fill>)
    requires
        forall|i: int| 0 <= i < s.len() ==> s[i].qty.val() >= 0,
    ensures
        fills_qty(s) >= 0,
    decreases s.len(),
{
    if s.len() > 0 {
        lemma_fills_qty_nonneg(s.drop_last());
    }
}

/// An order as submitted: immutable input to the book.
#[derive(Clone, Copy, Debug, PartialEq)]
pub struct OrderRequest {
    pub id: OrderId,
    pub side: Side,
    pub qty: Quantity,
    pub order_type: OrderType,
}

impl OrderRequest {
    /// A request with an identifier generated for its type.
    pub fn new(side: Side, qty: Quantity, order_type: OrderType) -> (r: Self)
        requires
            order_type.spec_price() is Some ==> order_type.spec_price().unwrap().in_range(),
        ensures
            r.side == side,
            r.qty == qty,
            r.order_type == order_type,
            order_type matches OrderType::SystemLevel(p) ==> r.id == OrderType::level_id(p),
    {
        let id = order_type.generate_id();
        OrderRequest { id, side, qty, order_type }
    }

    pub fn new_with_id(id: OrderId, side: Side, qty: Quantity, order_type: OrderType) -> (r: Self)
        ensures
            r == (OrderRequest { id, side, qty, order_type }),
    {
        OrderRequest { id, side, qty, order_type }
    }

    /// A request whose identifier is derived from `id`'s bytes.
    pub fn new_with_other_id(id: &[u8], side: Side, qty: Quantity, order_type: OrderType) -> (r:
        Self)
        ensures
            r == (OrderRequest { id: uuid_v5_dns(id@), side, qty, order_type }),
    {
        OrderRequest { id: create_id_from_bytes(id), side, qty, order_type }
    }

    pub fn price(&self) -> (r: Option<Price>)
        ensures
            r == self.order_type.spec_price(),
    {
        self.order_type.price()
    }

    pub fn id(&self) -> (r: OrderId)
        ensures
            r == self.id,
    {
        self.id
    }
}

/// An order in the book, or the taker while it matches.
#[derive(Clone, Debug, PartialEq)]
pub struct TradeOrder {
    pub id: OrderId,
    pub side: Side,
    pub remaining_qty: Quantity,
    pub initial_qty: Quantity,
    /// Quantity withdrawn by partial cancellation.
    pub cancelled_qty: Quantity,
    pub fills: Vec<Fill>,
    pub order_type: OrderType,
    pub creation_timestamp: Timestamp,
    pub last_modified_timestamp: Timestamp,
}

impl TradeOrder {
    /// Quantities are consistent: what is gone from the initial quantity was
    /// either filled or cancelled, and nothing is negative.
    pub open spec fn wf(self) -> bool {
        &&& 0 <= self.remaining_qty.val()
        &&& 0 <= self.cancelled_qty.val()
        &&& self.initial_qty.val() <= MAX_UNITS
        &&& forall|i: int| 0 <= i < self.fills@.len() ==> #[trigger] self.fills@[i].qty.val() >= 0
        &&& self.initial_qty.val() - self.remaining_qty.val() == fills_qty(self.fills@)
            + self.cancelled_qty.val()
    }

    pub proof fn lemma_wf_bounds(self)
        requires
            self.wf(),
        ensures
            self.remaining_qty.val() <= self.initial_qty.val(),
            self.cancelled_qty.val() <= self.initial_qty.val(),
            fills_qty(self.fills@) <= self.initial_qty.val(),
            self.remaining_qty.in_range(),
            self.initial_qty.in_range(),
    {
        lemma_fills_qty_nonneg(self.fills@);
    }

    /// The taker form of a request: nothing filled yet.
    pub fn from_request(r: OrderRequest) -> (t: TradeOrder)
        ensures
            t.id == r.id,
            t.side == r.side,
            t.remaining_qty == r.qty,
            t.initial_qty == r.qty,
            t.cancelled_qty.val() == 0,
            t.fills@.len() == 0,
            t.order_type == r.order_type,
            0 <= r.qty.val() <= MAX_UNITS ==> t.wf(),
    {
        let ts = timestamp();
        TradeOrder {
            id: r.id,
            side: r.side,
            remaining_qty: r.qty,
            initial_qty: r.qty,
            cancelled_qty: Fixed::zero(),
            fills: Vec::new(),
            order_type: r.order_type,
            creation_timestamp: ts,
            last_modified_timestamp: ts,
        }
    }

    /// A market ask of `qty` with a fresh identifier.
    pub fn new(qty: Quantity) -> (t: Self)
        ensures
            t.side == Side::Ask,
            t.remaining_qty == qty,
            t.initial_qty == qty,
            t.cancelled_qty.val() == 0,
            t.fills@.len() == 0,
            t.order_type == OrderType::Market,
            0 <= qty.val() <= MAX_UNITS ==> t.wf(),
    {
        let ts = timestamp();
        TradeOrder {
            id: create_order_id(),
            side: Side::Ask,
            remaining_qty: qty,
            initial_qty: qty,
            cancelled_qty: Fixed::zero(),
            fills: Vec::new(),
            order_type: OrderType::Market,
            creation_timestamp: ts,
            last_modified_timestamp: ts,
        }
    }

    /// Fills this order by up to `*qty` against order `order_id`, and takes the
    /// filled amount off `*qty`.
    pub fn fill(&mut self, qty: &mut Quantity, price: Price, order_id: OrderId)
        requires
            old(self).wf(),
            0 <= old(qty).val() <= MAX_UNITS,
        ensures
            final(self).wf(),
            ({
                let f = if old(qty).val() <= old(self).remaining_qty.val() {
                    old(qty).val()
                } else {
                    old(self).remaining_qty.val()
                };
                &&& final(self).remaining_qty.val() == old(self).remaining_qty.val() - f
                &&& final(qty).val() == old(qty).val() - f
                &&& final(self).fills@ == old(self).fills@.push(
                    final(self).fills@.last(),
                )
                &&& final(self).fills@.last().qty.val() == f
                &&& final(self).fills@.last().price == price
                &&& final(self).fills@.last().order_id == order_id
            }),
            final(self).id == old(self).id,
            final(self).side == old(self).side,
            final(self).initial_qty == old(self).initial_qty,
            final(self).cancelled_qty == old(self).cancelled_qty,
            final(self).order_type == old(self).order_type,
    {
        proof {
            self.lemma_wf_bounds();
        }
        let fill_qty = (*qty).min(self.remaining_qty);
        self.remaining_qty = self.remaining_qty.minus(fill_qty);
        let f = Fill::new(fill_qty, price, order_id);
        proof {
            lemma_fills_qty_push(self.fills@, f);
        }
        self.fills.push(f);
        *qty = (*qty).minus(fill_qty);
        self.last_modified_timestamp = timestamp();
    }

    /// Trades this order against `other` at `price` for the smaller of the two
    /// remaining quantities; both record the fill. Returns the traded quantity.
    pub fn filled_by(&mut self, other: &mut TradeOrder, price: Price) -> (q: Quantity)
        requires
            old(self).wf(),
            old(other).wf(),
        ensures
            q.val() == if old(other).remaining_qty.val() <= old(self).remaining_qty.val() {
                old(other).remaining_qty.val()
            } else {
                old(self).remaining_qty.val()
            },
            final(self).wf(),
            final(other).wf(),
            final(self).remaining_qty.val() == old(self).remaining_qty.val() - q.val(),
            final(other).remaining_qty.val() == old(other).remaining_qty.val() - q.val(),
            final(self).fills@ == old(self).fills@.push(
                Fill { qty: q, price, timestamp: final(self).fills@.last().timestamp, order_id: old(other).id },
            ),
            final(other).fills@ == old(other).fills@.push(
                Fill { qty: q, price, timestamp: final(other).fills@.last().timestamp, order_id: old(self).id },
            ),
            final(self).id == old(self).id,
            final(self).side == old(self).side,
            final(self).initial_qty == old(self).initial_qty,
            final(self).cancelled_qty == old(self).cancelled_qty,
            final(self).order_type == old(self).order_type,
            final(other).id == old(other).id,
            final(other).side == old(other).side,
            final(other).initial_qty == old(other).initial_qty,
            final(other).cancelled_qty == old(other).cancelled_qty,
            final(other).order_type == old(other).order_type,
    {
        proof {
            self.lemma_wf_bounds();
            other.lemma_wf_bounds();
        }
        let fill_qty = other.remaining_qty.min(self.remaining_qty);
        self.remaining_qty = self.remaining_qty.minus(fill_qty);
        other.remaining_qty = other.remaining_qty.minus(fill_qty);
        let f1 = Fill::new(fill_qty, price, other.id);
        let f2 = Fill::new(fill_qty, price, self.id);
        proof {
            lemma_fills_qty_push(self.fills@, f1);
            lemma_fills_qty_push(other.fills@, f2);
        }
        self.fills.push(f1);
        other.fills.push(f2);
        self.last_modified_timestamp = timestamp();
        fill_qty
    }

    /// Quantity filled or cancelled so far.
    pub fn filled_quantity(&self) -> (q: Quantity)
        requires
            self.wf(),
        ensures
            q.val() == self.initial_qty.val() - self.remaining_qty.val(),
    {
        proof {
            self.lemma_wf_bounds();
        }
        self.initial_qty.minus(self.remaining_qty)
    }

    /// Withdraws up to `qty` of the remaining quantity.
    pub fn cancel(&mut self, qty: Quantity)
        requires
            old(self).wf(),
            qty.val() >= 0,
        ensures
            final(self).wf(),
            ({
                let c = if qty.val() <= old(self).remaining_qty.val() {
                    qty.val()
                } else {
                    old(self).remaining_qty.val()
                };
                &&& final(self).remaining_qty.val() == old(self).remaining_qty.val() - c
                &&& final(self).cancelled_qty.val() == old(self).cancelled_qty.val() + c
            }),
            final(self).fills@ == old(self).fills@,
            final(self).id == old(self).id,
            final(self).side == old(self).side,
            final(self).initial_qty == old(self).initial_qty,
            final(self).order_type == old(self).order_type,
    {
        proof {
            self.lemma_wf_bounds();
        }
        let q = qty.min(self.remaining_qty);
        self.remaining_qty = self.remaining_qty.minus(q);
        self.cancelled_qty = self.cancelled_qty.plus(q);
    }

    pub open spec fn spec_mergable(self, other: TradeOrder) -> bool {
        self.side == other.side && self.order_type == other.order_type
    }

    /// Whether `other` may be merged into this order: same side and type.
    pub fn mergable(&self, other: &TradeOrder) -> (r: bool)
        ensures
            r == self.spec_mergable(*other),
    {
        self.side == other.side && self.order_type == other.order_type
    }

    /// Adds `other`'s quantities and fills to this order. Gives `other` back
    /// unchanged when the two cannot merge.
    pub fn merage(&mut self, other: TradeOrder) -> (r: Option<TradeOrder>)
        requires
            old(self).wf(),
            other.wf(),
            old(self).initial_qty.val() + other.initial_qty.val() <= MAX_UNITS,
        ensures
            final(self).wf(),
            old(self).spec_mergable(other) ==> {
                &&& r is None
                &&& final(self).remaining_qty.val() == old(self).remaining_qty.val()
                    + other.remaining_qty.val()
                &&& final(self).initial_qty.val() == old(self).initial_qty.val()
                    + other.initial_qty.val()
                &&& final(self).fills@ == old(self).fills@ + other.fills@
                &&& final(self).cancelled_qty.val() == old(self).cancelled_qty.val()
                    + other.cancelled_qty.val()
                &&& final(self).id == old(self).id
                &&& final(self).side == old(self).side
                &&& final(self).order_type == old(self).order_type
            },
            !old(self).spec_mergable(other) ==> r == Some(other) && *final(self) == *old(self),
    {
        if !self.mergable(&other) {
            return Some(other);
        }
        proof {
            self.lemma_wf_bounds();
            other.lemma_wf_bounds();
            lemma_fills_qty_concat(self.fills@, other.fills@);
        }
        let mut other = other;
        self.remaining_qty = self.remaining_qty.plus(other.remaining_qty);
        self.initial_qty = self.initial_qty.plus(other.initial_qty);
        self.cancelled_qty = self.cancelled_qty.plus(other.cancelled_qty);
        self.fills.append(&mut other.fills);
        self.last_modified_timestamp = timestamp();
        None
    }
}

/// Status an order is reported with, from its remaining quantity, its fills and
/// its type.
pub open spec fn status_of(remaining: Quantity, fills: Seq<Fill>, order_type: OrderType) -> OrderStatus {
    if remaining.val() == 0 {
        OrderStatus::Filled
    } else if fills.len() == 0 {
        match order_type {
            OrderType::Limit(_) | OrderType::SystemLevel(_) => OrderStatus::Open,
            _ => OrderStatus::Cancelled,
        }
    } else {
        match order_type {
            OrderType::FOK(_) => OrderStatus::Cancelled,
            _ => OrderStatus::PartiallyFilled,
        }
    }
}

/// Sum of price times quantity over fills, in units squared.
pub open spec fn fills_value(s: Seq<Fill>) -> int
    decreases s.len(),
{
    if s.len() == 0 {
        0
    } else {
        fills_value(s.drop_last()) + s.last().price.val() * s.last().qty.val()
    }
}

/// Every running sum of the fills' values and quantities, and every product,
/// fits in an `i128`.
pub open spec fn fills_fit(s: Seq<Fill>) -> bool {
    forall|k: int| #![trigger s.take(k)] 0 <= k <= s.len() ==> {
        &&& i128::MIN <= fills_value(s.take(k)) <= i128::MAX
        &&& i128::MIN <= fills_qty(s.take(k)) <= i128::MAX
        &&& (k < s.len() ==> i128::MIN <= s[k].price.val() * s[k].qty.val() <= i128::MAX)
    }
}

/// Summary of an order after an operation on the book.
#[derive(Clone, Debug)]
pub struct OrderResult {
    pub traid_id: OrderId,
    pub side: Side,
    pub order_type: OrderType,
    pub initial_qty: Quantity,
    pub remaining_qty: Quantity,
    pub fills: Vec<Fill>,
    pub status: OrderStatus,
}

impl OrderResult {
    /// The order's fields are carried over unchanged.
    pub open spec fn describes(self, t: TradeOrder) -> bool {
        &&& self.traid_id == t.id
        &&& self.side == t.side
        &&& self.order_type == t.order_type
        &&& self.initial_qty == t.initial_qty
        &&& self.remaining_qty == t.remaining_qty
        &&& self.fills@ == t.fills@
    }

    /// The result for an order, with the status derived from it.
    pub fn from_order(t: TradeOrder) -> (r: Self)
        ensures
            r.describes(t),
            r.fills == t.fills,
            r.status == status_of(t.remaining_qty, t.fills@, t.order_type),
    {
        let status = if t.remaining_qty.is_zero() {
            OrderStatus::Filled
        } else if t.fills.len() == 0 {
            match t.order_type {
                OrderType::Limit(_) | OrderType::SystemLevel(_) => OrderStatus::Open,
                _ => OrderStatus::Cancelled,
            }
        } else {
            match t.order_type {
                OrderType::FOK(_) => OrderStatus::Cancelled,
                _ => OrderStatus::PartiallyFilled,
            }
        };
        OrderResult {
            traid_id: t.id,
            side: t.side,
            order_type: t.order_type,
            initial_qty: t.initial_qty,
            remaining_qty: t.remaining_qty,
            fills: t.fills,
            status,
        }
    }

    /// The result for an order still in the book, with the status derived from it.
    pub fn of_order(t: &TradeOrder) -> (r: Self)
        ensures
            r.describes(*t),
            r.status == status_of(t.remaining_qty, t.fills@, t.order_type),
    {
        let fills = t.fills.clone();
        proof {
            assert(fills@ =~= t.fills@);
        }
        let status = if t.remaining_qty.is_zero() {
            OrderStatus::Filled
        } else if t.fills.len() == 0 {
            match t.order_type {
                OrderType::Limit(_) | OrderType::SystemLevel(_) => OrderStatus::Open,
                _ => OrderStatus::Cancelled,
            }
        } else {
            match t.order_type {
                OrderType::FOK(_) => OrderStatus::Cancelled,
                _ => OrderStatus::PartiallyFilled,
            }
        };
        OrderResult {
            traid_id: t.id,
            side: t.side,
            order_type: t.order_type,
            initial_qty: t.initial_qty,
            remaining_qty: t.remaining_qty,
            fills,
            status,
        }
    }

    /// The result for an order that was cancelled.
    pub fn cancelled(t: TradeOrder) -> (r: Self)
        ensures
            r.describes(t),
            r.status == OrderStatus::Cancelled,
    {
        OrderResult {
            traid_id: t.id,
            side: t.side,
            order_type: t.order_type,
            initial_qty: t.initial_qty,
            remaining_qty: t.remaining_qty,
            fills: t.fills,
            status: OrderStatus::Cancelled,
        }
    }

    /// Quantity-weighted average price of the fills, rounded down to a unit;
    /// absent without filled quantity, with a negative total value, or where a
    /// sum leaves the `i128` range.
    pub fn avr_fill_price(&self) -> (r: Option<Price>)
        ensures
            r is Some <==> (fills_fit(self.fills@) && fills_qty(self.fills@) > 0 && fills_value(self.fills@) >= 0),
            r matches Some(a) ==> a.val() == fills_value(self.fills@) / fills_qty(self.fills@),
    {
        let ghost f = self.fills@;
        let mut total: i128 = 0;
        let mut qty: i128 = 0;
        let mut i: usize = 0;
        while i < self.fills.len()
            invariant
                f == self.fills@,
                i <= f.len(),
                total == fills_value(f.take(i as int)),
                qty == fills_qty(f.take(i as int)),
                forall|k: int| #![trigger f.take(k)] 0 <= k <= i ==> {
                    &&& i128::MIN <= fills_value(f.take(k)) <= i128::MAX
                    &&& i128::MIN <= fills_qty(f.take(k)) <= i128::MAX
                    &&& (k < i ==> i128::MIN <= f[k].price.val() * f[k].qty.val() <= i128::MAX)
                },
            decreases f.len() - i,
        {
            proof {
                assert(f.take(i as int + 1).drop_last() =~= f.take(i as int));
                assert(f.take(i as int + 1).last() == f[i as int]);
            }
            let fl = self.fills[i];
            let v = match fl.price.units.checked_mul(fl.qty.units) {
                Some(v) => v,
                None => return None,
            };
            total = match total.checked_add(v) {
                Some(x) => x,
                None => return None,
            };
            qty = match qty.checked_add(fl.qty.units) {
                Some(x) => x,
                None => return None,
            };
            i += 1;
        }
        proof {
            assert(f.take(f.len() as int) =~= f);
        }
        if qty <= 0 || total < 0 {
            return None;
        }
        Some(Fixed::from_units(total / qty))
    }

    pub fn get_id(&self) -> (r: OrderId)
        ensures
            r == self.traid_id,
    {
        self.traid_id
    }
}

/// A trade between an incoming (taker) order and a resting (maker) order.
#[derive(Clone, Copy, Debug)]
pub struct TradeExecution {
    pub qty: Quantity,
    pub price: Price,
    pub taker_order_id: OrderId,
    pub maker_order_id: OrderId,
    pub take_side: Side,
    pub timestamp: Timestamp,
}

impl TradeExecution {
    pub fn new(
        qty: Quantity,
        price: Price,
        taker_order: &TradeOrder,
        maker_order: &TradeOrder,
        taker_side: Side,
    ) -> (r: Self)
        ensures
            r.qty == qty,
            r.price == price,
            r.taker_order_id == taker_order.id,
            r.maker_order_id == maker_order.id,
            r.take_side == taker_side,
    {
        TradeExecution {
            qty,
            price,
            taker_order_id: taker_order.id,
            maker_order_id: maker_order.id,
            take_side: taker_side,
            timestamp: timestamp(),
        }
    }
}


impl From<OrderRequest> for TradeOrder {
    fn from(r: OrderRequest) -> (t: TradeOrder) {
        TradeOrder::from_request(r)
    }
}

impl vstd::std_specs::convert::FromSpecImpl<OrderRequest> for TradeOrder {
    open spec fn obeys_from_spec() -> bool {
        false
    }

    open spec fn from_spec(r: OrderRequest) -> TradeOrder {
        arbitrary()
    }
}

impl From<TradeOrder> for OrderResult {
    fn from(t: TradeOrder) -> (r: OrderResult) {
        OrderResult::from_order(t)
    }
}

impl vstd::std_specs::convert::FromSpecImpl<TradeOrder> for OrderResult {
    open spec fn obeys_from_spec() -> bool {
        true
    }

    /// The order's fields carried over, with the status derived from it.
    open spec fn from_spec(t: TradeOrder) -> OrderResult {
        OrderResult {
            traid_id: t.id,
            side: t.side,
            order_type: t.order_type,
            initial_qty: t.initial_qty,
            remaining_qty: t.remaining_qty,
            fills: t.fills,
            status: status_of(t.remaining_qty, t.fills@, t.order_type),
        }
    }
}

} // verus!
