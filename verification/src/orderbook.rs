//! Price levels and order books: exact price keys, resting orders,
//! the FIFO fill algorithm, and routing of new orders by side and price.

use vstd::prelude::*;

verus! {

/// The fixed scale factor of a `Price`: fractional parts are expressed in
/// units of one part in `PRICE_SCALAR`.
pub const PRICE_SCALAR: u64 = 100000;

/// The side of an order: buy interest (`Bid`) or sell interest (`Ask`).
#[derive(Clone, Copy, Debug, PartialEq, Eq, Structural)]
pub enum BidOrAsk {
    Bid,
    Ask,
}

/// An exact, comparable price key: `integral + fractional / scalar`,
/// with `scalar` fixed at `PRICE_SCALAR`. Equality is exact equality of
/// all three fields; no floating point is involved.
#[derive(Clone, Copy, Debug, PartialEq, Eq, Hash, Structural)]
pub struct Price {
    pub integral: u64,
    pub fractional: u64,
    pub scalar: u64,
}

impl Price {
    /// A well-formed price carries the fixed scalar and a fractional part
    /// strictly below it.
    pub open spec fn wf(self) -> bool {
        self.scalar == PRICE_SCALAR && self.fractional < PRICE_SCALAR
    }

    /// Builds the exact key for `integral + fractional / PRICE_SCALAR`.
    /// A fractional part at or above the scalar does not denote a price
    /// and is rejected at this construction boundary.
    pub fn new(integral: u64, fractional: u64) -> (price: Price)
        requires
            fractional < PRICE_SCALAR,
        ensures
            price == (Price { integral, fractional, scalar: PRICE_SCALAR }),
            price.wf(),
    {
        Price { integral, fractional, scalar: PRICE_SCALAR }
    }

    /// The price as a single exact integer in units of `1 / PRICE_SCALAR`:
    /// `integral * PRICE_SCALAR + fractional`. This reconstruction is exact;
    /// no rounding takes place.
    pub fn get_price(&self) -> (scaled: u128)
        ensures
            scaled == self.integral as int * PRICE_SCALAR as int + self.fractional as int,
    {
        self.integral as u128 * PRICE_SCALAR as u128 + self.fractional as u128
    }
}

/// A single resting or incoming intent: a side and a remaining size.
/// Sizes are non-negative by type; the fill algorithm only ever decreases
/// them, driving filled orders to exactly zero.
#[derive(Clone, Copy, Debug, PartialEq, Eq, Structural)]
pub struct Order {
    pub size: u64,
    pub bid_or_ask: BidOrAsk,
}

impl Order {
    pub fn new(bid_or_ask: BidOrAsk, size: u64) -> (order: Order)
        ensures
            order == (Order { size, bid_or_ask }),
    {
        Order { size, bid_or_ask }
    }

    /// An order is filled exactly when its remaining size is zero.
    pub fn is_filled(&self) -> (filled: bool)
        ensures
            filled == (self.size == 0),
    {
        self.size == 0
    }
}

/// The remaining sizes of a sequence of orders, in sequence order.
pub open spec fn order_sizes(orders: Seq<Order>) -> Seq<u64> {
    Seq::new(orders.len(), |i: int| orders[i].size)
}

/// The sum of the remaining sizes of a sequence of orders.
pub open spec fn sum_sizes(orders: Seq<Order>) -> int
    decreases orders.len(),
{
    if orders.len() == 0 {
        0
    } else {
        sum_sizes(orders.drop_last()) + orders.last().size
    }
}

/// Appending one order grows the total volume of a level by exactly that
/// order's size: for any sequence of orders added to one empty level, the
/// volume before any fill is the sum of their sizes.
pub proof fn lemma_sum_sizes_push(orders: Seq<Order>, order: Order)
    ensures
        sum_sizes(orders.push(order)) == sum_sizes(orders) + order.size,
{
    assert(orders.push(order).drop_last() =~= orders);
}

/// The remaining sizes of the resting orders after an incoming order of
/// size `incoming` is matched against them in strict arrival order:
/// while the incoming size covers the head order, the head is driven to
/// exactly zero and matching continues on the rest; otherwise the head is
/// reduced by the incoming size and every later order is untouched.
pub open spec fn fill_sizes(sizes: Seq<u64>, incoming: u64) -> Seq<u64>
    decreases sizes.len(),
{
    if sizes.len() == 0 {
        sizes
    } else if incoming >= sizes[0] {
        seq![0u64] + fill_sizes(sizes.drop_first(), (incoming - sizes[0]) as u64)
    } else {
        seq![(sizes[0] - incoming) as u64] + sizes.drop_first()
    }
}

/// The size left on the incoming order after the same matching pass:
/// zero unless the resting orders are exhausted first.
pub open spec fn fill_remainder(sizes: Seq<u64>, incoming: u64) -> u64
    decreases sizes.len(),
{
    if sizes.len() == 0 {
        incoming
    } else if incoming >= sizes[0] {
        fill_remainder(sizes.drop_first(), (incoming - sizes[0]) as u64)
    } else {
        0
    }
}

/// An incoming order with nothing left to fill changes no resting order.
pub proof fn lemma_fill_zero(sizes: Seq<u64>)
    ensures
        fill_sizes(sizes, 0) =~= sizes,
        fill_remainder(sizes, 0) == 0,
    decreases sizes.len(),
{
    if sizes.len() > 0 {
        if sizes[0] == 0 {
            lemma_fill_zero(sizes.drop_first());
        }
    }
}

/// A fill never grows a size: every resting order keeps or reduces its
/// size, the incoming order keeps or reduces its size, and no order is
/// added or removed. Sizes are unsigned, so none can turn negative.
pub proof fn lemma_fill_sizes_bounded(sizes: Seq<u64>, incoming: u64)
    ensures
        fill_sizes(sizes, incoming).len() == sizes.len(),
        forall|i: int| 0 <= i < sizes.len() ==> fill_sizes(sizes, incoming)[i] <= sizes[i],
        fill_remainder(sizes, incoming) <= incoming,
    decreases sizes.len(),
{
    if sizes.len() > 0 {
        let rest = sizes.drop_first();
        if incoming >= sizes[0] {
            let left = (incoming - sizes[0]) as u64;
            lemma_fill_sizes_bounded(rest, left);
            assert forall|i: int| 0 <= i < sizes.len()
                implies fill_sizes(sizes, incoming)[i] <= sizes[i] by {
                if i > 0 {
                    assert(fill_sizes(sizes, incoming)[i] == fill_sizes(rest, left)[i - 1]);
                    assert(rest[i - 1] == sizes[i]);
                } else {
                    assert(fill_sizes(sizes, incoming)[0] == 0);
                }
            }
        } else {
            assert forall|i: int| 0 <= i < sizes.len()
                implies fill_sizes(sizes, incoming)[i] <= sizes[i] by {
                if i > 0 {
                    assert(fill_sizes(sizes, incoming)[i] == rest[i - 1]);
                    assert(rest[i - 1] == sizes[i]);
                }
            }
        }
    }
}

/// After a fill pass, either the incoming order is filled, or every
/// resting order at the level is filled (the level was exhausted).
pub proof fn lemma_fill_exhausts(sizes: Seq<u64>, incoming: u64)
    ensures
        fill_remainder(sizes, incoming) == 0 || forall|i: int|
            0 <= i < sizes.len() ==> fill_sizes(sizes, incoming)[i] == 0,
    decreases sizes.len(),
{
    if sizes.len() > 0 && incoming >= sizes[0] {
        let rest = sizes.drop_first();
        let left = (incoming - sizes[0]) as u64;
        lemma_fill_exhausts(rest, left);
        lemma_fill_sizes_bounded(rest, left);
        if fill_remainder(sizes, incoming) != 0 {
            assert(fill_remainder(rest, left) == fill_remainder(sizes, incoming));
            assert forall|i: int| 0 <= i < sizes.len()
                implies fill_sizes(sizes, incoming)[i] == 0 by {
                if i > 0 {
                    assert(fill_sizes(rest, left)[i - 1] == 0);
                    assert(fill_sizes(sizes, incoming)[i] == fill_sizes(rest, left)[i - 1]);
                } else {
                    assert(fill_sizes(sizes, incoming)[0] == 0);
                }
            }
        }
    }
}

/// A fill respects strict arrival order: if a later resting order was
/// touched at all, every earlier resting order was fully filled.
pub proof fn lemma_fill_fifo(sizes: Seq<u64>, incoming: u64)
    ensures
        forall|i: int, j: int|
            0 <= i < j < sizes.len() && fill_sizes(sizes, incoming)[j] != sizes[j]
                ==> fill_sizes(sizes, incoming)[i] == 0,
    decreases sizes.len(),
{
    if sizes.len() > 0 && incoming >= sizes[0] {
        let rest = sizes.drop_first();
        let left = (incoming - sizes[0]) as u64;
        lemma_fill_fifo(rest, left);
        lemma_fill_sizes_bounded(rest, left);
        assert forall|i: int, j: int|
            0 <= i < j < sizes.len() && fill_sizes(sizes, incoming)[j] != sizes[j]
                implies fill_sizes(sizes, incoming)[i] == 0 by {
            assert(fill_sizes(sizes, incoming)[j] == fill_sizes(rest, left)[j - 1]);
            assert(rest[j - 1] == sizes[j]);
            if i > 0 {
                assert(fill_sizes(rest, left)[j - 1] != rest[j - 1]);
                assert(fill_sizes(rest, left)[i - 1] == 0);
                assert(fill_sizes(sizes, incoming)[i] == fill_sizes(rest, left)[i - 1]);
            } else {
                assert(fill_sizes(sizes, incoming)[0] == 0);
            }
        }
    }
}

/// All orders resting at one exact price, in arrival order: insertion
/// order is time priority.
#[derive(Debug)]
pub struct Limit {
    pub price: Price,
    pub orders: Vec<Order>,
}

impl Limit {
    /// A fresh level at `price`, holding no orders yet.
    pub fn new(price: Price) -> (limit: Limit)
        ensures
            limit.price == price,
            limit.orders@ =~= Seq::<Order>::empty(),
    {
        Limit { price, orders: Vec::new() }
    }

    /// Appends `order` at the back of the level: latest arrival, lowest
    /// time priority.
    pub fn add_order(&mut self, order: Order)
        ensures
            final(self).price == old(self).price,
            final(self).orders@ == old(self).orders@.push(order),
    {
        self.orders.push(order);
    }

    /// The total remaining size resting at this level, or `None` when no
    /// order rests here at all: an empty level is distinguishable from a
    /// level whose orders sum to zero.
    pub fn total_volume(&self) -> (volume: Option<u128>)
        ensures
            match volume {
                Some(v) => self.orders@.len() > 0 && v == sum_sizes(self.orders@),
                None => self.orders@.len() == 0,
            },
    {
        if self.orders.len() == 0 {
            return None;
        }
        let mut total: u128 = 0;
        let mut i: usize = 0;
        while i < self.orders.len()
            invariant
                0 <= i <= self.orders@.len(),
                total == sum_sizes(self.orders@.subrange(0, i as int)),
                total <= i * u64::MAX,
            decreases self.orders@.len() - i,
        {
            proof {
                assert(self.orders@.subrange(0, i + 1).drop_last()
                    =~= self.orders@.subrange(0, i as int));
            }
            total = total + self.orders[i].size as u128;
            i = i + 1;
        }
        proof {
            assert(self.orders@.subrange(0, self.orders@.len() as int) =~= self.orders@);
        }
        Some(total)
    }

    /// Matches `market_order` against the resting orders in strict arrival
    /// order, regardless of side. Each resting order reached is either fully
    /// filled (when the incoming size covers it) or reduced by the whole
    /// incoming size; matching stops as soon as the incoming order is
    /// filled. Filled resting orders stay in the sequence. No size ever
    /// grows, and afterwards either the incoming order is filled or every
    /// resting order at this level is.
    pub fn fill_order(&mut self, market_order: &mut Order)
        ensures
            final(self).price == old(self).price,
            final(self).orders@.len() == old(self).orders@.len(),
            forall|i: int| 0 <= i < old(self).orders@.len()
                ==> final(self).orders@[i].bid_or_ask == old(self).orders@[i].bid_or_ask,
            order_sizes(final(self).orders@)
                == fill_sizes(order_sizes(old(self).orders@), old(market_order).size),
            final(market_order).size
                == fill_remainder(order_sizes(old(self).orders@), old(market_order).size),
            final(market_order).bid_or_ask == old(market_order).bid_or_ask,
            final(market_order).size <= old(market_order).size,
            forall|i: int| 0 <= i < old(self).orders@.len()
                ==> final(self).orders@[i].size <= old(self).orders@[i].size,
            final(market_order).size == 0 || forall|i: int|
                0 <= i < final(self).orders@.len() ==> final(self).orders@[i].size == 0,
    {
        let ghost start_orders = old(self).orders@;
        let ghost start_sizes = order_sizes(old(self).orders@);
        let ghost start_incoming = old(market_order).size;
        let ghost start_side = old(market_order).bid_or_ask;
        let ghost start_price = old(self).price;
        proof {
            assert(order_sizes(self.orders@).take(0) =~= Seq::<u64>::empty());
            assert(order_sizes(self.orders@).skip(0) =~= start_sizes);
            assert(Seq::<u64>::empty() + fill_sizes(start_sizes, start_incoming)
                =~= fill_sizes(start_sizes, start_incoming));
        }
        let mut i: usize = 0;
        while i < self.orders.len()
            invariant_except_break
                0 <= i <= self.orders@.len(),
                start_sizes == order_sizes(start_orders),
                self.orders@.len() == start_orders.len(),
                self.price == start_price,
                market_order.bid_or_ask == start_side,
                market_order.size <= start_incoming,
                forall|k: int| 0 <= k < start_orders.len()
                    ==> self.orders@[k].bid_or_ask == start_orders[k].bid_or_ask,
                forall|k: int| 0 <= k < start_orders.len()
                    ==> self.orders@[k].size <= start_orders[k].size,
                order_sizes(self.orders@).skip(i as int) == start_sizes.skip(i as int),
                fill_sizes(start_sizes, start_incoming)
                    == order_sizes(self.orders@).take(i as int)
                        + fill_sizes(start_sizes.skip(i as int), market_order.size),
                fill_remainder(start_sizes, start_incoming)
                    == fill_remainder(start_sizes.skip(i as int), market_order.size),
                i == start_orders.len() ==> order_sizes(self.orders@)
                    == fill_sizes(start_sizes, start_incoming) && market_order.size
                    == fill_remainder(start_sizes, start_incoming),
            ensures
                self.orders@.len() == start_orders.len(),
                self.price == start_price,
                market_order.bid_or_ask == start_side,
                market_order.size <= start_incoming,
                forall|k: int| 0 <= k < start_orders.len()
                    ==> self.orders@[k].bid_or_ask == start_orders[k].bid_or_ask,
                forall|k: int| 0 <= k < start_orders.len()
                    ==> self.orders@[k].size <= start_orders[k].size,
                order_sizes(self.orders@) == fill_sizes(start_sizes, start_incoming),
                market_order.size == fill_remainder(start_sizes, start_incoming),
            decreases self.orders@.len() - i,
        {
            let ghost before = order_sizes(self.orders@);
            let ghost rem_before = market_order.size;
            let resting = &mut self.orders[i];
            if market_order.size >= resting.size {
                market_order.size = market_order.size - resting.size;
                resting.size = 0;
            } else {
                resting.size = resting.size - market_order.size;
                market_order.size = 0;
            }
            proof {
                let cur = order_sizes(self.orders@);
                let head = seq![cur[i as int]];
                let tail_fill = fill_sizes(cur.skip(i + 1), market_order.size);
                assert(cur =~= before.update(i as int, cur[i as int]));
                assert(before.skip(i as int)[0] == before[i as int]);
                assert(cur.skip(i + 1) =~= before.skip(i as int).drop_first());
                assert(start_sizes.len() == start_orders.len());
                assert(i < start_sizes.len());
                assert(start_sizes.skip(i as int).drop_first() =~= start_sizes.skip(i + 1));
                assert(cur.skip(i + 1) == start_sizes.skip(i + 1));
                assert(fill_sizes(start_sizes.skip(i as int), rem_before)
                    == fill_sizes(before.skip(i as int), rem_before));
                if rem_before >= before[i as int] {
                    assert(fill_sizes(before.skip(i as int), rem_before) =~= head + tail_fill);
                    assert(fill_remainder(start_sizes.skip(i as int), rem_before)
                        == fill_remainder(start_sizes.skip(i + 1), market_order.size));
                } else {
                    assert(fill_sizes(before.skip(i as int), rem_before)
                        =~= head + cur.skip(i + 1));
                    lemma_fill_zero(start_sizes.skip(i + 1));
                    assert(fill_remainder(start_sizes.skip(i as int), rem_before)
                        == fill_remainder(start_sizes.skip(i + 1), market_order.size));
                }
                assert(cur.take(i + 1) =~= before.take(i as int) + head);
                assert((before.take(i as int) + head) + tail_fill
                    =~= before.take(i as int) + (head + tail_fill));
                assert(fill_sizes(start_sizes, start_incoming)
                    =~= cur.take(i + 1) + tail_fill);
            }
            i = i + 1;
            proof {
                let cur = order_sizes(self.orders@);
                if i == start_orders.len() {
                    assert(cur.skip(i as int) =~= Seq::<u64>::empty());
                    assert(cur.take(i as int) =~= cur);
                    assert(fill_sizes(start_sizes, start_incoming)
                        =~= cur + fill_sizes(cur.skip(i as int), market_order.size));
                }
            }
            if market_order.is_filled() {
                proof {
                    let cur = order_sizes(self.orders@);
                    lemma_fill_zero(cur.skip(i as int));
                    assert(cur.take(i as int) + cur.skip(i as int) =~= cur);
                }
                break;
            }
        }
        proof {
            lemma_fill_exhausts(start_sizes, start_incoming);
            if market_order.size != 0 {
                assert forall|k: int| 0 <= k < self.orders@.len()
                    implies self.orders@[k].size == 0 by {
                    assert(order_sizes(self.orders@)[k] == 0);
                }
            }
        }
    }
}

/// Whether some level in `limits` carries the exact price `price`.
pub open spec fn has_limit(limits: Seq<Limit>, price: Price) -> bool {
    exists|i: int| 0 <= i < limits.len() && limits[i].price == price
}

/// Each price appears in at most one level of a side.
pub open spec fn distinct_prices(limits: Seq<Limit>) -> bool {
    forall|i: int, j: int| 0 <= i < j < limits.len() ==> limits[i].price != limits[j].price
}

/// Every order resting in any level of `limits` is on `side`.
pub open spec fn all_on_side(limits: Seq<Limit>, side: BidOrAsk) -> bool {
    forall|i: int, j: int|
        0 <= i < limits.len() && 0 <= j < limits[i].orders@.len()
            ==> limits[i].orders@[j].bid_or_ask == side
}

/// How one side of a book changes when `order` is placed at `price`:
/// the level carrying that exact price gains the order at its back, every
/// other level is untouched, and when no level carries the price a fresh
/// level holding only the order is appended.
pub open spec fn side_after_add(
    before: Seq<Limit>,
    after: Seq<Limit>,
    price: Price,
    order: Order,
) -> bool {
    if has_limit(before, price) {
        &&& after.len() == before.len()
        &&& forall|i: int| 0 <= i < before.len() && before[i].price == price
            ==> after[i].price == price && after[i].orders@ == before[i].orders@.push(order)
        &&& forall|i: int| 0 <= i < before.len() && before[i].price != price
            ==> after[i] == before[i]
    } else {
        &&& after.len() == before.len() + 1
        &&& forall|i: int| 0 <= i < before.len() ==> after[i] == before[i]
        &&& after.last().price == price
        &&& after.last().orders@ == seq![order]
    }
}

/// How a whole book changes when `order` is placed at `price`: the side
/// named by the order changes as `side_after_add` says, the other side is
/// untouched.
pub open spec fn book_after_add(
    before: OrderBook,
    after: OrderBook,
    price: Price,
    order: Order,
) -> bool {
    match order.bid_or_ask {
        BidOrAsk::Bid => side_after_add(before.bids@, after.bids@, price, order)
            && after.asks@ == before.asks@,
        BidOrAsk::Ask => side_after_add(before.asks@, after.asks@, price, order)
            && after.bids@ == before.bids@,
    }
}

/// Two mappings from exact price to level, one per side. Within a side a
/// price appears in at most one level; the two sides are independent.
#[derive(Debug)]
pub struct OrderBook {
    pub asks: Vec<Limit>,
    pub bids: Vec<Limit>,
}

impl OrderBook {
    /// Both sides keep their prices distinct, and every resting order
    /// lies on the side of the book that carries it.
    pub open spec fn wf(self) -> bool {
        &&& distinct_prices(self.asks@)
        &&& distinct_prices(self.bids@)
        &&& all_on_side(self.asks@, BidOrAsk::Ask)
        &&& all_on_side(self.bids@, BidOrAsk::Bid)
    }

    /// A book with two empty sides.
    pub fn new() -> (book: OrderBook)
        ensures
            book.asks@ =~= Seq::<Limit>::empty(),
            book.bids@ =~= Seq::<Limit>::empty(),
            book.wf(),
    {
        OrderBook { asks: Vec::new(), bids: Vec::new() }
    }

    /// Routes `order` to the side its own tag names and rests it at the
    /// level with exactly `price`, creating that level on first use.
    /// Placing an order is pure insertion: the opposite side is never
    /// consulted, never changed, and no matching is attempted here.
    pub fn add_order(&mut self, price: Price, order: Order)
        requires
            old(self).wf(),
        ensures
            final(self).wf(),
            book_after_add(*old(self), *final(self), price, order),
    {
        match order.bid_or_ask {
            BidOrAsk::Ask => add_to_side(&mut self.asks, price, order),
            BidOrAsk::Bid => add_to_side(&mut self.bids, price, order),
        }
    }
}

/// Rests `order` on one side: appends it to the level carrying exactly
/// `price`, or appends a fresh level holding only the order when no level
/// carries that price yet.
fn add_to_side(limits: &mut Vec<Limit>, price: Price, order: Order)
    requires
        distinct_prices(old(limits)@),
        all_on_side(old(limits)@, order.bid_or_ask),
    ensures
        distinct_prices(final(limits)@),
        all_on_side(final(limits)@, order.bid_or_ask),
        side_after_add(old(limits)@, final(limits)@, price, order),
{
    let mut i: usize = 0;
    while i < limits.len()
        invariant
            0 <= i <= limits@.len(),
            limits@ == old(limits)@,
            distinct_prices(limits@),
            all_on_side(limits@, order.bid_or_ask),
            forall|k: int| 0 <= k < i ==> limits@[k].price != price,
        decreases limits@.len() - i,
    {
        if limits[i].price == price {
            let level = &mut limits[i];
            level.add_order(order);
            proof {
                assert(has_limit(old(limits)@, price));
                assert forall|a: int, b: int|
                    0 <= a < limits@.len() && 0 <= b < limits@[a].orders@.len()
                    implies limits@[a].orders@[b].bid_or_ask == order.bid_or_ask by {
                    if a == i {
                        assert(limits@[a].orders@ == old(limits)@[a].orders@.push(order));
                        if b < old(limits)@[a].orders@.len() {
                            assert(limits@[a].orders@[b] == old(limits)@[a].orders@[b]);
                            assert(old(limits)@[a].orders@[b].bid_or_ask == order.bid_or_ask);
                        } else {
                            assert(limits@[a].orders@[b] == order);
                        }
                    } else {
                        assert(limits@[a] == old(limits)@[a]);
                        assert(old(limits)@[a].orders@[b].bid_or_ask == order.bid_or_ask);
                    }
                }
            }
            return;
        }
        i = i + 1;
    }
    let mut level = Limit::new(price);
    level.add_order(order);
    limits.push(level);
    proof {
        assert(!has_limit(old(limits)@, price));
        assert(final(limits)@.last().orders@ =~= seq![order]);
    }
}

} // verus!
