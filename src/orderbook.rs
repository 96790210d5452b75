use vstd::prelude::*;

verus! {

/// Number of fraction units in one whole price unit (five decimal digits).
pub const PRICE_SCALAR: u64 = 100000;

/// The side of an order: buying (`Bid`) or selling (`Ask`).
#[derive(Debug, Clone, Copy, PartialEq, Eq, Structural)]
pub enum OrderType {
    Bid,
    Ask,
}

/// A fixed-point price key: a whole part and a fraction in units of `1 / PRICE_SCALAR`.
#[derive(Debug, Clone, Copy, PartialEq, Eq, Hash, Structural)]
pub struct Price {
    integer: u64,
    fraction: u64,
    scalar: u64,
}

impl Price {
    /// The whole part of the price.
    pub closed spec fn whole(self) -> u64 {
        self.integer
    }

    /// The fractional part, in units of `1 / PRICE_SCALAR`.
    pub closed spec fn frac(self) -> u64 {
        self.fraction
    }

    /// Every price carries the fixed scalar and a fraction below it.
    pub closed spec fn wf(self) -> bool {
        self.scalar == PRICE_SCALAR && self.fraction < PRICE_SCALAR
    }

    /// The price with the given parts.
    pub closed spec fn spec_new(integer: u64, fraction: u64) -> Price {
        Price { integer, fraction, scalar: PRICE_SCALAR }
    }

    pub fn new(integer: u64, fraction: u64) -> (r: Price)
        requires
            fraction < PRICE_SCALAR,
        ensures
            r == Price::spec_new(integer, fraction),
            r.wf(),
            r.whole() == integer,
            r.frac() == fraction,
    {
        Price { integer, fraction, scalar: PRICE_SCALAR }
    }

    pub fn integer(&self) -> (r: u64)
        ensures
            r == self.whole(),
    {
        self.integer
    }

    pub fn fraction(&self) -> (r: u64)
        ensures
            r == self.frac(),
    {
        self.fraction
    }

    /// Lexicographic comparison on (whole part, fraction).
    pub fn cmp(&self, other: &Price) -> (r: std::cmp::Ordering)
        ensures
            (r == std::cmp::Ordering::Less) == price_lt(*self, *other),
            (r == std::cmp::Ordering::Greater) == price_lt(*other, *self),
            (r == std::cmp::Ordering::Equal) == same_price(*self, *other),
    {
        if self.integer < other.integer {
            std::cmp::Ordering::Less
        } else if self.integer > other.integer {
            std::cmp::Ordering::Greater
        } else if self.fraction < other.fraction {
            std::cmp::Ordering::Less
        } else if self.fraction > other.fraction {
            std::cmp::Ordering::Greater
        } else {
            std::cmp::Ordering::Equal
        }
    }
}

/// `a` is strictly below `b`: whole parts first, then fractions.
pub open spec fn price_lt(a: Price, b: Price) -> bool {
    a.whole() < b.whole() || (a.whole() == b.whole() && a.frac() < b.frac())
}

/// `a` and `b` name the same price level.
pub open spec fn same_price(a: Price, b: Price) -> bool {
    a.whole() == b.whole() && a.frac() == b.frac()
}

/// Two well-formed prices are equal exactly when their parts are.
pub proof fn lemma_price_equality(a: Price, b: Price)
    requires
        a.wf(),
        b.wf(),
    ensures
        (a == b) == same_price(a, b),
{
}

/// Building a price is deterministic: two prices built from parts are equal
/// exactly when the parts are, and every price is the same level as itself.
pub proof fn lemma_price_new_deterministic(integer: u64, fraction: u64, integer2: u64, fraction2: u64)
    requires
        fraction < PRICE_SCALAR,
        fraction2 < PRICE_SCALAR,
    ensures
        (Price::spec_new(integer, fraction) == Price::spec_new(integer2, fraction2)) == (integer == integer2
            && fraction == fraction2),
        same_price(Price::spec_new(integer, fraction), Price::spec_new(integer, fraction)),
        Price::spec_new(integer, fraction).wf(),
{
}

/// Replacing an order's size sets its size and keeps its side.
pub broadcast proof fn lemma_with_size(o: Order, size: u64)
    ensures
        (#[trigger] o.with_size(size)).spec_size() == size,
        o.with_size(size).spec_side() == o.spec_side(),
        o.with_size(o.spec_size()) == o,
{
}

/// A quantity resting in, or arriving at, the book, with a fixed side.
#[derive(Debug, Clone, Copy)]
pub struct Order {
    size: u64,
    order_type: OrderType,
}

impl Order {
    /// The remaining, unfilled quantity.
    pub closed spec fn spec_size(self) -> u64 {
        self.size
    }

    pub closed spec fn spec_side(self) -> OrderType {
        self.order_type
    }

    /// The same order with its remaining quantity replaced.
    pub closed spec fn with_size(self, size: u64) -> Order {
        Order { size, order_type: self.order_type }
    }

    pub fn new(size: u64, order_type: OrderType) -> (r: Order)
        ensures
            r.spec_size() == size,
            r.spec_side() == order_type,
    {
        Order { size, order_type }
    }

    pub fn size(&self) -> (r: u64)
        ensures
            r == self.spec_size(),
    {
        self.size
    }

    pub fn order_type(&self) -> (r: OrderType)
        ensures
            r == self.spec_side(),
    {
        self.order_type
    }

    pub fn is_filled(&self) -> (r: bool)
        ensures
            r == (self.spec_size() == 0),
    {
        self.size == 0
    }
}

/// What filling an incoming quantity `m` against a FIFO queue of resting orders
/// leaves: the queue after the fill, and the incoming quantity still unfilled.
/// The head of the queue is consumed first; a resting order that the incoming
/// quantity covers drops to zero, one that it does not cover shrinks by it.
pub open spec fn fill_queue(orders: Seq<Order>, m: u64) -> (Seq<Order>, u64)
    decreases orders.len(),
{
    if orders.len() == 0 || m == 0 {
        (orders, m)
    } else if m >= orders[0].spec_size() {
        let rest = fill_queue(orders.drop_first(), (m - orders[0].spec_size()) as u64);
        (seq![orders[0].with_size(0)] + rest.0, rest.1)
    } else {
        (orders.update(0, orders[0].with_size((orders[0].spec_size() - m) as u64)), 0)
    }
}

/// The sum of the remaining quantities of `orders`.
pub open spec fn total_size(orders: Seq<Order>) -> int
    decreases orders.len(),
{
    if orders.len() == 0 {
        0
    } else {
        total_size(orders.drop_last()) + orders.last().spec_size()
    }
}

/// All resting orders at one price, in arrival order.
#[derive(Debug)]
pub struct Limit {
    price: Price,
    orders: Vec<Order>,
}

impl View for Limit {
    type V = (Price, Seq<Order>);

    closed spec fn view(&self) -> (Price, Seq<Order>) {
        (self.price, self.orders@)
    }
}

impl Limit {
    pub fn new(price: Price) -> (r: Limit)
        ensures
            r@ == (price, Seq::<Order>::empty()),
    {
        Limit { price, orders: Vec::new() }
    }

    pub fn price(&self) -> (r: Price)
        ensures
            r == self@.0,
    {
        self.price
    }

    pub fn len(&self) -> (r: usize)
        ensures
            r == self@.1.len(),
    {
        self.orders.len()
    }

    /// Sum of all current order sizes, filled ones included.
    pub fn volume(&self) -> (r: u128)
        ensures
            r == total_size(self@.1),
    {
        let mut acc: u128 = 0;
        let mut i: usize = 0;
        while i < self.orders.len()
            invariant
                i <= self.orders@.len(),
                acc == total_size(self.orders@.take(i as int)),
                acc <= i * (u64::MAX as int),
            decreases self.orders@.len() - i,
        {
            let ghost before = self.orders@.take(i as int);
            assert(self.orders@.take(i + 1).drop_last() == before);
            proof {
                assert(acc + self.orders@[i as int].spec_size() <= (i + 1) * (u64::MAX as int))
                    by (nonlinear_arith)
                    requires
                        acc <= i * (u64::MAX as int),
                        self.orders@[i as int].spec_size() <= u64::MAX,
                ;
                assert((i + 1) * (u64::MAX as int) <= (usize::MAX as int) * (u64::MAX as int))
                    by (nonlinear_arith)
                    requires
                        i + 1 <= usize::MAX,
                ;
            }
            acc = acc + self.orders[i].size as u128;
            i = i + 1;
        }
        assert(self.orders@.take(i as int) == self.orders@);
        acc
    }

    /// The remaining size of the order at position `order_id`, if there is one.
    pub fn get_size_by_order_id(&self, order_id: u64) -> (r: Option<u64>)
        ensures
            order_id < self@.1.len() ==> r == Some(self@.1[order_id as int].spec_size()),
            order_id >= self@.1.len() ==> r is None,
    {
        if order_id < self.orders.len() as u64 {
            Some(self.orders[order_id as usize].size)
        } else {
            None
        }
    }

    /// Whether the order at position `order_id` is filled, if there is one.
    pub fn is_filled_by_order_id(&self, order_id: u64) -> (r: Option<bool>)
        ensures
            order_id < self@.1.len() ==> r == Some(self@.1[order_id as int].spec_size() == 0),
            order_id >= self@.1.len() ==> r is None,
    {
        if order_id < self.orders.len() as u64 {
            Some(self.orders[order_id as usize].is_filled())
        } else {
            None
        }
    }

    /// Appends `order` to the tail of the queue.
    pub fn add_order(&mut self, order: Order)
        ensures
            final(self)@ == (old(self)@.0, old(self)@.1.push(order)),
    {
        self.orders.push(order);
    }

    /// Fills `market_order` against the queue, earliest resting order first,
    /// until it is filled or the queue is exhausted.
    pub fn fill_order(&mut self, market_order: &mut Order)
        ensures
            final(self)@ == (old(self)@.0, fill_queue(old(self)@.1, old(market_order).spec_size()).0),
            *final(market_order) == old(market_order).with_size(
                fill_queue(old(self)@.1, old(market_order).spec_size()).1,
            ),
    {
        let ghost orig = self.orders@;
        let ghost m0 = market_order.size;
        let n = self.orders.len();
        let mut i: usize = 0;
        assert(self.orders@.skip(0) == orig);
        assert(self.orders@.take(0) + fill_queue(orig, m0).0 == fill_queue(orig, m0).0);
        while i < n && market_order.size > 0
            invariant
                n == self.orders@.len(),
                orig.len() == n,
                i <= n,
                self.price == old(self).price,
                market_order.order_type == old(market_order).order_type,
                m0 == old(market_order).size,
                orig == old(self).orders@,
                self.orders@.skip(i as int) == orig.skip(i as int),
                fill_queue(orig, m0) == (
                    self.orders@.take(i as int) + fill_queue(self.orders@.skip(i as int), market_order.size).0,
                    fill_queue(self.orders@.skip(i as int), market_order.size).1,
                ),
            decreases n - i,
        {
            let ghost cur = self.orders@;
            let ghost m = market_order.size;
            let ghost tail = cur.skip(i as int);
            assert(tail[0] == cur[i as int]);
            let resting = self.orders[i].size;
            if market_order.size >= resting {
                market_order.size = market_order.size - resting;
                self.orders[i].size = 0;
                assert(self.orders@.take(i + 1) == cur.take(i as int) + seq![cur[i as int].with_size(0)]);
                assert(self.orders@.skip(i + 1) == tail.drop_first());
            } else {
                self.orders[i].size = resting - market_order.size;
                market_order.size = 0;
                assert(self.orders@ == cur.take(i as int) + tail.update(0, tail[0].with_size((resting - m) as u64)));
                assert(self.orders@.take(i + 1) + self.orders@.skip(i + 1) == self.orders@);
            }
            i = i + 1;
        }
        assert(self.orders@.take(i as int) + self.orders@.skip(i as int) == self.orders@);
    }
}

/// A price level as contracts see it: its price and its queue.
pub type Level = (Price, Seq<Order>);

/// The levels that a vector of limits holds, in the same order.
pub open spec fn levels_of(limits: Seq<Limit>) -> Seq<Level> {
    limits.map_values(|l: Limit| l@)
}

/// Matching priority on one side: the lowest ask first, the highest bid first.
pub open spec fn ranks_before(side: OrderType, a: Price, b: Price) -> bool {
    match side {
        OrderType::Ask => price_lt(a, b),
        OrderType::Bid => price_lt(b, a),
    }
}

/// One side of a book: levels in strict priority order, none empty, every
/// resting order of that side.
pub open spec fn side_wf(levels: Seq<Level>, side: OrderType) -> bool {
    &&& forall|i: int, j: int|
        0 <= i < j < levels.len() ==> ranks_before(side, #[trigger] levels[i].0, #[trigger] levels[j].0)
    &&& forall|i: int| 0 <= i < levels.len() ==> (#[trigger] levels[i]).1.len() > 0
    &&& forall|i: int, k: int|
        0 <= i < levels.len() && 0 <= k < levels[i].1.len() ==> (#[trigger] levels[i].1[k]).spec_side() == side
}

/// `after` is `before` with `order` placed at `price`: appended to the level of
/// that price where there is one, else in a new level of its own.
pub open spec fn added_level(before: Seq<Level>, after: Seq<Level>, price: Price, order: Order) -> bool {
    ||| exists|i: int|
        0 <= i < before.len() && same_price(#[trigger] before[i].0, price) && after == before.update(
            i,
            (before[i].0, before[i].1.push(order)),
        )
    ||| (forall|i: int| 0 <= i < before.len() ==> !same_price(#[trigger] before[i].0, price)) && exists|k: int|
        0 <= k <= before.len() && after == before.insert(k, (price, seq![order]))
}

/// Filling `m` against the levels in order: each level's queue in turn, until
/// nothing of `m` is left or the levels are exhausted.
pub open spec fn fill_levels(levels: Seq<Level>, m: u64) -> (Seq<Level>, u64)
    decreases levels.len(),
{
    if levels.len() == 0 || m == 0 {
        (levels, m)
    } else {
        let first = fill_queue(levels[0].1, m);
        let rest = fill_levels(levels.drop_first(), first.1);
        (seq![(levels[0].0, first.0)] + rest.0, rest.1)
    }
}

/// The side that an incoming order of `side` trades against.
pub open spec fn opposite(side: OrderType) -> OrderType {
    match side {
        OrderType::Bid => OrderType::Ask,
        OrderType::Ask => OrderType::Bid,
    }
}

/// A fill keeps the queue's length and each order's side.
pub proof fn lemma_fill_queue_shape(orders: Seq<Order>, m: u64)
    ensures
        fill_queue(orders, m).0.len() == orders.len(),
        forall|k: int|
            0 <= k < orders.len() ==> (#[trigger] fill_queue(orders, m).0[k]).spec_side() == orders[k].spec_side(),
    decreases orders.len(),
{
    if orders.len() > 0 && m > 0 && m >= orders[0].spec_size() {
        let rest = orders.drop_first();
        lemma_fill_queue_shape(rest, (m - orders[0].spec_size()) as u64);
        assert forall|k: int| 0 <= k < orders.len() implies (#[trigger] fill_queue(orders, m).0[k]).spec_side()
            == orders[k].spec_side() by {
            if k > 0 {
                assert(fill_queue(orders, m).0[k] == fill_queue(rest, (m - orders[0].spec_size()) as u64).0[k - 1]);
            }
        }
    }
}

/// A fill across levels keeps every price, every queue's length and every side.
pub proof fn lemma_fill_levels_shape(levels: Seq<Level>, m: u64)
    ensures
        fill_levels(levels, m).0.len() == levels.len(),
        forall|i: int|
            0 <= i < levels.len() ==> (#[trigger] fill_levels(levels, m).0[i]).0 == levels[i].0
                && fill_levels(levels, m).0[i].1.len() == levels[i].1.len(),
        forall|i: int, k: int|
            0 <= i < levels.len() && 0 <= k < levels[i].1.len() ==> (#[trigger] fill_levels(levels, m).0[i].1[k]).spec_side()
                == levels[i].1[k].spec_side(),
    decreases levels.len(),
{
    if levels.len() > 0 && m > 0 {
        let first = fill_queue(levels[0].1, m);
        let rest = levels.drop_first();
        lemma_fill_queue_shape(levels[0].1, m);
        lemma_fill_levels_shape(rest, first.1);
        let r = fill_levels(levels, m).0;
        assert forall|i: int| 1 <= i < levels.len() implies #[trigger] r[i] == fill_levels(rest, first.1).0[i - 1] by {}
        assert forall|i: int, k: int|
            0 <= i < levels.len() && 0 <= k < levels[i].1.len() implies (#[trigger] r[i].1[k]).spec_side()
                == levels[i].1[k].spec_side() by {
            if i > 0 {
                assert(r[i] == fill_levels(rest, first.1).0[i - 1]);
                assert(rest[i - 1] == levels[i]);
            }
        }
    }
}

/// A fill keeps a side well formed.
pub proof fn lemma_fill_levels_wf(levels: Seq<Level>, side: OrderType, m: u64)
    requires
        side_wf(levels, side),
    ensures
        side_wf(fill_levels(levels, m).0, side),
{
    lemma_fill_levels_shape(levels, m);
    let r = fill_levels(levels, m).0;
    assert forall|i: int, k: int| 0 <= i < r.len() && 0 <= k < r[i].1.len() implies (#[trigger] r[i].1[k]).spec_side()
        == side by {
        assert(r[i].1[k].spec_side() == levels[i].1[k].spec_side());
    }
    assert forall|i: int, j: int| 0 <= i < j < r.len() implies ranks_before(side, #[trigger] r[i].0, #[trigger] r[j].0) by {
        assert(r[i].0 == levels[i].0);
        assert(r[j].0 == levels[j].0);
    }
    assert forall|i: int| 0 <= i < r.len() implies (#[trigger] r[i]).1.len() > 0 by {
        assert(r[i].1.len() == levels[i].1.len());
    }
}

/// `after` is `before` with `order` rested at `price` on the order's own side,
/// the other side unchanged.
pub open spec fn book_added(before: OrderBook, after: OrderBook, price: Price, order: Order) -> bool {
    &&& added_level(before.levels(order.spec_side()), after.levels(order.spec_side()), price, order)
    &&& after.levels(opposite(order.spec_side())) == before.levels(opposite(order.spec_side()))
}

/// The order book of one market: asks ascending by price, bids descending.
#[derive(Debug)]
pub struct OrderBook {
    asks: Vec<Limit>,
    bids: Vec<Limit>,
}

impl OrderBook {
    /// The ask levels, best (lowest) price first.
    pub closed spec fn ask_levels(&self) -> Seq<Level> {
        levels_of(self.asks@)
    }

    /// The bid levels, best (highest) price first.
    pub closed spec fn bid_levels(&self) -> Seq<Level> {
        levels_of(self.bids@)
    }

    /// The levels of one side.
    pub open spec fn levels(&self, side: OrderType) -> Seq<Level> {
        match side {
            OrderType::Ask => self.ask_levels(),
            OrderType::Bid => self.bid_levels(),
        }
    }

    pub open spec fn wf(&self) -> bool {
        side_wf(self.ask_levels(), OrderType::Ask) && side_wf(self.bid_levels(), OrderType::Bid)
    }

    pub fn new() -> (r: OrderBook)
        ensures
            r.wf(),
            r.ask_levels() == Seq::<Level>::empty(),
            r.bid_levels() == Seq::<Level>::empty(),
    {
        let r = OrderBook { asks: Vec::new(), bids: Vec::new() };
        assert(r.ask_levels() == Seq::<Level>::empty());
        assert(r.bid_levels() == Seq::<Level>::empty());
        r
    }

    /// Rests `order` at `price` on its own side.
    pub fn add_order(&mut self, price: Price, order: Order)
        requires
            old(self).wf(),
        ensures
            final(self).wf(),
            book_added(*old(self), *final(self), price, order),
    {
        match order.order_type {
            OrderType::Bid => add_to_side(&mut self.bids, price, order, OrderType::Bid),
            OrderType::Ask => add_to_side(&mut self.asks, price, order, OrderType::Ask),
        }
    }

    /// The ask limits, lowest price first.
    pub fn ask_limits(&self) -> (r: &Vec<Limit>)
        requires
            self.wf(),
        ensures
            levels_of(r@) == self.ask_levels(),
            side_wf(levels_of(r@), OrderType::Ask),
    {
        &self.asks
    }

    /// The bid limits, highest price first.
    pub fn bid_limits(&self) -> (r: &Vec<Limit>)
        requires
            self.wf(),
        ensures
            levels_of(r@) == self.bid_levels(),
            side_wf(levels_of(r@), OrderType::Bid),
    {
        &self.bids
    }

    /// Executes `market_order` against the opposing side, best price first,
    /// until it is filled or that side is exhausted.
    pub fn fill_market_order(&mut self, market_order: &mut Order)
        requires
            old(self).wf(),
        ensures
            final(self).wf(),
            final(self).levels(opposite(old(market_order).spec_side())) == fill_levels(
                old(self).levels(opposite(old(market_order).spec_side())),
                old(market_order).spec_size(),
            ).0,
            *final(market_order) == old(market_order).with_size(
                fill_levels(
                    old(self).levels(opposite(old(market_order).spec_side())),
                    old(market_order).spec_size(),
                ).1,
            ),
            final(self).levels(old(market_order).spec_side()) == old(self).levels(old(market_order).spec_side()),
    {
        proof {
            lemma_fill_levels_wf(self.ask_levels(), OrderType::Ask, market_order.size);
            lemma_fill_levels_wf(self.bid_levels(), OrderType::Bid, market_order.size);
        }
        match market_order.order_type {
            OrderType::Bid => fill_side(&mut self.asks, market_order),
            OrderType::Ask => fill_side(&mut self.bids, market_order),
        }
    }
}

/// Places `order` on one side of a book, keeping its priority order.
fn add_to_side(limits: &mut Vec<Limit>, price: Price, order: Order, side: OrderType)
    requires
        side_wf(levels_of(old(limits)@), side),
        order.spec_side() == side,
    ensures
        side_wf(levels_of(final(limits)@), side),
        added_level(levels_of(old(limits)@), levels_of(final(limits)@), price, order),
{
    let ghost before = levels_of(limits@);
    let n = limits.len();
    let mut k: usize = 0;
    while k < n && ranks_before_exec(side, &limits[k].price, &price)
        invariant
            n == limits@.len(),
            k <= n,
            before == levels_of(limits@),
            forall|j: int| 0 <= j < k ==> ranks_before(side, #[trigger] before[j].0, price),
        decreases n - k,
    {
        k = k + 1;
    }
    if k < n && matches!(limits[k].price.cmp(&price), std::cmp::Ordering::Equal) {
        limits[k].add_order(order);
        let ghost after = levels_of(limits@);
        assert(after == before.update(k as int, (before[k as int].0, before[k as int].1.push(order))));
        assert(same_price(before[k as int].0, price));
    } else {
        let mut limit = Limit::new(price);
        limit.add_order(order);
        limits.insert(k, limit);
        let ghost after = levels_of(limits@);
        assert(after == before.insert(k as int, (price, seq![order])));
        assert forall|i: int| 0 <= i < before.len() implies !same_price(#[trigger] before[i].0, price) by {
            if i < k {
                assert(ranks_before(side, before[i].0, price));
            } else if i > k {
                assert(ranks_before(side, before[k as int].0, before[i].0));
            }
        }
        assert forall|i: int| 0 <= i < after.len() implies (#[trigger] after[i]).1.len() > 0 by {
            if i > k {
                assert(after[i] == before[i - 1]);
            }
        }
        assert forall|i: int, j: int|
            0 <= i < after.len() && 0 <= j < after[i].1.len() implies (#[trigger] after[i].1[j]).spec_side() == side by {
            if i > k {
                assert(after[i] == before[i - 1]);
            }
        }
        assert forall|i: int, j: int|
            0 <= i < j < after.len() implies ranks_before(side, #[trigger] after[i].0, #[trigger] after[j].0) by {
            if j < k {
            } else if j == k {
                assert(ranks_before(side, before[i].0, price));
            } else if i == k {
                assert(after[j] == before[j - 1]);
                assert(ranks_before(side, price, before[k as int].0) || k == j - 1);
            } else if i < k {
                assert(after[j] == before[j - 1]);
            } else {
                assert(after[j] == before[j - 1]);
                assert(after[i] == before[i - 1]);
            }
        }
    }
}

/// Whether `a` comes before `b` in the matching priority of `side`.
fn ranks_before_exec(side: OrderType, a: &Price, b: &Price) -> (r: bool)
    ensures
        r == ranks_before(side, *a, *b),
{
    match side {
        OrderType::Ask => matches!(a.cmp(b), std::cmp::Ordering::Less),
        OrderType::Bid => matches!(a.cmp(b), std::cmp::Ordering::Greater),
    }
}

/// Fills `market_order` against the limits in their order.
fn fill_side(limits: &mut Vec<Limit>, market_order: &mut Order)
    ensures
        levels_of(final(limits)@) == fill_levels(levels_of(old(limits)@), old(market_order).spec_size()).0,
        *final(market_order) == old(market_order).with_size(
            fill_levels(levels_of(old(limits)@), old(market_order).spec_size()).1,
        ),
{
    let ghost orig = levels_of(limits@);
    let ghost m0 = market_order.size;
    let n = limits.len();
    let mut i: usize = 0;
    assert(levels_of(limits@).skip(0) == orig);
    assert(levels_of(limits@).take(0) + fill_levels(orig, m0).0 == fill_levels(orig, m0).0);
    while i < n && market_order.size > 0
        invariant
            n == limits@.len(),
            orig.len() == n,
            i <= n,
            market_order.order_type == old(market_order).order_type,
            m0 == old(market_order).size,
            orig == levels_of(old(limits)@),
            levels_of(limits@).skip(i as int) == orig.skip(i as int),
            fill_levels(orig, m0) == (
                levels_of(limits@).take(i as int) + fill_levels(levels_of(limits@).skip(i as int), market_order.size).0,
                fill_levels(levels_of(limits@).skip(i as int), market_order.size).1,
            ),
        decreases n - i,
    {
        let ghost cur = levels_of(limits@);
        let ghost m = market_order.size;
        let ghost tail = cur.skip(i as int);
        assert(tail[0] == cur[i as int]);
        limits[i].fill_order(market_order);
        let ghost next = levels_of(limits@);
        assert(next == cur.update(i as int, (cur[i as int].0, fill_queue(cur[i as int].1, m).0)));
        assert(next.take(i + 1) == cur.take(i as int) + seq![(tail[0].0, fill_queue(tail[0].1, m).0)]);
        assert(next.skip(i + 1) == tail.drop_first());
        i = i + 1;
    }
    assert(levels_of(limits@).take(i as int) + levels_of(limits@).skip(i as int) == levels_of(limits@));
}

/// The sum of the remaining quantities over all levels.
pub open spec fn levels_total(levels: Seq<Level>) -> int
    decreases levels.len(),
{
    if levels.len() == 0 {
        0
    } else {
        total_size(levels[0].1) + levels_total(levels.drop_first())
    }
}

/// The total of a concatenation is the sum of the totals.
pub proof fn lemma_total_size_append(a: Seq<Order>, b: Seq<Order>)
    ensures
        total_size(a + b) == total_size(a) + total_size(b),
    decreases b.len(),
{
    if b.len() == 0 {
        assert(a + b == a);
    } else {
        lemma_total_size_append(a, b.drop_last());
        assert((a + b).drop_last() == a + b.drop_last());
    }
}

/// A queue's volume does not depend on the order in which its orders arrived:
/// any rearrangement of the same orders has the same total.
pub proof fn lemma_volume_order_independent(a: Seq<Order>, b: Seq<Order>)
    requires
        a.to_multiset() == b.to_multiset(),
    ensures
        total_size(a) == total_size(b),
    decreases a.len(),
{
    broadcast use vstd::seq_lib::group_to_multiset_ensures;
    broadcast use vstd::multiset::group_multiset_axioms;

    if a.len() == 0 {
        assert(b.to_multiset().len() == 0);
        assert(b == Seq::<Order>::empty());
    } else {
        let x = a.last();
        let rest = a.drop_last();
        assert(a == rest.push(x));
        assert(a.to_multiset().count(x) > 0);
        assert(b.contains(x));
        let j = choose|j: int| 0 <= j < b.len() && b[j] == x;
        let others = b.remove(j);
        assert(rest.to_multiset() =~= others.to_multiset());
        lemma_volume_order_independent(rest, others);
        let pre = b.take(j);
        let post = b.skip(j + 1);
        assert(b == (pre + seq![x]) + post);
        assert(others == pre + post);
        lemma_total_size_append(pre + seq![x], post);
        lemma_total_size_append(pre, seq![x]);
        lemma_total_size_append(pre, post);
        assert(seq![x].drop_last() == Seq::<Order>::empty());
        assert(total_size(Seq::<Order>::empty()) == 0);
        assert(total_size(seq![x]) == x.spec_size());
        assert(rest.push(x).drop_last() == rest);
    }
}

/// A total is never negative.
pub proof fn lemma_total_size_nonneg(orders: Seq<Order>)
    ensures
        total_size(orders) >= 0,
    decreases orders.len(),
{
    if orders.len() > 0 {
        lemma_total_size_nonneg(orders.drop_last());
    }
}

/// One resting order of size `s` and an incoming quantity `m <= s`: the
/// incoming order is filled and the resting one keeps `s - m`.
pub proof fn lemma_single_resting_fill(resting: Order, m: u64)
    requires
        m <= resting.spec_size(),
    ensures
        fill_queue(seq![resting], m) == (seq![resting.with_size((resting.spec_size() - m) as u64)], 0u64),
{
    let q = seq![resting];
    if m == 0 {
        assert(resting.with_size(resting.spec_size()) == resting);
        assert(q == seq![resting.with_size(resting.spec_size())]);
    } else if m == resting.spec_size() {
        assert(q.drop_first() == Seq::<Order>::empty());
        assert(fill_queue(Seq::<Order>::empty(), 0) == (Seq::<Order>::empty(), 0u64));
        assert(seq![resting.with_size(0)] + Seq::<Order>::empty() == seq![resting.with_size(0)]);
    } else {
        assert(q.update(0, resting.with_size((resting.spec_size() - m) as u64)) == seq![
            resting.with_size((resting.spec_size() - m) as u64),
        ]);
    }
}

/// What is left of an incoming quantity after a fill against one queue: the
/// excess over the queue's volume, or nothing where the queue covers it.
pub proof fn lemma_fill_queue_residual(orders: Seq<Order>, m: u64)
    ensures
        fill_queue(orders, m).1 == if m >= total_size(orders) {
            m - total_size(orders)
        } else {
            0
        },
    decreases orders.len(),
{
    lemma_total_size_nonneg(orders);
    if orders.len() > 0 {
        let rest = orders.drop_first();
        lemma_total_size_append(seq![orders[0]], rest);
        assert(seq![orders[0]] + rest == orders);
        assert(seq![orders[0]].drop_last() == Seq::<Order>::empty());
        assert(total_size(Seq::<Order>::empty()) == 0);
        assert(total_size(seq![orders[0]]) == orders[0].spec_size());
        lemma_total_size_nonneg(rest);
        if m > 0 && m >= orders[0].spec_size() {
            lemma_fill_queue_residual(rest, (m - orders[0].spec_size()) as u64);
        }
    }
}

/// What is left of an incoming quantity after a fill across levels: the excess
/// over their combined volume, or nothing where they cover it.
pub proof fn lemma_fill_levels_residual(levels: Seq<Level>, m: u64)
    ensures
        levels_total(levels) >= 0,
        fill_levels(levels, m).1 == if m >= levels_total(levels) {
            m - levels_total(levels)
        } else {
            0
        },
    decreases levels.len(),
{
    if levels.len() > 0 {
        let first = fill_queue(levels[0].1, m);
        lemma_total_size_nonneg(levels[0].1);
        lemma_fill_queue_residual(levels[0].1, m);
        lemma_fill_levels_residual(levels.drop_first(), first.1);
        lemma_fill_levels_residual(levels.drop_first(), 0);
    }
}

/// An incoming quantity larger than all opposing liquidity is left unfilled,
/// with the excess as its remaining size.
pub proof fn lemma_fill_beyond_liquidity(levels: Seq<Level>, m: u64)
    requires
        m > levels_total(levels),
    ensures
        fill_levels(levels, m).1 == m - levels_total(levels),
        fill_levels(levels, m).1 > 0,
{
    lemma_fill_levels_residual(levels, m);
}

} // verus!
