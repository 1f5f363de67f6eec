//! A continuous double-auction limit order book with price-time priority.
//!
//! Resting buy orders (`bids`) are kept best price first (highest), resting
//! sell orders (`asks`) best price first (lowest); orders at one price keep
//! the order in which they arrived. An incoming order trades against the
//! front of the opposite side while the prices cross, always at the resting
//! order's price, and whatever is left of it then rests on its own side.
use vstd::prelude::*;

verus! {

#[derive(Debug, Clone, Copy, PartialEq, Eq, Structural)]
pub enum Side {
    Buy,
    Sell,
}

#[derive(Debug, Clone, Copy, PartialEq, Eq, Hash, Structural)]
pub struct OrderId(pub u64);

pub type Price = i64;

pub type Quantity = i64;

#[derive(Debug, Clone, Copy)]
pub struct Order {
    pub id: OrderId,
    pub side: Side,
    pub price: Price,
    pub quantity: Quantity,
}

#[derive(Debug, Clone, Copy, PartialEq, Eq, Structural)]
pub struct Trade {
    pub buy_id: OrderId,
    pub sell_id: OrderId,
    pub price: Price,
    pub quantity: Quantity,
}

#[derive(Debug, Default)]
pub struct OrderBook {
    /// Resting buy orders, highest price first.
    pub bids: Vec<Order>,
    /// Resting sell orders, lowest price first.
    pub asks: Vec<Order>,
}

pub open spec fn opposite(s: Side) -> Side {
    match s {
        Side::Buy => Side::Sell,
        Side::Sell => Side::Buy,
    }
}

/// The same order with `q` units left.
pub open spec fn with_quantity(o: Order, q: int) -> Order {
    Order { id: o.id, side: o.side, price: o.price, quantity: q as i64 }
}

/// An incoming order can trade with a resting order of the other side: a buy
/// pays at least the ask, a sell takes at most the bid.
pub open spec fn crosses(taker: Order, maker: Order) -> bool {
    match taker.side {
        Side::Buy => taker.price >= maker.price,
        Side::Sell => taker.price <= maker.price,
    }
}

/// The trade of `qty` units between an incoming and a resting order, at the
/// resting order's price.
pub open spec fn fill(taker: Order, maker: Order, qty: int) -> Trade {
    match taker.side {
        Side::Buy => Trade {
            buy_id: taker.id,
            sell_id: maker.id,
            price: maker.price,
            quantity: qty as i64,
        },
        Side::Sell => Trade {
            buy_id: maker.id,
            sell_id: taker.id,
            price: maker.price,
            quantity: qty as i64,
        },
    }
}

/// Matching an incoming order against the resting orders of the other side,
/// best first: the trades made, the resting orders left, and the incoming
/// order's remaining quantity.
pub open spec fn match_against(taker: Order, resting: Seq<Order>) -> (Seq<Trade>, Seq<Order>, int)
    decreases resting.len(),
{
    if taker.quantity <= 0 || resting.len() == 0 || !crosses(taker, resting[0]) {
        (Seq::empty(), resting, taker.quantity as int)
    } else {
        let maker = resting[0];
        if maker.quantity <= taker.quantity {
            let rest = match_against(
                with_quantity(taker, taker.quantity - maker.quantity),
                resting.drop_first(),
            );
            (seq![fill(taker, maker, maker.quantity as int)] + rest.0, rest.1, rest.2)
        } else {
            (
                seq![fill(taker, maker, taker.quantity as int)],
                resting.update(0, with_quantity(maker, maker.quantity - taker.quantity)),
                0,
            )
        }
    }
}

/// `o` has a strictly better price than `r` on their common side.
pub open spec fn outranks(o: Order, r: Order) -> bool {
    match o.side {
        Side::Buy => o.price > r.price,
        Side::Sell => o.price < r.price,
    }
}

/// Position `k` is where `o` joins `side`: after every order it does not
/// outrank (so after all orders at its own price), before the first it does.
pub open spec fn is_priority_slot(side: Seq<Order>, o: Order, k: int) -> bool {
    &&& 0 <= k <= side.len()
    &&& forall|j: int| 0 <= j < k ==> !outranks(o, #[trigger] side[j])
    &&& k < side.len() ==> outranks(o, side[k])
}

pub open spec fn priority_slot(side: Seq<Order>, o: Order) -> int {
    choose|k: int| is_priority_slot(side, o, k)
}

/// `side` with `o` placed at its priority position.
pub open spec fn insert_by_priority(side: Seq<Order>, o: Order) -> Seq<Order> {
    side.insert(priority_slot(side, o), o)
}

/// Every order of `side` is an active order of side `s`, and no order is
/// outranked by one behind it.
pub open spec fn well_ordered(side: Seq<Order>, s: Side) -> bool {
    &&& forall|i: int| 0 <= i < side.len() ==> (#[trigger] side[i]).side == s && side[i].quantity > 0
    &&& forall|i: int, j: int|
        0 <= i < j < side.len() ==> !outranks(#[trigger] side[j], #[trigger] side[i])
}

/// The best bid is below the best ask, or a side is empty.
pub open spec fn uncrossed(bids: Seq<Order>, asks: Seq<Order>) -> bool {
    bids.len() == 0 || asks.len() == 0 || bids[0].price < asks[0].price
}

/// The effect of submitting `o` to a book with resting `bids` and `asks`:
/// the trades, then the bids and asks afterwards.
pub open spec fn submit(bids: Seq<Order>, asks: Seq<Order>, o: Order) -> (
    Seq<Trade>,
    Seq<Order>,
    Seq<Order>,
) {
    match o.side {
        Side::Buy => {
            let r = match_against(o, asks);
            let left = with_quantity(o, r.2);
            (r.0, if r.2 > 0 { insert_by_priority(bids, left) } else { bids }, r.1)
        },
        Side::Sell => {
            let r = match_against(o, bids);
            let left = with_quantity(o, r.2);
            (r.0, r.1, if r.2 > 0 { insert_by_priority(asks, left) } else { asks })
        },
    }
}

/// There is one priority position, and it is the first order that `o` outranks.
pub proof fn lemma_priority_slot_unique(side: Seq<Order>, o: Order, k: int)
    requires
        is_priority_slot(side, o, k),
    ensures
        priority_slot(side, o) == k,
{
    let c = priority_slot(side, o);
    assert(is_priority_slot(side, o, c));
    if c < k {
        assert(!outranks(o, side[c]));
    } else if k < c {
        assert(!outranks(o, side[k]));
    }
}

/// Joining at the priority position keeps a side well ordered.
pub proof fn lemma_insert_keeps_order(side: Seq<Order>, s: Side, o: Order, k: int)
    requires
        well_ordered(side, s),
        o.side == s,
        o.quantity > 0,
        is_priority_slot(side, o, k),
    ensures
        well_ordered(side.insert(k, o), s),
{
    let n = side.insert(k, o);
    assert forall|i: int, j: int| 0 <= i < j < n.len() implies !outranks(
        #[trigger] n[j],
        #[trigger] n[i],
    ) by {
        if j < k {
            assert(n[i] == side[i] && n[j] == side[j]);
        } else if j == k {
            assert(n[i] == side[i]);
        } else if i > k {
            assert(n[i] == side[i - 1] && n[j] == side[j - 1]);
        } else if i == k {
            assert(n[j] == side[j - 1]);
            assert(outranks(o, side[k]));
            if j - 1 > k {
                assert(!outranks(side[j - 1], side[k]));
            }
        } else {
            assert(n[i] == side[i] && n[j] == side[j - 1]);
        }
    }
    assert forall|i: int| 0 <= i < n.len() implies (#[trigger] n[i]).side == s && n[i].quantity
        > 0 by {
        if i < k {
            assert(n[i] == side[i]);
        } else if i > k {
            assert(n[i] == side[i - 1]);
        }
    }
}

fn crosses_exec(taker: &Order, maker: &Order) -> (r: bool)
    ensures
        r == crosses(*taker, *maker),
{
    match taker.side {
        Side::Buy => taker.price >= maker.price,
        Side::Sell => taker.price <= maker.price,
    }
}

fn outranks_exec(o: &Order, r: &Order) -> (b: bool)
    ensures
        b == outranks(*o, *r),
{
    match o.side {
        Side::Buy => o.price > r.price,
        Side::Sell => o.price < r.price,
    }
}

fn fill_exec(taker: &Order, maker: &Order, qty: Quantity) -> (t: Trade)
    ensures
        t == fill(*taker, *maker, qty as int),
{
    match taker.side {
        Side::Buy => Trade { buy_id: taker.id, sell_id: maker.id, price: maker.price, quantity: qty },
        Side::Sell => Trade {
            buy_id: maker.id,
            sell_id: taker.id,
            price: maker.price,
            quantity: qty,
        },
    }
}

/// Places `order` in `side` after every order it does not outrank.
fn insert_resting(side: &mut Vec<Order>, order: Order)
    requires
        well_ordered(old(side)@, order.side),
        order.quantity > 0,
    ensures
        final(side)@ == insert_by_priority(old(side)@, order),
        well_ordered(final(side)@, order.side),
{
    let mut pos: usize = 0;
    while pos < side.len() && !outranks_exec(&order, &side[pos])
        invariant
            pos <= side@.len(),
            forall|j: int| 0 <= j < pos ==> !outranks(order, #[trigger] side@[j]),
        decreases side@.len() - pos,
    {
        pos = pos + 1;
    }
    proof {
        lemma_priority_slot_unique(side@, order, pos as int);
        lemma_insert_keeps_order(side@, order.side, order, pos as int);
    }
    side.insert(pos, order);
}

/// Trades `taker` against the front of `resting` while the prices cross;
/// returns the trades and the quantity left of `taker`.
fn sweep(resting: &mut Vec<Order>, taker: Order) -> (r: (Vec<Trade>, Quantity))
    requires
        well_ordered(old(resting)@, opposite(taker.side)),
    ensures
        r.0@ == match_against(taker, old(resting)@).0,
        final(resting)@ == match_against(taker, old(resting)@).1,
        r.1 == match_against(taker, old(resting)@).2,
        well_ordered(final(resting)@, opposite(taker.side)),
        final(resting)@.len() > 0 ==> old(resting)@.len() > 0 && !outranks(
            final(resting)@[0],
            old(resting)@[0],
        ),
        r.1 > 0 ==> final(resting)@.len() == 0 || !crosses(taker, final(resting)@[0]),
{
    let mut left = taker;
    let mut trades: Vec<Trade> = Vec::new();
    let ghost whole = match_against(taker, resting@);
    while left.quantity > 0 && resting.len() > 0 && crosses_exec(&left, &resting[0])
        invariant
            left == with_quantity(taker, left.quantity as int),
            well_ordered(resting@, opposite(taker.side)),
            resting@.len() > 0 ==> old(resting)@.len() > 0 && !outranks(
                resting@[0],
                old(resting)@[0],
            ),
            whole == match_against(taker, old(resting)@),
            whole.0 == trades@ + match_against(left, resting@).0,
            whole.1 == match_against(left, resting@).1,
            whole.2 == match_against(left, resting@).2,
        decreases resting@.len() + if left.quantity > 0 {
            1int
        } else {
            0
        },
    {
        let maker = resting[0];
        let ghost step = match_against(left, resting@);
        if maker.quantity <= left.quantity {
            let t = fill_exec(&left, &maker, maker.quantity);
            let ghost before = trades@;
            trades.push(t);
            left.quantity = left.quantity - maker.quantity;
            let ghost prev = resting@;
            resting.remove(0);
            proof {
                assert(resting@ =~= prev.drop_first());
                let next = match_against(left, resting@);
                assert(step.0 == seq![t] + next.0);
                assert(before + step.0 =~= trades@ + next.0);
                if resting@.len() > 0 {
                    assert(resting@[0] == prev[1]);
                    assert(!outranks(prev[1], prev[0]));
                }
            }
        } else {
            let t = fill_exec(&left, &maker, left.quantity);
            let ghost before = trades@;
            trades.push(t);
            resting[0].quantity = maker.quantity - left.quantity;
            left.quantity = 0;
            proof {
                assert(resting@ =~= step.1);
                assert(before + step.0 =~= trades@);
                assert(trades@ + match_against(left, resting@).0 =~= trades@);
            }
        }
    }
    proof {
        assert(trades@ + match_against(left, resting@).0 =~= trades@);
    }
    (trades, left.quantity)
}

impl OrderBook {
    /// Both sides are well ordered and the book is not crossed.
    pub open spec fn wf(&self) -> bool {
        &&& well_ordered(self.bids@, Side::Buy)
        &&& well_ordered(self.asks@, Side::Sell)
        &&& uncrossed(self.bids@, self.asks@)
    }

    pub fn new() -> (book: Self)
        ensures
            book.bids@.len() == 0,
            book.asks@.len() == 0,
            book.wf(),
    {
        OrderBook { bids: Vec::new(), asks: Vec::new() }
    }

    /// Submits `order`: matches it against the opposite side, rests what is
    /// left of it on its own side, and returns the trades in the order made.
    /// An order without a positive quantity changes nothing.
    pub fn add_order(&mut self, order: Order) -> (trades: Vec<Trade>)
        requires
            old(self).wf(),
        ensures
            final(self).wf(),
            trades@ == submit(old(self).bids@, old(self).asks@, order).0,
            final(self).bids@ == submit(old(self).bids@, old(self).asks@, order).1,
            final(self).asks@ == submit(old(self).bids@, old(self).asks@, order).2,
            order.quantity <= 0 ==> trades@.len() == 0 && final(self).bids@ == old(self).bids@
                && final(self).asks@ == old(self).asks@,
    {
        match order.side {
            Side::Buy => self.add_buy(order),
            Side::Sell => self.add_sell(order),
        }
    }

    fn add_buy(&mut self, buy: Order) -> (trades: Vec<Trade>)
        requires
            old(self).wf(),
            buy.side == Side::Buy,
        ensures
            final(self).wf(),
            trades@ == submit(old(self).bids@, old(self).asks@, buy).0,
            final(self).bids@ == submit(old(self).bids@, old(self).asks@, buy).1,
            final(self).asks@ == submit(old(self).bids@, old(self).asks@, buy).2,
    {
        let ghost bids0 = self.bids@;
        let ghost asks0 = self.asks@;
        let (trades, left) = sweep(&mut self.asks, buy);
        if left > 0 {
            let rest = Order { id: buy.id, side: buy.side, price: buy.price, quantity: left };
            self.insert_bid(rest);
            proof {
                let k = priority_slot(bids0, rest);
                assert(is_priority_slot(bids0, rest, k)) by {
                    lemma_slot_exists(bids0, rest);
                }
                if self.bids@.len() > 0 && self.asks@.len() > 0 {
                    if k == 0 {
                        assert(self.bids@[0] == rest);
                    } else {
                        assert(self.bids@[0] == bids0[0]);
                        assert(!outranks(self.asks@[0], asks0[0]));
                    }
                }
            }
        } else {
            proof {
                if self.bids@.len() > 0 && self.asks@.len() > 0 {
                    assert(!outranks(self.asks@[0], asks0[0]));
                }
            }
        }
        trades
    }

    fn add_sell(&mut self, sell: Order) -> (trades: Vec<Trade>)
        requires
            old(self).wf(),
            sell.side == Side::Sell,
        ensures
            final(self).wf(),
            trades@ == submit(old(self).bids@, old(self).asks@, sell).0,
            final(self).bids@ == submit(old(self).bids@, old(self).asks@, sell).1,
            final(self).asks@ == submit(old(self).bids@, old(self).asks@, sell).2,
    {
        let ghost bids0 = self.bids@;
        let ghost asks0 = self.asks@;
        let (trades, left) = sweep(&mut self.bids, sell);
        if left > 0 {
            let rest = Order { id: sell.id, side: sell.side, price: sell.price, quantity: left };
            self.insert_ask(rest);
            proof {
                let k = priority_slot(asks0, rest);
                assert(is_priority_slot(asks0, rest, k)) by {
                    lemma_slot_exists(asks0, rest);
                }
                if self.bids@.len() > 0 && self.asks@.len() > 0 {
                    if k == 0 {
                        assert(self.asks@[0] == rest);
                    } else {
                        assert(self.asks@[0] == asks0[0]);
                        assert(!outranks(self.bids@[0], bids0[0]));
                    }
                }
            }
        } else {
            proof {
                if self.bids@.len() > 0 && self.asks@.len() > 0 {
                    assert(!outranks(self.bids@[0], bids0[0]));
                }
            }
        }
        trades
    }

    fn insert_bid(&mut self, order: Order)
        requires
            well_ordered(old(self).bids@, Side::Buy),
            order.side == Side::Buy,
            order.quantity > 0,
        ensures
            final(self).bids@ == insert_by_priority(old(self).bids@, order),
            well_ordered(final(self).bids@, Side::Buy),
            final(self).asks@ == old(self).asks@,
    {
        insert_resting(&mut self.bids, order);
    }

    fn insert_ask(&mut self, order: Order)
        requires
            well_ordered(old(self).asks@, Side::Sell),
            order.side == Side::Sell,
            order.quantity > 0,
        ensures
            final(self).asks@ == insert_by_priority(old(self).asks@, order),
            well_ordered(final(self).asks@, Side::Sell),
            final(self).bids@ == old(self).bids@,
    {
        insert_resting(&mut self.asks, order);
    }
}

/// Every side has a priority position for every order.
pub proof fn lemma_slot_exists(side: Seq<Order>, o: Order)
    ensures
        is_priority_slot(side, o, priority_slot(side, o)),
    decreases side.len(),
{
    if side.len() == 0 {
        assert(is_priority_slot(side, o, 0));
    } else if outranks(o, side[0]) {
        assert(is_priority_slot(side, o, 0));
    } else {
        let rest = side.drop_first();
        lemma_slot_exists(rest, o);
        let k = priority_slot(rest, o);
        assert forall|j: int| 0 <= j < k + 1 implies !outranks(o, #[trigger] side[j]) by {
            if j > 0 {
                assert(side[j] == rest[j - 1]);
            }
        }
        assert(is_priority_slot(side, o, k + 1));
    }
}

pub open spec fn smaller(a: int, b: int) -> int {
    if a <= b {
        a
    } else {
        b
    }
}

/// The total quantity of `trades`.
pub open spec fn traded_quantity(trades: Seq<Trade>) -> int
    decreases trades.len(),
{
    if trades.len() == 0 {
        0
    } else {
        trades[0].quantity + traded_quantity(trades.drop_first())
    }
}

/// Trade `i` of a match: the incoming order, with what the earlier trades
/// left of it, against the `i`-th resting order as it stood, for the smaller
/// of the two quantities.
spec fn nth_fill(taker: Order, resting: Seq<Order>, trades: Seq<Trade>, i: int) -> Trade {
    let before = taker.quantity - traded_quantity(trades.take(i));
    fill(with_quantity(taker, before), resting[i], smaller(before, resting[i].quantity as int))
}

/// The trades of one match, each described by `nth_fill`, with the traded
/// quantities and the remainder adding up to the incoming quantity.
spec fn fills_described(taker: Order, resting: Seq<Order>) -> bool {
    let r = match_against(taker, resting);
    &&& traded_quantity(r.0) + r.2 == taker.quantity
    &&& r.0.len() <= resting.len()
    &&& forall|i: int|
        0 <= i < r.0.len() ==> #[trigger] r.0[i] == nth_fill(taker, resting, r.0, i) && 0 < smaller(
            taker.quantity - traded_quantity(r.0.take(i)),
            resting[i].quantity as int,
        )
}

proof fn lemma_fills_full(taker: Order, resting: Seq<Order>)
    requires
        forall|i: int| 0 <= i < resting.len() ==> (#[trigger] resting[i]).quantity > 0,
        taker.quantity > 0,
        resting.len() > 0,
        crosses(taker, resting[0]),
        resting[0].quantity <= taker.quantity,
        fills_described(
            with_quantity(taker, taker.quantity - resting[0].quantity),
            resting.drop_first(),
        ),
    ensures
        fills_described(taker, resting),
{
    let r = match_against(taker, resting);
    let maker = resting[0];
    let t0 = fill(taker, maker, maker.quantity as int);
    let next = with_quantity(taker, taker.quantity - maker.quantity);
    let tail = resting.drop_first();
    let r2 = match_against(next, tail);
    assert(with_quantity(taker, taker.quantity as int) == taker);
    assert(r.0.take(0) =~= Seq::<Trade>::empty());
    assert(traded_quantity(Seq::<Trade>::empty()) == 0);
    assert(traded_quantity(r.0.take(0)) == 0);
    assert(r.0 == seq![t0] + r2.0);
    assert(r.0.drop_first() =~= r2.0);
    assert(traded_quantity(r.0) == maker.quantity + traded_quantity(r2.0));
    assert(r.2 == r2.2);
    assert(traded_quantity(r2.0) + r2.2 == next.quantity);
    assert(traded_quantity(r.0) + r.2 == taker.quantity);
    assert(r.0.len() <= resting.len());
    assert forall|i: int| 0 <= i < r.0.len() implies #[trigger] r.0[i] == nth_fill(
        taker,
        resting,
        r.0,
        i,
    ) && 0 < smaller(taker.quantity - traded_quantity(r.0.take(i)), resting[i].quantity as int) by {
        if i == 0 {
            assert(r.0[0] == t0);
        } else {
            assert(traded_quantity(r.0.take(i)) == maker.quantity + traded_quantity(
                r.0.take(i).drop_first(),
            ));
            assert(r.0.take(i).drop_first() =~= r2.0.take(i - 1));
            assert(r.0[i] == r2.0[i - 1]);
            assert(r2.0[i - 1] == nth_fill(next, tail, r2.0, i - 1));
            assert(tail[i - 1] == resting[i]);
            let b = next.quantity - traded_quantity(r2.0.take(i - 1));
            assert(with_quantity(next, b) == with_quantity(taker, b));
        }
    }
}

proof fn lemma_fills(taker: Order, resting: Seq<Order>)
    requires
        forall|i: int| 0 <= i < resting.len() ==> (#[trigger] resting[i]).quantity > 0,
    ensures
        fills_described(taker, resting),
    decreases resting.len(),
{
    let r = match_against(taker, resting);
    if taker.quantity <= 0 || resting.len() == 0 || !crosses(taker, resting[0]) {
        assert(traded_quantity(r.0) == 0);
    } else {
        let maker = resting[0];
        if maker.quantity <= taker.quantity {
            let tail = resting.drop_first();
            assert forall|i: int| 0 <= i < tail.len() implies (#[trigger] tail[i]).quantity > 0 by {
                assert(tail[i] == resting[i + 1]);
            }
            lemma_fills(with_quantity(taker, taker.quantity - maker.quantity), tail);
            lemma_fills_full(taker, resting);
        } else {
            let t0 = fill(taker, maker, taker.quantity as int);
            assert(with_quantity(taker, taker.quantity as int) == taker);
            assert(r.0.take(0) =~= Seq::<Trade>::empty());
            assert(traded_quantity(Seq::<Trade>::empty()) == 0);
            assert(traded_quantity(r.0.take(0)) == 0);
            assert(r.0.drop_first() =~= Seq::<Trade>::empty());
            assert(traded_quantity(r.0) == taker.quantity);
            assert(r.0[0] == t0);
            assert forall|i: int| 0 <= i < r.0.len() implies #[trigger] r.0[i] == nth_fill(
                taker,
                resting,
                r.0,
                i,
            ) && 0 < smaller(
                taker.quantity - traded_quantity(r.0.take(i)),
                resting[i].quantity as int,
            ) by {
                assert(i == 0);
            }
        }
    }
}

/// Each trade of a submission is the smaller of what was left of the incoming
/// order and what the resting order held just before that fill, and the
/// traded quantities together with what is left of the incoming order add up
/// to its original quantity.
pub proof fn lemma_quantity_conserved(taker: Order, resting: Seq<Order>)
    requires
        well_ordered(resting, opposite(taker.side)),
    ensures
        ({
            let r = match_against(taker, resting);
            &&& traded_quantity(r.0) + r.2 == taker.quantity
            &&& forall|i: int|
                0 <= i < r.0.len() ==> #[trigger] r.0[i].quantity == smaller(
                    taker.quantity - traded_quantity(r.0.take(i)),
                    resting[i].quantity as int,
                )
        }),
{
    lemma_fills(taker, resting);
    assert(fills_described(taker, resting));
    let r = match_against(taker, resting);
    assert forall|i: int| 0 <= i < r.0.len() implies #[trigger] r.0[i].quantity == smaller(
        taker.quantity - traded_quantity(r.0.take(i)),
        resting[i].quantity as int,
    ) by {
        assert(r.0[i] == nth_fill(taker, resting, r.0, i));
        assert(0 < smaller(taker.quantity - traded_quantity(r.0.take(i)), resting[i].quantity as int));
    }
}

/// Every trade of a submission is made at the price of the resting order it
/// fills, between that order and the incoming one.
pub proof fn lemma_trade_at_resting_price(taker: Order, resting: Seq<Order>)
    requires
        well_ordered(resting, opposite(taker.side)),
    ensures
        ({
            let r = match_against(taker, resting);
            forall|i: int|
                0 <= i < r.0.len() ==> {
                    &&& (#[trigger] r.0[i]).price == resting[i].price
                    &&& taker.side == Side::Buy ==> r.0[i].buy_id == taker.id && r.0[i].sell_id
                        == resting[i].id
                    &&& taker.side == Side::Sell ==> r.0[i].sell_id == taker.id && r.0[i].buy_id
                        == resting[i].id
                }
        }),
{
    lemma_fills(taker, resting);
    assert(fills_described(taker, resting));
    let r = match_against(taker, resting);
    assert forall|i: int| 0 <= i < r.0.len() implies (#[trigger] r.0[i]).price
        == resting[i].price by {
        assert(r.0[i] == nth_fill(taker, resting, r.0, i));
    }
    assert forall|i: int| 0 <= i < r.0.len() implies {
        &&& taker.side == Side::Buy ==> (#[trigger] r.0[i]).buy_id == taker.id && r.0[i].sell_id
            == resting[i].id
        &&& taker.side == Side::Sell ==> r.0[i].sell_id == taker.id && r.0[i].buy_id
            == resting[i].id
    } by {
        assert(r.0[i] == nth_fill(taker, resting, r.0, i));
    }
}

/// An order joins its side behind every resting order it does not outrank,
/// in particular behind all orders at its own price, and ahead of the rest.
pub proof fn lemma_time_priority(side: Seq<Order>, o: Order)
    requires
        well_ordered(side, o.side),
    ensures
        forall|j: int|
            0 <= j < side.len() ==> (j < priority_slot(side, o) <==> !outranks(o, #[trigger] side[j])),
{
    lemma_slot_exists(side, o);
    let k = priority_slot(side, o);
    assert forall|j: int| 0 <= j < side.len() implies (j < k <==> !outranks(o, #[trigger] side[j])) by {
        if j > k {
            assert(!outranks(side[j], side[k]));
        }
    }
}

} // verus!
