use vstd::prelude::*;

use crate::order::Order;
use crate::side::Side;
use crate::trade::Trade;

verus! {

broadcast use vstd::prelude::Seq::add_empty_right;

/// One price level: the price key and the FIFO queue of resting orders that
/// share it. The front of `orders` is the order with time priority.
pub struct Level {
    pub key: u64,
    pub orders: Vec<Order>,
}

/// The mathematical picture of a book's resting state: the price levels in
/// ascending key order, each level a pair of its key and its queue.
pub type LevelsView = Seq<(u64, Seq<Order>)>;

/// The price-ordered collection of resting orders for one side of the market,
/// plus the crossing algorithm that matches an incoming order against them.
///
/// `levels` is kept sorted by ascending `key`, with no two levels sharing a
/// key and no level empty. `resting_count` is the number of resting orders.
pub struct Book {
    pub side: Side,
    pub levels: Vec<Level>,
    pub resting_count: u64,
}

/// The index of the level `top()` inspects — the book's one directional
/// rule: a Buy-configured book exposes its lowest price level (index 0 in
/// ascending key order), a Sell-configured book its highest (the last
/// index). The insertion, lookup and crossing operations all go through this
/// one rule, so they stay internally consistent with it.
pub open spec fn best_index(side: Side, ls: LevelsView) -> int {
    if side == Side::Buy {
        0
    } else {
        ls.len() - 1
    }
}

/// The order `top()` would return: the front of the best level's queue, or
/// `None` for a book with no resting orders.
pub open spec fn top_of(side: Side, ls: LevelsView) -> Option<Order> {
    if ls.len() == 0 {
        None
    } else {
        Some(ls[best_index(side, ls)].1[0])
    }
}

/// The resting state after dequeuing the top order: the best level loses its
/// front order, and disappears entirely if that order was its last.
pub open spec fn pop_best(side: Side, ls: LevelsView) -> LevelsView {
    if ls.len() == 0 {
        ls
    } else {
        let i = best_index(side, ls);
        if ls[i].1.len() <= 1 {
            ls.remove(i)
        } else {
            ls.update(i, (ls[i].0, ls[i].1.drop_first()))
        }
    }
}

/// The resting state after a partial fill of the top order: its remaining
/// quantity drops by `q` and it keeps its place at the front of its level.
pub open spec fn reduce_best(side: Side, ls: LevelsView, q: u64) -> LevelsView {
    if ls.len() == 0 {
        ls
    } else {
        let i = best_index(side, ls);
        let front = ls[i].1[0];
        let reduced = Order {
            price: front.price,
            quantity: (front.quantity - q) as u64,
            side: front.side,
            creator: front.creator,
        };
        ls.update(i, (ls[i].0, ls[i].1.update(0, reduced)))
    }
}

/// Whether an incoming order may trade at a resting price: a Buy only at or
/// below its own price, a Sell only at or above it.
pub open spec fn favorable(incoming: Order, resting_price: u64) -> bool {
    match incoming.side {
        Side::Buy => resting_price <= incoming.price,
        Side::Sell => resting_price >= incoming.price,
    }
}

/// The smaller of two quantities.
pub open spec fn min_qty(a: u64, b: u64) -> u64 {
    if a <= b {
        a
    } else {
        b
    }
}

/// The trade one match step emits: quantity `q` at the resting order's price,
/// with buyer and seller assigned by the incoming order's side.
pub open spec fn trade_of(incoming: Order, resting: Order, q: u64) -> Trade {
    match incoming.side {
        Side::Buy => Trade {
            buyer: incoming.creator,
            seller: resting.creator,
            quantity: q,
            price: resting.price,
        },
        Side::Sell => Trade {
            buyer: resting.creator,
            seller: incoming.creator,
            quantity: q,
            price: resting.price,
        },
    }
}

/// The incoming order after a fill of quantity `q`.
pub open spec fn after_fill(incoming: Order, q: u64) -> Order {
    Order {
        price: incoming.price,
        quantity: (incoming.quantity - q) as u64,
        side: incoming.side,
        creator: incoming.creator,
    }
}

/// The crossing algorithm, stated once over the mathematical state: the
/// sequence of trades emitted, in order, and the resting state left behind.
/// Matching stops when the incoming order is fully filled, the book is empty,
/// or the best resting price is unfavorable; each step trades the smaller of
/// the two remaining quantities at the resting order's price.
pub open spec fn cross_spec(side: Side, ls: LevelsView, incoming: Order) -> (Seq<Trade>, LevelsView)
    decreases incoming.quantity,
{
    if incoming.quantity == 0 {
        (Seq::<Trade>::empty(), ls)
    } else {
        match top_of(side, ls) {
            None => (Seq::<Trade>::empty(), ls),
            Some(resting) => {
                if !favorable(incoming, resting.price) {
                    (Seq::<Trade>::empty(), ls)
                } else {
                    let q = min_qty(incoming.quantity, resting.quantity);
                    if q == 0 {
                        // Unreachable for a well-formed book, whose resting
                        // quantities are positive; this guard keeps the
                        // recursion total on every argument.
                        (Seq::<Trade>::empty(), ls)
                    } else {
                        let next = if resting.quantity == q {
                            pop_best(side, ls)
                        } else {
                            reduce_best(side, ls, q)
                        };
                        let rest = cross_spec(side, next, after_fill(incoming, q));
                        (seq![trade_of(incoming, resting, q)] + rest.0, rest.1)
                    }
                }
            },
        }
    }
}

/// Well-formedness of a resting state: level keys strictly ascending (so
/// unique), no level empty, every resting quantity positive, and every order
/// bucketed at the level of its own price.
pub open spec fn wf_levels(ls: LevelsView) -> bool {
    &&& forall|i: int, j: int| #![trigger ls[i], ls[j]] 0 <= i < j < ls.len() ==> ls[i].0 < ls[j].0
    &&& forall|i: int| 0 <= i < ls.len() ==> (#[trigger] ls[i]).1.len() > 0
    &&& forall|i: int, j: int|
        #![trigger ls[i].1[j]]
        0 <= i < ls.len() && 0 <= j < ls[i].1.len() ==> ls[i].1[j].quantity > 0 && ls[i].1[j].price
            == ls[i].0
}

/// The number of levels whose key is below `price`: the position at which an
/// order with that price joins or extends the ascending level list.
pub open spec fn find_pos(ls: LevelsView, price: u64) -> int
    decreases ls.len(),
{
    if ls.len() == 0 {
        0
    } else if ls[0].0 < price {
        1 + find_pos(ls.drop_first(), price)
    } else {
        0
    }
}

/// The resting state after inserting one order: appended to the tail of its
/// price's queue if that level exists, else a new singleton level at the
/// sorted position.
pub open spec fn insert_level(ls: LevelsView, o: Order) -> LevelsView {
    let p = find_pos(ls, o.price);
    if p < ls.len() && ls[p].0 == o.price {
        ls.update(p, (o.price, ls[p].1.push(o)))
    } else {
        ls.insert(p, (o.price, seq![o]))
    }
}

/// A scan that stopped at the first key not below `price` found `find_pos`.
proof fn lemma_find_pos_from_scan(ls: LevelsView, price: u64, idx: int)
    requires
        0 <= idx <= ls.len(),
        forall|j: int| 0 <= j < idx ==> (#[trigger] ls[j]).0 < price,
        idx < ls.len() ==> ls[idx].0 >= price,
    ensures
        find_pos(ls, price) == idx,
    decreases idx,
{
    if idx == 0 {
    } else {
        assert(ls[0].0 < price);
        lemma_find_pos_from_scan(ls.drop_first(), price, idx - 1);
    }
}

/// The number of resting orders: the sum of the queue lengths.
pub open spec fn total_orders(ls: LevelsView) -> nat
    decreases ls.len(),
{
    if ls.len() == 0 {
        0
    } else {
        ls[0].1.len() + total_orders(ls.drop_first())
    }
}

/// The quantity resting in one queue: the sum of its orders' quantities.
pub open spec fn level_qty(q: Seq<Order>) -> nat
    decreases q.len(),
{
    if q.len() == 0 {
        0
    } else {
        q[0].quantity as nat + level_qty(q.drop_first())
    }
}

/// The quantity resting in the whole book: the sum over all levels.
pub open spec fn total_qty(ls: LevelsView) -> nat
    decreases ls.len(),
{
    if ls.len() == 0 {
        0
    } else {
        level_qty(ls[0].1) + total_qty(ls.drop_first())
    }
}

/// The quantity a sequence of trades moved: the sum of their quantities.
pub open spec fn sum_qty(ts: Seq<Trade>) -> nat
    decreases ts.len(),
{
    if ts.len() == 0 {
        0
    } else {
        ts[0].quantity as nat + sum_qty(ts.drop_first())
    }
}

/// The mathematical picture of a concrete list of levels.
pub open spec fn view_of(s: Seq<Level>) -> LevelsView {
    s.map_values(|l: Level| (l.key, l.orders@))
}

/// Removing an element and re-inserting another at the same index is an
/// update at that index.
proof fn lemma_remove_insert_is_update<T>(s: Seq<T>, i: int, v: T)
    requires
        0 <= i < s.len(),
    ensures
        s.remove(i).insert(i, v) == s.update(i, v),
{
    s.remove_ensures(i);
    s.remove(i).insert_ensures(i, v);
    assert(s.remove(i).insert(i, v) =~= s.update(i, v));
}

/// The view of a list of levels commutes with removing one level.
proof fn lemma_view_of_remove(s: Seq<Level>, i: int)
    requires
        0 <= i < s.len(),
    ensures
        view_of(s.remove(i)) == view_of(s).remove(i),
{
    s.remove_ensures(i);
    view_of(s).remove_ensures(i);
    assert forall|k: int| 0 <= k < s.len() - 1 implies view_of(s.remove(i))[k] == view_of(
        s,
    ).remove(i)[k] by {
        if k < i {
            assert(s.remove(i)[k] == s[k]);
        } else {
            assert(s.remove(i)[k] == s[k + 1]);
        }
    }
    assert(view_of(s.remove(i)) =~= view_of(s).remove(i));
}

/// The view of a list of levels commutes with inserting one level.
proof fn lemma_view_of_insert(s: Seq<Level>, i: int, l: Level)
    requires
        0 <= i <= s.len(),
    ensures
        view_of(s.insert(i, l)) == view_of(s).insert(i, (l.key, l.orders@)),
{
    s.insert_ensures(i, l);
    view_of(s).insert_ensures(i, (l.key, l.orders@));
    assert forall|k: int| 0 <= k < s.len() + 1 implies view_of(s.insert(i, l))[k] == view_of(
        s,
    ).insert(i, (l.key, l.orders@))[k] by {
        if k < i {
            assert(s.insert(i, l)[k] == s[k]);
        } else if k == i {
            assert(s.insert(i, l)[k] == l);
        } else {
            assert(s.insert(i, l)[k] == s[k - 1]);
        }
    }
    assert(view_of(s.insert(i, l)) =~= view_of(s).insert(i, (l.key, l.orders@)));
}

/// Removing a level takes its queue's length out of the order count.
proof fn lemma_total_orders_remove(ls: LevelsView, i: int)
    requires
        0 <= i < ls.len(),
    ensures
        total_orders(ls.remove(i)) + ls[i].1.len() == total_orders(ls),
    decreases i,
{
    if i == 0 {
        assert(ls.remove(0) =~= ls.drop_first());
    } else {
        lemma_total_orders_remove(ls.drop_first(), i - 1);
        assert(ls.remove(i).drop_first() =~= ls.drop_first().remove(i - 1));
        assert(ls.remove(i)[0] == ls[0]);
        assert(ls.drop_first()[i - 1] == ls[i]);
    }
}

/// Inserting a level adds its queue's length to the order count.
proof fn lemma_total_orders_insert(ls: LevelsView, i: int, v: (u64, Seq<Order>))
    requires
        0 <= i <= ls.len(),
    ensures
        total_orders(ls.insert(i, v)) == total_orders(ls) + v.1.len(),
    decreases i,
{
    if i == 0 {
        assert(ls.insert(0, v).drop_first() =~= ls);
        assert(ls.insert(0, v)[0] == v);
    } else {
        lemma_total_orders_insert(ls.drop_first(), i - 1, v);
        assert(ls.insert(i, v).drop_first() =~= ls.drop_first().insert(i - 1, v));
        assert(ls.insert(i, v)[0] == ls[0]);
    }
}

/// Updating a level's queue shifts the order count by the length difference.
proof fn lemma_total_orders_update(ls: LevelsView, i: int, v: (u64, Seq<Order>))
    requires
        0 <= i < ls.len(),
    ensures
        total_orders(ls.update(i, v)) + ls[i].1.len() == total_orders(ls) + v.1.len(),
{
    lemma_total_orders_remove(ls, i);
    lemma_total_orders_insert(ls.remove(i), i, v);
    lemma_remove_insert_is_update(ls, i, v);
}

impl Book {
    /// The mathematical view of the resting state.
    pub open spec fn levels_view(&self) -> LevelsView {
        view_of(self.levels@)
    }

    /// The book's invariant: a well-formed resting state whose order count is
    /// what `resting_count` says.
    pub open spec fn wf(&self) -> bool {
        &&& wf_levels(self.levels_view())
        &&& self.resting_count == total_orders(self.levels_view())
    }

    /// Creates an empty book configured for one side of the market.
    pub fn new(side: Side) -> (b: Book)
        ensures
            b.wf(),
            b.side == side,
            b.levels_view() == Seq::<(u64, Seq<Order>)>::empty(),
            b.resting_count == 0,
    {
        let b = Book { side, levels: Vec::new(), resting_count: 0 };
        proof {
            assert(b.levels_view() =~= Seq::<(u64, Seq<Order>)>::empty());
        }
        b
    }

    /// Whether no order rests in the book.
    pub fn is_empty(&self) -> (r: bool)
        ensures
            r <==> self.levels_view().len() == 0,
    {
        self.levels.len() == 0
    }

    /// The number of resting orders.
    pub fn size(&self) -> (n: u64)
        ensures
            n == self.resting_count,
    {
        self.resting_count
    }

    /// The number of price levels currently present.
    pub fn level_count(&self) -> (n: usize)
        ensures
            n == self.levels_view().len(),
    {
        self.levels.len()
    }

    /// The index of the best level, per the book's configured side.
    fn best_level_index(&self) -> (i: usize)
        requires
            self.wf(),
            self.levels_view().len() > 0,
        ensures
            i == best_index(self.side, self.levels_view()),
            i < self.levels_view().len(),
    {
        match self.side {
            Side::Buy => 0,
            Side::Sell => self.levels.len() - 1,
        }
    }

    /// Returns the best resting order without removing it, or `None` if no
    /// order rests. Which level is "best" is the book's one directional rule:
    /// lowest price for a Buy-configured book, highest for a Sell-configured
    /// one (see `best_index`). Within that level, the front of the FIFO queue
    /// has time priority.
    pub fn top(&self) -> (r: Option<Order>)
        requires
            self.wf(),
        ensures
            r == top_of(self.side, self.levels_view()),
    {
        if self.levels.len() == 0 {
            None
        } else {
            let i = self.best_level_index();
            Some(self.levels[i].orders[0])
        }
    }

    /// Removes and returns the order `top()` would have returned, or `None`
    /// if no order rests. If removing it empties its level, the level itself
    /// is removed, so no empty level ever dangles.
    pub fn dequeue_top(&mut self) -> (r: Option<Order>)
        requires
            old(self).wf(),
        ensures
            final(self).wf(),
            final(self).side == old(self).side,
            r == top_of(old(self).side, old(self).levels_view()),
            final(self).levels_view() == pop_best(old(self).side, old(self).levels_view()),
    {
        if self.levels.len() == 0 {
            return None;
        }
        let ghost ls0 = self.levels_view();
        let i = self.best_level_index();
        let mut lvl = self.levels.remove(i);
        proof {
            lemma_view_of_remove(old(self).levels@, i as int);
            lemma_total_orders_remove(ls0, i as int);
        }
        let front = lvl.orders.remove(0);
        if lvl.orders.len() > 0 {
            let ghost mid = self.levels@;
            self.levels.insert(i, lvl);
            proof {
                lemma_view_of_insert(mid, i as int, lvl);
                lemma_remove_insert_is_update(ls0, i as int, (lvl.key, lvl.orders@));
                lemma_total_orders_update(ls0, i as int, (lvl.key, lvl.orders@));
                assert(lvl.orders@ =~= ls0[i as int].1.drop_first());
                assert(self.levels_view() == pop_best(old(self).side, ls0));
            }
        } else {
            proof {
                assert(self.levels_view() =~= ls0.remove(i as int));
            }
        }
        self.resting_count = self.resting_count - 1;
        Some(front)
    }

    /// Reduces the best resting order's remaining quantity by `q`, leaving it
    /// at the front of its level (a partial fill).
    fn reduce_top(&mut self, q: u64)
        requires
            old(self).wf(),
            old(self).levels_view().len() > 0,
            0 < q < top_of(old(self).side, old(self).levels_view()).unwrap().quantity,
        ensures
            final(self).wf(),
            final(self).side == old(self).side,
            final(self).resting_count == old(self).resting_count,
            final(self).levels_view() == reduce_best(old(self).side, old(self).levels_view(), q),
    {
        let ghost ls0 = self.levels_view();
        let i = self.best_level_index();
        let mut lvl = self.levels.remove(i);
        proof {
            lemma_view_of_remove(old(self).levels@, i as int);
        }
        let front = lvl.orders.remove(0);
        let reduced = Order {
            price: front.price,
            quantity: front.quantity - q,
            side: front.side,
            creator: front.creator,
        };
        lvl.orders.insert(0, reduced);
        proof {
            lemma_remove_insert_is_update(ls0[i as int].1, 0, reduced);
        }
        let ghost mid = self.levels@;
        self.levels.insert(i, lvl);
        proof {
            lemma_view_of_insert(mid, i as int, lvl);
            lemma_remove_insert_is_update(ls0, i as int, (lvl.key, lvl.orders@));
            lemma_total_orders_update(ls0, i as int, (lvl.key, lvl.orders@));
            assert(final(self).levels_view() == reduce_best(old(self).side, ls0, q));
        }
    }

    /// Matches an incoming order against the resting orders, dispatching on
    /// the incoming order's side: an incoming Buy trades against resting
    /// prices at or below its own, an incoming Sell at or above. While the
    /// incoming order has unfilled quantity and the best resting price is
    /// favorable, each step trades the smaller of the two remaining
    /// quantities at the resting order's price, emits one trade, and dequeues
    /// the resting order if that filled it completely. Returns the trades in
    /// the order they occurred, or `None` if no match step occurred; any
    /// unfilled remainder of the incoming order is the caller's concern.
    pub fn cross(&mut self, order: Order) -> (r: Option<Vec<Trade>>)
        requires
            old(self).wf(),
        ensures
            final(self).wf(),
            final(self).side == old(self).side,
            final(self).levels_view() == cross_spec(
                old(self).side,
                old(self).levels_view(),
                order,
            ).1,
            match r {
                None => cross_spec(old(self).side, old(self).levels_view(), order).0.len() == 0,
                Some(v) => v@ == cross_spec(old(self).side, old(self).levels_view(), order).0
                    && v@.len() > 0,
            },
    {
        let ghost side0 = self.side;
        let ghost ls0 = self.levels_view();
        let mut trades: Vec<Trade> = Vec::new();
        let mut cur = order;
        while cur.quantity > 0
            invariant
                self.wf(),
                self.side == side0,
                cur.price == order.price,
                cur.side == order.side,
                cur.creator == order.creator,
                cross_spec(side0, ls0, order).0 == trades@ + cross_spec(
                    side0,
                    self.levels_view(),
                    cur,
                ).0,
                cross_spec(side0, ls0, order).1 == cross_spec(side0, self.levels_view(), cur).1,
            ensures
                self.wf(),
                self.side == side0,
                trades@ == cross_spec(side0, ls0, order).0,
                self.levels_view() == cross_spec(side0, ls0, order).1,
            decreases cur.quantity,
        {
            let ghost pre = self.levels_view();
            let ghost cur_pre = cur;
            let ghost trades_pre = trades@;
            let top_opt = self.top();
            match top_opt {
                None => {
                    proof {
                        assert(trades_pre + cross_spec(side0, pre, cur_pre).0 =~= trades_pre);
                    }
                    break ;
                },
                Some(resting) => {
                    let fav = match cur.side {
                        Side::Buy => resting.price <= cur.price,
                        Side::Sell => resting.price >= cur.price,
                    };
                    if !fav {
                        proof {
                            assert(trades_pre + cross_spec(side0, pre, cur_pre).0 =~= trades_pre);
                        }
                        break ;
                    }
                    proof {
                        assert(pre[best_index(side0, pre)].1[0].quantity > 0);
                    }
                    let q = if cur.quantity <= resting.quantity {
                        cur.quantity
                    } else {
                        resting.quantity
                    };
                    let t = match cur.side {
                        Side::Buy => Trade {
                            buyer: cur.creator,
                            seller: resting.creator,
                            quantity: q,
                            price: resting.price,
                        },
                        Side::Sell => Trade {
                            buyer: resting.creator,
                            seller: cur.creator,
                            quantity: q,
                            price: resting.price,
                        },
                    };
                    trades.push(t);
                    if resting.quantity == q {
                        self.dequeue_top();
                    } else {
                        self.reduce_top(q);
                    }
                    cur.quantity = cur.quantity - q;
                    proof {
                        let step = cross_spec(side0, self.levels_view(), cur);
                        assert(t == trade_of(cur_pre, resting, q));
                        assert(cur == after_fill(cur_pre, q));
                        assert(cross_spec(side0, pre, cur_pre).0 == seq![t] + step.0);
                        assert(cross_spec(side0, pre, cur_pre).1 == step.1);
                        assert(trades@ =~= trades_pre + seq![t]);
                        assert((trades_pre + seq![t]) + step.0 =~= trades_pre + (seq![t] + step.0));
                    }
                },
            }
        }
        if trades.len() == 0 {
            None
        } else {
            Some(trades)
        }
    }

    /// Adds `order` to the queue for its price level, creating the level at
    /// its sorted position if absent, appending to the queue's tail (so
    /// arrival order is preserved), and incrementing the resting count. The
    /// caller must not insert a zero-quantity order: a fully filled order
    /// never rests.
    pub fn insert(&mut self, order: Order)
        requires
            old(self).wf(),
            order.quantity > 0,
            old(self).resting_count < u64::MAX,
        ensures
            final(self).wf(),
            final(self).side == old(self).side,
            final(self).levels_view() == insert_level(old(self).levels_view(), order),
            final(self).resting_count == old(self).resting_count + 1,
    {
        let ghost ls0 = self.levels_view();
        let key = order.price_level_key();
        let mut idx: usize = 0;
        while idx < self.levels.len() && self.levels[idx].key < key
            invariant
                0 <= idx <= self.levels.len(),
                forall|j: int| 0 <= j < idx ==> (#[trigger] self.levels_view()[j]).0 < key,
            decreases self.levels.len() - idx,
        {
            idx = idx + 1;
        }
        proof {
            lemma_find_pos_from_scan(ls0, key, idx as int);
        }
        if idx < self.levels.len() && self.levels[idx].key == key {
            let mut lvl = self.levels.remove(idx);
            proof {
                lemma_view_of_remove(old(self).levels@, idx as int);
            }
            lvl.orders.push(order);
            let ghost mid = self.levels@;
            self.levels.insert(idx, lvl);
            proof {
                lemma_view_of_insert(mid, idx as int, lvl);
                lemma_remove_insert_is_update(ls0, idx as int, (lvl.key, lvl.orders@));
                lemma_total_orders_update(ls0, idx as int, (lvl.key, lvl.orders@));
                assert(lvl.orders@ =~= ls0[idx as int].1.push(order));
                assert(self.levels_view() == insert_level(ls0, order));
            }
        } else {
            let mut orders: Vec<Order> = Vec::new();
            orders.push(order);
            let lvl = Level { key, orders };
            let ghost mid = self.levels@;
            self.levels.insert(idx, lvl);
            proof {
                lemma_view_of_insert(mid, idx as int, lvl);
                lemma_total_orders_insert(ls0, idx as int, (key, lvl.orders@));
                ls0.insert_ensures(idx as int, (key, lvl.orders@));
                assert(lvl.orders@ =~= seq![order]);
                assert(self.levels_view() == insert_level(ls0, order));
            }
        }
        self.resting_count = self.resting_count + 1;
    }
}

/// Removing a level takes its queue's quantity out of the resting quantity.
proof fn lemma_total_qty_remove(ls: LevelsView, i: int)
    requires
        0 <= i < ls.len(),
    ensures
        total_qty(ls.remove(i)) + level_qty(ls[i].1) == total_qty(ls),
    decreases i,
{
    if i == 0 {
        assert(ls.remove(0) =~= ls.drop_first());
    } else {
        lemma_total_qty_remove(ls.drop_first(), i - 1);
        assert(ls.remove(i).drop_first() =~= ls.drop_first().remove(i - 1));
        assert(ls.remove(i)[0] == ls[0]);
        assert(ls.drop_first()[i - 1] == ls[i]);
    }
}

/// Inserting a level adds its queue's quantity to the resting quantity.
proof fn lemma_total_qty_insert(ls: LevelsView, i: int, v: (u64, Seq<Order>))
    requires
        0 <= i <= ls.len(),
    ensures
        total_qty(ls.insert(i, v)) == total_qty(ls) + level_qty(v.1),
    decreases i,
{
    if i == 0 {
        assert(ls.insert(0, v).drop_first() =~= ls);
        assert(ls.insert(0, v)[0] == v);
    } else {
        lemma_total_qty_insert(ls.drop_first(), i - 1, v);
        assert(ls.insert(i, v).drop_first() =~= ls.drop_first().insert(i - 1, v));
        assert(ls.insert(i, v)[0] == ls[0]);
    }
}

/// Updating a level's queue shifts the resting quantity by the difference.
proof fn lemma_total_qty_update(ls: LevelsView, i: int, v: (u64, Seq<Order>))
    requires
        0 <= i < ls.len(),
    ensures
        total_qty(ls.update(i, v)) + level_qty(ls[i].1) == total_qty(ls) + level_qty(v.1),
{
    lemma_total_qty_remove(ls, i);
    lemma_total_qty_insert(ls.remove(i), i, v);
    lemma_remove_insert_is_update(ls, i, v);
}

/// Dequeuing the top order keeps the state well formed and takes exactly
/// that order's quantity, and one order, out of the book.
proof fn lemma_pop_best_facts(side: Side, ls: LevelsView)
    requires
        wf_levels(ls),
        ls.len() > 0,
    ensures
        wf_levels(pop_best(side, ls)),
        total_qty(pop_best(side, ls)) + top_of(side, ls).unwrap().quantity == total_qty(ls),
        total_orders(pop_best(side, ls)) + 1 == total_orders(ls),
{
    let i = best_index(side, ls);
    let q = ls[i].1;
    let r = pop_best(side, ls);
    if q.len() <= 1 {
        ls.remove_ensures(i);
        lemma_total_qty_remove(ls, i);
        lemma_total_orders_remove(ls, i);
        assert(level_qty(q) == q[0].quantity + level_qty(q.drop_first()));
        assert(q.drop_first().len() == 0);
        assert forall|a: int, b: int| #![trigger r[a], r[b]] 0 <= a < b < r.len() implies r[a].0
            < r[b].0 by {
            if b < i {
            } else if a < i {
                assert(r[b] == ls[b + 1]);
            } else {
                assert(r[a] == ls[a + 1]);
                assert(r[b] == ls[b + 1]);
            }
        }
        assert forall|a: int, b: int|
            #![trigger r[a].1[b]]
            0 <= a < r.len() && 0 <= b < r[a].1.len() implies r[a].1[b].quantity > 0
            && r[a].1[b].price == r[a].0 by {
            if a < i {
                assert(r[a] == ls[a]);
            } else {
                assert(r[a] == ls[a + 1]);
            }
        }
        assert(wf_levels(r));
    } else {
        let v = (ls[i].0, q.drop_first());
        lemma_total_qty_update(ls, i, v);
        lemma_total_orders_update(ls, i, v);
        assert(level_qty(q) == q[0].quantity + level_qty(q.drop_first()));
        assert forall|a: int, b: int|
            #![trigger r[a].1[b]]
            0 <= a < r.len() && 0 <= b < r[a].1.len() implies r[a].1[b].quantity > 0
            && r[a].1[b].price == r[a].0 by {
            if a == i {
                assert(r[a].1[b] == ls[i].1[b + 1]);
            } else {
                assert(r[a] == ls[a]);
            }
        }
        assert(wf_levels(r));
    }
}

/// A partial fill of the top order keeps the state well formed, leaves the
/// order count alone, and takes exactly the filled quantity out of the book.
proof fn lemma_reduce_best_facts(side: Side, ls: LevelsView, q: u64)
    requires
        wf_levels(ls),
        ls.len() > 0,
        0 < q < top_of(side, ls).unwrap().quantity,
    ensures
        wf_levels(reduce_best(side, ls, q)),
        total_qty(reduce_best(side, ls, q)) + q == total_qty(ls),
        total_orders(reduce_best(side, ls, q)) == total_orders(ls),
        top_of(side, reduce_best(side, ls, q)).unwrap().quantity == top_of(
            side,
            ls,
        ).unwrap().quantity - q,
{
    let i = best_index(side, ls);
    let front = ls[i].1[0];
    let reduced = Order {
        price: front.price,
        quantity: (front.quantity - q) as u64,
        side: front.side,
        creator: front.creator,
    };
    let nq = ls[i].1.update(0, reduced);
    let v = (ls[i].0, nq);
    let r = reduce_best(side, ls, q);
    lemma_total_qty_update(ls, i, v);
    lemma_total_orders_update(ls, i, v);
    assert(nq.drop_first() =~= ls[i].1.drop_first());
    assert(level_qty(nq) == reduced.quantity + level_qty(nq.drop_first()));
    assert(level_qty(ls[i].1) == front.quantity + level_qty(ls[i].1.drop_first()));
    assert forall|a: int, b: int|
        #![trigger r[a].1[b]]
        0 <= a < r.len() && 0 <= b < r[a].1.len() implies r[a].1[b].quantity > 0 && r[a].1[b].price
        == r[a].0 by {
        if a == i {
            if b == 0 {
                assert(r[a].1[b] == reduced);
                assert(ls[i].1[0].price == ls[i].0);
            } else {
                assert(r[a].1[b] == ls[i].1[b]);
            }
        } else {
            assert(r[a] == ls[a]);
        }
    }
    assert(wf_levels(r));
    assert(r[i].1[0] == reduced);
}

/// Law: quantity conservation in a single match step. When a favorable match
/// is possible, the first trade's quantity is exactly the smaller of the two
/// remaining quantities — never more than either side has available — and
/// after the step the incoming remainder and the resting remainder have both
/// dropped by exactly that quantity (the resting order is dequeued when its
/// remainder reaches zero, and the crossing continues from that state).
pub proof fn lemma_match_step_conservation(side: Side, ls: LevelsView, incoming: Order)
    requires
        wf_levels(ls),
        incoming.quantity > 0,
        top_of(side, ls) is Some,
        favorable(incoming, top_of(side, ls).unwrap().price),
    ensures
        ({
            let resting = top_of(side, ls).unwrap();
            let q = min_qty(incoming.quantity, resting.quantity);
            let ts = cross_spec(side, ls, incoming).0;
            let next = if resting.quantity == q {
                pop_best(side, ls)
            } else {
                reduce_best(side, ls, q)
            };
            &&& ts.len() >= 1
            &&& ts[0] == trade_of(incoming, resting, q)
            &&& ts[0].quantity == q
            &&& q <= incoming.quantity
            &&& q <= resting.quantity
            &&& after_fill(incoming, q).quantity == incoming.quantity - q
            &&& total_qty(next) + q == total_qty(ls)
            &&& resting.quantity > q ==> top_of(side, next).unwrap().quantity == resting.quantity
                - q
            &&& resting.quantity == q ==> total_orders(next) + 1 == total_orders(ls)
            &&& ts.drop_first() == cross_spec(side, next, after_fill(incoming, q)).0
        }),
{
    let resting = top_of(side, ls).unwrap();
    assert(ls[best_index(side, ls)].1[0].quantity > 0);
    let q = min_qty(incoming.quantity, resting.quantity);
    let next = if resting.quantity == q {
        pop_best(side, ls)
    } else {
        reduce_best(side, ls, q)
    };
    if resting.quantity == q {
        lemma_pop_best_facts(side, ls);
    } else {
        lemma_reduce_best_facts(side, ls, q);
    }
    let t = trade_of(incoming, resting, q);
    let rest = cross_spec(side, next, after_fill(incoming, q));
    assert((seq![t] + rest.0).drop_first() =~= rest.0);
    assert((seq![t] + rest.0)[0] == t);
}

/// Law: quantity conservation over a whole crossing, and no negative
/// quantities. Every emitted trade's quantity is positive, the trades sum to
/// no more than the incoming order's quantity, the book's resting quantity
/// drops by exactly that sum, and the resting state stays well formed — in
/// particular every quantity still resting is positive.
pub proof fn lemma_cross_conservation(side: Side, ls: LevelsView, incoming: Order)
    requires
        wf_levels(ls),
    ensures
        ({
            let ts = cross_spec(side, ls, incoming).0;
            let after = cross_spec(side, ls, incoming).1;
            &&& wf_levels(after)
            &&& total_qty(after) + sum_qty(ts) == total_qty(ls)
            &&& sum_qty(ts) <= incoming.quantity
            &&& forall|i: int| 0 <= i < ts.len() ==> (#[trigger] ts[i]).quantity > 0
        }),
    decreases incoming.quantity,
{
    if incoming.quantity == 0 {
    } else {
        match top_of(side, ls) {
            None => {},
            Some(resting) => {
                if favorable(incoming, resting.price) {
                    assert(ls[best_index(side, ls)].1[0].quantity > 0);
                    let q = min_qty(incoming.quantity, resting.quantity);
                    let next = if resting.quantity == q {
                        pop_best(side, ls)
                    } else {
                        reduce_best(side, ls, q)
                    };
                    if resting.quantity == q {
                        lemma_pop_best_facts(side, ls);
                    } else {
                        lemma_reduce_best_facts(side, ls, q);
                    }
                    lemma_cross_conservation(side, next, after_fill(incoming, q));
                    let t = trade_of(incoming, resting, q);
                    let rest = cross_spec(side, next, after_fill(incoming, q));
                    assert((seq![t] + rest.0).drop_first() =~= rest.0);
                    assert((seq![t] + rest.0)[0] == t);
                    assert forall|i: int| 0 <= i < (seq![t] + rest.0).len() implies (#[trigger] (
                    seq![t] + rest.0)[i]).quantity > 0 by {
                        if i > 0 {
                            assert((seq![t] + rest.0)[i] == rest.0[i - 1]);
                        }
                    }
                }
            },
        }
    }
}

/// Law: FIFO within a price level. Inserting order `a` and then order `b` at
/// the same price, and crossing against them with enough quantity to consume
/// `a`, fully matches `a` — in one trade, first — before any quantity of `b`
/// trades.
pub proof fn lemma_fifo_within_level(side: Side, a: Order, b: Order, incoming: Order)
    requires
        a.price == b.price,
        a.quantity > 0,
        b.quantity > 0,
        incoming.quantity > a.quantity,
        favorable(incoming, a.price),
    ensures
        ({
            let ls = insert_level(insert_level(Seq::empty(), a), b);
            let ts = cross_spec(side, ls, incoming).0;
            let q2 = min_qty((incoming.quantity - a.quantity) as u64, b.quantity);
            &&& ls == seq![(a.price, seq![a, b])]
            &&& ts.len() == 2
            &&& ts[0] == trade_of(incoming, a, a.quantity)
            &&& ts[1] == trade_of(after_fill(incoming, a.quantity), b, q2)
        }),
{
    let ls1 = insert_level(Seq::empty(), a);
    assert(ls1 =~= seq![(a.price, seq![a])]);
    let ls = insert_level(ls1, b);
    assert(ls1[0].1.push(b) =~= seq![a, b]);
    assert(ls =~= seq![(a.price, seq![a, b])]);

    let i = best_index(side, ls);
    assert(i == 0);
    assert(top_of(side, ls) == Some(a));
    let mid = pop_best(side, ls);
    assert(seq![a, b].drop_first() =~= seq![b]);
    assert(mid =~= seq![(a.price, seq![b])]);

    let inc2 = after_fill(incoming, a.quantity);
    let q2 = min_qty(inc2.quantity, b.quantity);
    assert(top_of(side, mid) == Some(b));
    let t2 = trade_of(inc2, b, q2);
    let after2 = if b.quantity == q2 {
        pop_best(side, mid)
    } else {
        reduce_best(side, mid, q2)
    };
    let inc3 = after_fill(inc2, q2);
    if b.quantity == q2 {
        assert(mid[0].1.len() <= 1);
        assert(after2 =~= Seq::<(u64, Seq<Order>)>::empty());
        assert(cross_spec(side, after2, inc3).0 =~= Seq::<Trade>::empty());
    } else {
        assert(inc3.quantity == 0);
        assert(cross_spec(side, after2, inc3).0 =~= Seq::<Trade>::empty());
    }
    let tail = cross_spec(side, mid, inc2).0;
    assert(tail =~= seq![t2] + Seq::<Trade>::empty());
    assert(tail =~= seq![t2]);
    let ts = cross_spec(side, ls, incoming).0;
    assert(ts =~= seq![trade_of(incoming, a, a.quantity)] + seq![t2]);
    assert(ts[1] == t2);
}

/// Law: level cleanup. Dequeuing the last order resting at the best price
/// level removes the level itself: no level of the result carries that key,
/// and one fewer level remains.
pub proof fn lemma_level_cleanup(side: Side, ls: LevelsView)
    requires
        wf_levels(ls),
        ls.len() > 0,
        ls[best_index(side, ls)].1.len() == 1,
    ensures
        pop_best(side, ls).len() == ls.len() - 1,
        forall|j: int|
            0 <= j < pop_best(side, ls).len() ==> (#[trigger] pop_best(side, ls)[j]).0 != ls[
                best_index(side, ls)
            ].0,
{
    let i = best_index(side, ls);
    let r = pop_best(side, ls);
    ls.remove_ensures(i);
    assert forall|j: int| 0 <= j < r.len() implies (#[trigger] r[j]).0 != ls[i].0 by {
        if j < i {
            assert(r[j] == ls[j]);
        } else {
            assert(r[j] == ls[j + 1]);
        }
    }
}

/// Law: no match on an unfavorable spread. An incoming Buy priced below
/// every resting price produces no trades and leaves the resting state
/// exactly as it was.
pub proof fn lemma_no_match_unfavorable(side: Side, ls: LevelsView, incoming: Order)
    requires
        wf_levels(ls),
        incoming.side == Side::Buy,
        forall|i: int| 0 <= i < ls.len() ==> incoming.price < (#[trigger] ls[i]).0,
    ensures
        cross_spec(side, ls, incoming).0.len() == 0,
        cross_spec(side, ls, incoming).1 == ls,
{
    if incoming.quantity > 0 && ls.len() > 0 {
        let i = best_index(side, ls);
        assert(ls[i].1[0].price == ls[i].0);
        assert(!favorable(incoming, top_of(side, ls).unwrap().price));
    }
}

/// Law: querying an empty book is idempotent. With nothing resting, `top`
/// finds no order, a dequeue changes nothing, and a crossing emits no trade
/// and changes nothing — so repeating any of them returns "empty" every
/// time.
pub proof fn lemma_empty_book_queries(side: Side, incoming: Order)
    ensures
        top_of(side, Seq::empty()) is None,
        pop_best(side, Seq::empty()) == Seq::<(u64, Seq<Order>)>::empty(),
        cross_spec(side, Seq::empty(), incoming).0.len() == 0,
        cross_spec(side, Seq::empty(), incoming).1 == Seq::<(u64, Seq<Order>)>::empty(),
{
}

} // verus!
