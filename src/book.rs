//! The order book: price levels on each side, matching, and the trade ledger.
use crate::decimal::{dec_from_parts, decimal_parse, decimal_text, Dec};
use crate::laws::{lemma_placed_best, lemma_removed_best, lemma_sweep_best};
use crate::stamps::{get_current_timestamp, new_trade_id};
use vstd::prelude::*;

verus! {

/// The side of an order, or of the book that holds resting orders of that side.
#[derive(Clone, Copy, Debug, PartialEq, Eq, Structural)]
pub enum Side {
    Buy,
    Sell,
}

/// An instruction as it arrives: every field but the timestamp is text.
#[derive(Clone, Debug)]
pub struct Order {
    pub type_op: String,
    pub account_id: String,
    pub amount: String,
    pub order_id: String,
    pub pair: String,
    pub limit_price: String,
    pub side: String,
    pub timestamp: u64,
}

/// One resting order as reported in a snapshot of the book.
#[derive(Clone, Debug)]
pub struct OrderBookEntry {
    pub order_id: String,
    pub account_id: String,
    pub pair: String,
    pub side: String,
    pub amount: String,
    pub price: String,
    pub timestamp: u64,
}

/// The record of one match between an incoming order and a resting one.
#[derive(Clone, Debug)]
pub struct Trade {
    pub trade_id: String,
    pub taker_order_id: String,
    pub maker_order_id: String,
    pub pair: String,
    pub price: String,
    pub amount: String,
    pub timestamp: u64,
}

/// An order resting in the book; its price is that of its level.
#[derive(Clone, Debug)]
pub struct RestingOrder {
    pub order_id: String,
    pub account_id: String,
    pub pair: String,
    pub amount: Dec,
    pub timestamp: u64,
}

impl RestingOrder {
    /// The text of the amount left.
    pub fn amount_text(&self) -> (r: String)
        requires
            self.amount.wf(),
        ensures
            r@ == decimal_text(self.amount.mantissa, self.amount.scale),
    {
        self.amount.to_text()
    }
}

/// The orders resting at one price, earliest first.
pub struct PriceLevel {
    pub price: Dec,
    pub orders: Vec<RestingOrder>,
}

/// Why an instruction was turned away; the book is left as it was.
#[derive(Clone, Copy, Debug, PartialEq, Eq, Structural)]
pub enum OrderError {
    /// The amount is no decimal in the supported range.
    MalformedAmount,
    /// The limit price is no decimal in the supported range.
    MalformedPrice,
    /// A CREATE whose amount is zero or negative.
    NonPositiveAmount,
    /// An operation other than CREATE or DELETE.
    UnknownOperation,
}

/// A price level as its price and its orders, earliest first.
pub type LevelView = (Dec, Seq<RestingOrder>);

/// One resting order in the order of matching, with the price of its level.
pub type Entry = (Dec, RestingOrder);

/// One match: the maker's identifier, the price, and the amount traded.
pub type Fill = (Seq<char>, Dec, Dec);

pub open spec fn level_view(l: PriceLevel) -> LevelView {
    (l.price, l.orders@)
}

pub open spec fn view_levels(levels: Seq<PriceLevel>) -> Seq<LevelView> {
    levels.map_values(|l: PriceLevel| level_view(l))
}

/// Whether price `a` is matched before price `b` on the given side of the book:
/// the highest bid first, the lowest ask first.
pub open spec fn ahead(side: Side, a: int, b: int) -> bool {
    match side {
        Side::Buy => a > b,
        Side::Sell => a < b,
    }
}

/// Whether a resting level at price `p` on `side` is eligible for an incoming
/// order of the other side with limit `limit`.
pub open spec fn reachable(side: Side, p: int, limit: int) -> bool {
    match side {
        Side::Buy => p >= limit,
        Side::Sell => p <= limit,
    }
}

pub open spec fn resting_wf(o: RestingOrder) -> bool {
    o.amount.wf() && o.amount.units() > 0
}

pub open spec fn level_wf(l: LevelView) -> bool {
    &&& l.0.wf()
    &&& l.1.len() > 0
    &&& forall|k: int| 0 <= k < l.1.len() ==> resting_wf(#[trigger] l.1[k])
}

/// Every level is well formed and non-empty, and the levels stand best price first,
/// with distinct prices.
pub open spec fn levels_wf(v: Seq<LevelView>, side: Side) -> bool {
    &&& forall|i: int| 0 <= i < v.len() ==> level_wf(#[trigger] v[i])
    &&& forall|i: int, j: int|
        0 <= i < j < v.len() ==> ahead(side, #[trigger] v[i].0.units(), #[trigger] v[j].0.units())
}

pub open spec fn tag(l: LevelView) -> Seq<Entry> {
    l.1.map_values(|o: RestingOrder| (l.0, o))
}

/// The resting orders of a side in the order of matching: level by level, and
/// within a level in order of arrival.
pub open spec fn queue(v: Seq<LevelView>) -> Seq<Entry>
    decreases v.len(),
{
    if v.len() == 0 {
        Seq::empty()
    } else {
        queue(v.drop_last()) + tag(v.last())
    }
}

pub open spec fn with_amount(o: RestingOrder, amount: Dec) -> RestingOrder {
    RestingOrder {
        order_id: o.order_id,
        account_id: o.account_id,
        pair: o.pair,
        amount: amount,
        timestamp: o.timestamp,
    }
}

/// What is traded between a taker with `rem` left and a maker with `amount`:
/// the smaller, and the taker's amount on a tie.
pub open spec fn trade_amount(rem: Dec, amount: Dec) -> Dec {
    if rem.units() <= amount.units() {
        rem
    } else {
        amount
    }
}

/// Matching an incoming order with `rem` left against the queue of the other
/// side: the queue afterwards, the fills in order, and what is left.
pub open spec fn sweep(q: Seq<Entry>, side: Side, limit: int, rem: Dec) -> (Seq<Entry>, Seq<Fill>, Dec)
    decreases q.len(),
{
    if rem.units() <= 0 || q.len() == 0 || !reachable(side, q[0].0.units(), limit) {
        (q, Seq::empty(), rem)
    } else {
        let p = q[0].0;
        let o = q[0].1;
        let t = trade_amount(rem, o.amount);
        let fill = (o.order_id@, p, t);
        if t.units() == o.amount.units() {
            let r = sweep(q.drop_first(), side, limit, rem.spec_sub(t));
            (r.0, seq![fill] + r.1, r.2)
        } else {
            (q.update(0, (p, with_amount(o, o.amount.spec_sub(t)))), seq![fill], rem.spec_sub(t))
        }
    }
}

/// A trade records a fill of the given taker.
pub open spec fn trade_of(t: Trade, taker: Order, f: Fill) -> bool {
    &&& t.taker_order_id@ == taker.order_id@
    &&& t.maker_order_id@ == f.0
    &&& t.pair@ == taker.pair@
    &&& t.price@ == decimal_text(f.1.mantissa, f.1.scale)
    &&& t.amount@ == decimal_text(f.2.mantissa, f.2.scale)
}

pub open spec fn trades_record(ts: Seq<Trade>, taker: Order, fills: Seq<Fill>) -> bool {
    &&& ts.len() == fills.len()
    &&& forall|i: int| 0 <= i < ts.len() ==> trade_of(#[trigger] ts[i], taker, fills[i])
}

pub proof fn lemma_queue_front(l: LevelView, rest: Seq<LevelView>)
    ensures
        queue(seq![l] + rest) == tag(l) + queue(rest),
    decreases rest.len(),
{
    let s = seq![l] + rest;
    if rest.len() == 0 {
        assert(s.drop_last() =~= Seq::<LevelView>::empty());
        assert(s.last() == l);
        assert(queue(s.drop_last()) =~= Seq::<Entry>::empty());
        assert(queue(s) =~= tag(l));
        assert(queue(rest) =~= Seq::<Entry>::empty());
        assert(tag(l) + queue(rest) =~= tag(l));
    } else {
        lemma_queue_front(l, rest.drop_last());
        assert(s.drop_last() =~= seq![l] + rest.drop_last());
        assert(s.last() == rest.last());
        assert(queue(s) =~= tag(l) + queue(rest));
    }
}

proof fn lemma_levels_split(levels: Seq<PriceLevel>)
    requires
        levels.len() > 0,
    ensures
        view_levels(levels) == seq![level_view(levels[0])] + view_levels(levels.drop_first()),
        view_levels(levels.remove(0)) == view_levels(levels.drop_first()),
{
    assert(view_levels(levels) =~= seq![level_view(levels[0])] + view_levels(levels.drop_first()));
    assert(levels.remove(0) =~= levels.drop_first());
}

proof fn lemma_levels_push_front(l: PriceLevel, rest: Seq<PriceLevel>)
    ensures
        view_levels(rest.insert(0, l)) == seq![level_view(l)] + view_levels(rest),
{
    assert(view_levels(rest.insert(0, l)) =~= seq![level_view(l)] + view_levels(rest));
}

/// Matches an incoming order with `amount` left against the levels of the other
/// side, best price first and earliest first within a price.
fn sweep_levels(levels: &mut Vec<PriceLevel>, side: Side, limit: Dec, amount: Dec, taker: &Order) -> (r: (Vec<Trade>, Dec))
    requires
        levels_wf(view_levels(old(levels)@), side),
        limit.wf(),
        amount.wf(),
    ensures
        levels_wf(view_levels(final(levels)@), side),
        r.1.wf(),
        ({
            let s = sweep(queue(view_levels(old(levels)@)), side, limit.units(), amount);
            &&& queue(view_levels(final(levels)@)) == s.0
            &&& r.1 == s.2
            &&& trades_record(r.0@, *taker, s.1)
        }),
{
    let ghost q0 = queue(view_levels(levels@));
    let ghost done: Seq<Fill> = Seq::empty();
    let mut trades: Vec<Trade> = Vec::new();
    let mut rem = amount;
    loop
        invariant
            levels_wf(view_levels(levels@), side),
            limit.wf(),
            rem.wf(),
            trades_record(trades@, *taker, done),
            ({
                let s0 = sweep(q0, side, limit.units(), amount);
                let s = sweep(queue(view_levels(levels@)), side, limit.units(), rem);
                &&& s0.0 == s.0
                &&& s0.1 == done + s.1
                &&& s0.2 == s.2
            }),
        ensures
            ({
                let c = queue(view_levels(levels@));
                sweep(c, side, limit.units(), rem) == (c, Seq::<Fill>::empty(), rem)
            }),
        decreases queue(view_levels(levels@)).len() + (if rem.units() > 0 { 1int } else { 0int }),
    {
        let ghost cur = queue(view_levels(levels@));
        if !rem.is_positive() || levels.len() == 0 {
            proof {
                if levels.len() == 0 {
                    assert(view_levels(levels@).len() == 0);
                    assert(cur =~= Seq::<Entry>::empty());
                }
                assert(done + Seq::<Fill>::empty() =~= done);
                assert(sweep(cur, side, limit.units(), rem) == (cur, Seq::<Fill>::empty(), rem));
            }
            break;
        }
        let price = levels[0].price;
        proof {
            lemma_levels_split(levels@);
            lemma_queue_front(level_view(levels@[0]), view_levels(levels@.drop_first()));
            assert(level_wf(view_levels(levels@)[0]));
            assert(cur[0] == (price, levels@[0].orders@[0]));
        }
        let go = match side {
            Side::Sell => price.le(&limit),
            Side::Buy => limit.le(&price),
        };
        if !go {
            proof {
                assert(done + Seq::<Fill>::empty() =~= done);
                assert(sweep(cur, side, limit.units(), rem) == (cur, Seq::<Fill>::empty(), rem));
            }
            break;
        }
        let ghost rest = levels@.drop_first();
        let ghost old_levels = levels@;
        let mut level = levels.remove(0);
        let ghost os = level.orders@;
        let maker = level.orders.remove(0);
        proof {
            assert(resting_wf(os[0]));
            assert(os =~= seq![maker] + level.orders@);
            assert(tag((price, os)) =~= seq![(price, maker)] + tag(
                (price, level.orders@),
            ));
        }
        let t = rem.min(maker.amount);
        let full = maker.amount.le(&t);
        let trade = Trade {
            trade_id: new_trade_id(),
            taker_order_id: taker.order_id.clone(),
            maker_order_id: maker.order_id.clone(),
            pair: taker.pair.clone(),
            price: price.to_text(),
            amount: t.to_text(),
            timestamp: get_current_timestamp(),
        };
        let ghost trades_before = trades@;
        trades.push(trade);
        let ghost fill: Fill = (maker.order_id@, price, t);
        let ghost done_before = done;
        let ghost rem_before = rem;
        proof {
            done = done + seq![fill];
            assert(trades@.last() == trade);
            assert forall|i: int| 0 <= i < trades@.len() implies trade_of(
                #[trigger] trades@[i],
                *taker,
                done[i],
            ) by {
                if i < trades@.len() - 1 {
                    assert(trades@[i] == trades_before[i]);
                }
            }
        }
        rem = rem.sub(&t);
        proof {
            assert(cur[0] == (price, maker));
            assert(cur.drop_first() =~= tag((price, level.orders@)) + queue(view_levels(rest)));
        }
        if full {
            if level.orders.len() > 0 {
                levels.insert(0, level);
                proof {
                    lemma_levels_push_front(level, rest);
                    lemma_queue_front(level_view(level), view_levels(rest));
                    assert(view_levels(levels@).len() == view_levels(old_levels).len());
                    assert(forall|i: int| 0 <= i < view_levels(levels@).len() ==> #[trigger] view_levels(levels@)[i].0 == view_levels(old_levels)[i].0);
                    assert(levels_wf(view_levels(levels@), side)) by {
                        assert forall|i: int| 0 <= i < view_levels(levels@).len() implies level_wf(
                            #[trigger] view_levels(levels@)[i],
                        ) by {
                            if i == 0 {
                                assert forall|k: int| 0 <= k < level.orders@.len() implies resting_wf(
                                    #[trigger] level.orders@[k],
                                ) by {
                                    assert(level.orders@[k] == os[k + 1]);
                                }
                            } else {
                                assert(view_levels(levels@)[i] == view_levels(old_levels)[i]);
                            }
                        }
                    }
                }
            } else {
                proof {
                    assert(tag((price, level.orders@)) =~= Seq::<Entry>::empty());
                    assert(view_levels(levels@) =~= view_levels(rest));
                    assert(forall|i: int| 0 <= i < view_levels(rest).len() ==> #[trigger] view_levels(rest)[i] == view_levels(old_levels)[i + 1]);
                }
            }
            proof {
                assert(queue(view_levels(levels@)) =~= cur.drop_first());
                let r = sweep(cur.drop_first(), side, limit.units(), rem);
                assert(done_before + (seq![fill] + r.1) =~= done + r.1);
            }
        } else {
            let left = maker.amount.sub(&t);
            let updated = RestingOrder {
                order_id: maker.order_id,
                account_id: maker.account_id,
                pair: maker.pair,
                amount: left,
                timestamp: maker.timestamp,
            };
            level.orders.insert(0, updated);
            levels.insert(0, level);
            proof {
                lemma_levels_push_front(level, rest);
                lemma_queue_front(level_view(level), view_levels(rest));
                assert(level.orders@ =~= os.update(0, updated));
                assert(tag((price, level.orders@)) =~= tag((price, os)).update(0, (price, updated)));
                assert(queue(view_levels(levels@)) =~= cur.update(0, (price, with_amount(maker, left))));
                assert(rem.units() == 0);
                assert(view_levels(levels@).len() == view_levels(old_levels).len());
                assert(forall|i: int| 0 <= i < view_levels(levels@).len() ==> #[trigger] view_levels(levels@)[i].0 == view_levels(old_levels)[i].0);
                assert(levels_wf(view_levels(levels@), side)) by {
                    assert forall|i: int| 0 <= i < view_levels(levels@).len() implies level_wf(
                        #[trigger] view_levels(levels@)[i],
                    ) by {
                        if i == 0 {
                            assert forall|k: int| 0 <= k < level.orders@.len() implies resting_wf(
                                #[trigger] level.orders@[k],
                            ) by {
                                if k > 0 {
                                    assert(level.orders@[k] == os[k]);
                                }
                            }
                        } else {
                            assert(view_levels(levels@)[i] == view_levels(old_levels)[i]);
                        }
                    }
                }
                assert(done_before + seq![fill] =~= done + Seq::<Fill>::empty());
            }
        }
    }
    proof {
        assert(done + Seq::<Fill>::empty() =~= done);
    }
    (trades, rem)
}

/// Where an order at price `p` goes on a side: every level before it is ahead of
/// `p`, and the level at it, if any, is not.
pub open spec fn is_insert_point(v: Seq<LevelView>, side: Side, p: int, i: int) -> bool {
    &&& 0 <= i <= v.len()
    &&& forall|j: int| 0 <= j < i ==> ahead(side, #[trigger] v[j].0.units(), p)
    &&& i < v.len() ==> !ahead(side, v[i].0.units(), p)
}

pub open spec fn insert_point(v: Seq<LevelView>, side: Side, p: int) -> int {
    choose|i: int| is_insert_point(v, side, p, i)
}

/// A side after order `o` joins it at price `p`: at the end of the level of equal
/// price, which keeps its own price, or alone in a new level.
pub open spec fn placed(v: Seq<LevelView>, side: Side, p: Dec, o: RestingOrder) -> Seq<LevelView> {
    let i = insert_point(v, side, p.units());
    if i < v.len() && v[i].0.units() == p.units() {
        v.update(i, (v[i].0, v[i].1.push(o)))
    } else {
        v.insert(i, (p, seq![o]))
    }
}

pub open spec fn keeps(id: Seq<char>) -> spec_fn(RestingOrder) -> bool {
    |o: RestingOrder| o.order_id@ != id
}

pub open spec fn has_level(v: Seq<LevelView>, p: int) -> bool {
    exists|i: int| 0 <= i < v.len() && #[trigger] v[i].0.units() == p
}

pub open spec fn level_index(v: Seq<LevelView>, p: int) -> int {
    choose|i: int| 0 <= i < v.len() && #[trigger] v[i].0.units() == p
}

/// A side after the orders with identifier `id` leave the level at price `p`; the
/// level goes too when nothing is left in it.
pub open spec fn removed(v: Seq<LevelView>, p: int, id: Seq<char>) -> Seq<LevelView> {
    if has_level(v, p) {
        let i = level_index(v, p);
        let os = v[i].1.filter(keeps(id));
        if os.len() == 0 {
            v.remove(i)
        } else {
            v.update(i, (v[i].0, os))
        }
    } else {
        v
    }
}

fn is_ahead(side: Side, a: &Dec, b: &Dec) -> (r: bool)
    requires
        a.wf(),
        b.wf(),
    ensures
        r == ahead(side, a.units(), b.units()),
{
    match side {
        Side::Buy => !a.le(b),
        Side::Sell => !b.le(a),
    }
}

proof fn lemma_view_index(levels: Seq<PriceLevel>, i: int)
    requires
        0 <= i < levels.len(),
    ensures
        view_levels(levels)[i] == level_view(levels[i]),
        view_levels(levels).len() == levels.len(),
{
}

/// Appends an order at its price on one side of the book.
fn insert_order(levels: &mut Vec<PriceLevel>, side: Side, price: Dec, order: RestingOrder)
    requires
        levels_wf(view_levels(old(levels)@), side),
        price.wf(),
        resting_wf(order),
    ensures
        levels_wf(view_levels(final(levels)@), side),
        view_levels(final(levels)@) == placed(view_levels(old(levels)@), side, price, order),
        is_insert_point(
            view_levels(old(levels)@),
            side,
            price.units(),
            insert_point(view_levels(old(levels)@), side, price.units()),
        ),
{
    let ghost v = view_levels(levels@);
    let mut i: usize = 0;
    loop
        invariant
            0 <= i <= levels.len(),
            v == view_levels(levels@),
            levels_wf(v, side),
            price.wf(),
            forall|j: int| 0 <= j < i ==> ahead(side, #[trigger] v[j].0.units(), price.units()),
        ensures
            0 <= i <= levels.len(),
            i < levels.len() ==> !ahead(side, v[i as int].0.units(), price.units()),
        decreases levels.len() - i,
    {
        if i >= levels.len() {
            break;
        }
        proof {
            lemma_view_index(levels@, i as int);
        }
        if !is_ahead(side, &levels[i].price, &price) {
            break;
        }
        i = i + 1;
    }
    proof {
        if i < levels.len() {
            lemma_view_index(levels@, i as int);
        }
        assert(is_insert_point(v, side, price.units(), i as int));
        assert forall|k: int| is_insert_point(v, side, price.units(), k) implies k == i by {
            if k < i {
                assert(ahead(side, v[k].0.units(), price.units()));
            } else if k > i {
                assert(ahead(side, v[i as int].0.units(), price.units()));
            }
        }
        assert(insert_point(v, side, price.units()) == i);
    }
    if i < levels.len() && levels[i].price.units_of() == price.units_of() {
        let mut level = levels.remove(i);
        let ghost before = level.orders@;
        level.orders.push(order);
        levels.insert(i, level);
        proof {
            assert(view_levels(levels@) =~= v.update(i as int, (v[i as int].0, before.push(order))));
            assert(levels_wf(view_levels(levels@), side)) by {
                let w = view_levels(levels@);
                assert forall|j: int| 0 <= j < w.len() implies level_wf(#[trigger] w[j]) by {
                    if j == i {
                        assert forall|k: int| 0 <= k < w[j].1.len() implies resting_wf(
                            #[trigger] w[j].1[k],
                        ) by {
                            if k < before.len() {
                                assert(w[j].1[k] == v[j].1[k]);
                            }
                        }
                    }
                }
                assert forall|a: int, b: int| 0 <= a < b < w.len() implies ahead(
                    side,
                    #[trigger] w[a].0.units(),
                    #[trigger] w[b].0.units(),
                ) by {
                    assert(w[a].0 == v[a].0 && w[b].0 == v[b].0);
                }
            }
        }
    } else {
        let mut orders: Vec<RestingOrder> = Vec::new();
        orders.push(order);
        let ghost os = orders@;
        levels.insert(i, PriceLevel { price, orders });
        proof {
            assert(os =~= seq![order]);
            assert(view_levels(levels@) =~= v.insert(i as int, (price, seq![order])));
            assert(levels_wf(view_levels(levels@), side)) by {
                let w = view_levels(levels@);
                assert forall|j: int| 0 <= j < w.len() implies level_wf(#[trigger] w[j]) by {
                    if j < i {
                        assert(w[j] == v[j]);
                    } else if j > i {
                        assert(w[j] == v[j - 1]);
                    }
                }
                assert forall|a: int, b: int| 0 <= a < b < w.len() implies ahead(
                    side,
                    #[trigger] w[a].0.units(),
                    #[trigger] w[b].0.units(),
                ) by {
                    if b < i {
                        assert(w[a] == v[a] && w[b] == v[b]);
                    } else if b == i {
                        assert(w[a] == v[a]);
                    } else if a == i {
                        assert(w[b] == v[b - 1]);
                        if b - 1 > i {
                            assert(ahead(side, v[i as int].0.units(), v[b - 1].0.units()));
                        }
                    } else if a < i {
                        assert(w[a] == v[a] && w[b] == v[b - 1]);
                    } else {
                        assert(w[a] == v[a - 1] && w[b] == v[b - 1]);
                    }
                }
            }
        }
    }
}

proof fn lemma_filter_step(s: Seq<RestingOrder>, n: int, id: Seq<char>)
    requires
        0 <= n < s.len(),
    ensures
        s.subrange(0, n + 1).filter(keeps(id)) == (if s[n].order_id@ != id {
            s.subrange(0, n).filter(keeps(id)).push(s[n])
        } else {
            s.subrange(0, n).filter(keeps(id))
        }),
{
    reveal(Seq::filter);
    assert(s.subrange(0, n + 1).drop_last() =~= s.subrange(0, n));
    assert(s.subrange(0, n + 1).last() == s[n]);
}

/// Drops the orders with identifier `id` from the level at `price`, and the level
/// when it empties; a missing level or order leaves the side as it was.
fn remove_from_levels(levels: &mut Vec<PriceLevel>, side: Side, price: Dec, id: &String)
    requires
        levels_wf(view_levels(old(levels)@), side),
        price.wf(),
    ensures
        levels_wf(view_levels(final(levels)@), side),
        view_levels(final(levels)@) == removed(view_levels(old(levels)@), price.units(), id@),
{
    let ghost v = view_levels(levels@);
    let p = price.units_of();
    let mut i: usize = 0;
    loop
        invariant
            0 <= i <= levels.len(),
            v == view_levels(levels@),
            levels_wf(v, side),
            price.wf(),
            p == price.units(),
            forall|j: int| 0 <= j < i ==> #[trigger] v[j].0.units() != p,
        ensures
            0 <= i <= levels.len(),
            forall|j: int| 0 <= j < i ==> #[trigger] v[j].0.units() != p,
            i < levels.len() ==> v[i as int].0.units() == p,
        decreases levels.len() - i,
    {
        if i >= levels.len() {
            break;
        }
        proof {
            lemma_view_index(levels@, i as int);
        }
        if levels[i].price.units_of() == p {
            break;
        }
        i = i + 1;
    }
    if i == levels.len() {
        proof {
            assert(!has_level(v, p as int));
        }
        return;
    }
    proof {
        assert(has_level(v, p as int));
        let c = level_index(v, p as int);
        if c != i {
            if c < i {
                assert(ahead(side, v[c].0.units(), v[i as int].0.units()));
            } else {
                assert(ahead(side, v[i as int].0.units(), v[c].0.units()));
            }
        }
    }
    let ghost old_levels = levels@;
    let mut level = levels.remove(i);
    let ghost os = level.orders@;
    proof {
        lemma_view_index(old_levels, i as int);
        assert(os == v[i as int].1);
        assert(level_wf(v[i as int]));
    }
    let mut kept: Vec<RestingOrder> = Vec::new();
    while level.orders.len() > 0
        invariant
            os.len() == v[i as int].1.len(),
            level.orders.len() <= os.len(),
            level.price == v[i as int].0,
            levels@ == old_levels.remove(i as int),
            v == view_levels(old_levels),
            i < old_levels.len(),
            level.orders@ == os.subrange(os.len() - level.orders.len(), os.len() as int),
            kept@ == os.subrange(0, os.len() - level.orders.len()).filter(keeps(id@)),
            forall|k: int| 0 <= k < kept@.len() ==> resting_wf(#[trigger] kept@[k]),
            forall|k: int| 0 <= k < os.len() ==> resting_wf(#[trigger] os[k]),
        decreases level.orders.len(),
    {
        let ghost n = os.len() - level.orders.len();
        let o = level.orders.remove(0);
        proof {
            assert(o == os[n]);
            lemma_filter_step(os, n, id@);
            assert(level.orders@ =~= os.subrange(n + 1, os.len() as int));
        }
        let same = o.order_id == *id;
        if !same {
            kept.push(o);
        }
    }
    proof {
        assert(os.subrange(0, os.len() as int) =~= os);
    }
    if kept.len() > 0 {
        let ghost ks = kept@;
        levels.insert(i, PriceLevel { price: level.price, orders: kept });
        proof {
            assert(view_levels(levels@) =~= v.update(i as int, (v[i as int].0, ks)));
            let w = view_levels(levels@);
            assert forall|j: int| 0 <= j < w.len() implies level_wf(#[trigger] w[j]) by {
                if j != i {
                    assert(w[j] == v[j]);
                }
            }
            assert forall|a: int, b: int| 0 <= a < b < w.len() implies ahead(
                side,
                #[trigger] w[a].0.units(),
                #[trigger] w[b].0.units(),
            ) by {
                assert(w[a].0 == v[a].0 && w[b].0 == v[b].0);
            }
        }
    } else {
        proof {
            assert(view_levels(levels@) =~= v.remove(i as int));
            let w = view_levels(levels@);
            assert forall|j: int| 0 <= j < w.len() implies level_wf(#[trigger] w[j]) by {
                if j < i {
                    assert(w[j] == v[j]);
                } else {
                    assert(w[j] == v[j + 1]);
                }
            }
            assert forall|a: int, b: int| 0 <= a < b < w.len() implies ahead(
                side,
                #[trigger] w[a].0.units(),
                #[trigger] w[b].0.units(),
            ) by {
                if b < i {
                    assert(w[a] == v[a] && w[b] == v[b]);
                } else if a < i {
                    assert(w[a] == v[a] && w[b] == v[b + 1]);
                } else {
                    assert(w[a] == v[a + 1] && w[b] == v[b + 1]);
                }
            }
        }
    }
}

/// The book: bids best (highest) price first, asks best (lowest) price first,
/// and the ledger of every trade made so far.
pub struct OrderBook {
    pub bids: Vec<PriceLevel>,
    pub asks: Vec<PriceLevel>,
    pub trades: Vec<Trade>,
}

pub open spec fn opposite(side: Side) -> Side {
    match side {
        Side::Buy => Side::Sell,
        Side::Sell => Side::Buy,
    }
}

/// A text read as a decimal of this library.
pub open spec fn parsed(text: String) -> Option<Dec> {
    dec_from_parts(decimal_parse(text@))
}

/// The side a CREATE names, if it names one.
pub open spec fn create_side(o: Order) -> Option<Side> {
    if o.side@ == "BUY"@ {
        Some(Side::Buy)
    } else if o.side@ == "SELL"@ {
        Some(Side::Sell)
    } else {
        None
    }
}

/// The side a DELETE looks in: bids for BUY, asks for anything else.
pub open spec fn delete_side(o: Order) -> Side {
    if o.side@ == "BUY"@ {
        Side::Buy
    } else {
        Side::Sell
    }
}

/// What rests of an incoming order when `amount` of it is left.
pub open spec fn resting_of(o: Order, amount: Dec) -> RestingOrder {
    RestingOrder {
        order_id: o.order_id,
        account_id: o.account_id,
        pair: o.pair,
        amount: amount,
        timestamp: o.timestamp,
    }
}

/// What an incoming order on `side` does to the book: it sweeps the other side,
/// and what is left of it, if anything, rests on its own side.
pub open spec fn create_effect(
    before: OrderBook,
    after: OrderBook,
    order: Order,
    side: Side,
    limit: Dec,
    amount: Dec,
    ts: Seq<Trade>,
) -> bool {
    let s = sweep(queue(before.side_view(opposite(side))), opposite(side), limit.units(), amount);
    &&& queue(after.side_view(opposite(side))) == s.0
    &&& trades_record(ts, order, s.1)
    &&& after.side_view(side) == (if s.2.units() > 0 {
        placed(before.side_view(side), side, limit, resting_of(order, s.2))
    } else {
        before.side_view(side)
    })
}

/// Why a CREATE is turned away, checked in this order: its amount, its price,
/// the sign of its amount.
pub open spec fn create_error(o: Order) -> Option<OrderError> {
    if parsed(o.amount) is None {
        Some(OrderError::MalformedAmount)
    } else if parsed(o.limit_price) is None {
        Some(OrderError::MalformedPrice)
    } else if parsed(o.amount).unwrap().units() <= 0 {
        Some(OrderError::NonPositiveAmount)
    } else {
        None
    }
}

/// The levels of a side in the order a snapshot reports them: ascending price.
pub open spec fn report_order(v: Seq<LevelView>, side: Side) -> Seq<LevelView> {
    match side {
        Side::Buy => v.reverse(),
        Side::Sell => v,
    }
}

pub open spec fn side_text(side: Side) -> Seq<char> {
    match side {
        Side::Buy => "BUY"@,
        Side::Sell => "SELL"@,
    }
}

/// A snapshot entry reports one resting order with the price of its level.
pub open spec fn entry_of(e: OrderBookEntry, side: Side, row: Entry) -> bool {
    &&& e.order_id@ == row.1.order_id@
    &&& e.account_id@ == row.1.account_id@
    &&& e.pair@ == row.1.pair@
    &&& e.side@ == side_text(side)
    &&& e.amount@ == decimal_text(row.1.amount.mantissa, row.1.amount.scale)
    &&& e.price@ == decimal_text(row.0.mantissa, row.0.scale)
    &&& e.timestamp == row.1.timestamp
}

pub open spec fn entries_of(es: Seq<OrderBookEntry>, side: Side, rows: Seq<Entry>) -> bool {
    &&& es.len() == rows.len()
    &&& forall|k: int| 0 <= k < es.len() ==> entry_of(#[trigger] es[k], side, rows[k])
}

pub open spec fn not_crossed(bids: Seq<LevelView>, asks: Seq<LevelView>) -> bool {
    bids.len() > 0 && asks.len() > 0 ==> bids[0].0.units() < asks[0].0.units()
}

/// Whether an order resting at `p` on `side` would face an eligible order of
/// the other side.
pub open spec fn crosses(book: OrderBook, side: Side, p: int) -> bool {
    let other = book.side_view(opposite(side));
    other.len() > 0 && reachable(opposite(side), other[0].0.units(), p)
}

/// Whether a text reads exactly as a literal.
fn text_is(s: &String, lit: &str) -> (r: bool)
    ensures
        r == (s@ == lit@),
{
    let t = lit.to_owned();
    *s == t
}

fn copy_trade(t: &Trade) -> (r: Trade)
    ensures
        r == *t,
{
    Trade {
        trade_id: t.trade_id.clone(),
        taker_order_id: t.taker_order_id.clone(),
        maker_order_id: t.maker_order_id.clone(),
        pair: t.pair.clone(),
        price: t.price.clone(),
        amount: t.amount.clone(),
        timestamp: t.timestamp,
    }
}

impl OrderBook {
    pub open spec fn side_view(self, side: Side) -> Seq<LevelView> {
        match side {
            Side::Buy => view_levels(self.bids@),
            Side::Sell => view_levels(self.asks@),
        }
    }

    /// The bids as a snapshot reports them.
    pub open spec fn bid_rows(self) -> Seq<Entry> {
        queue(report_order(self.side_view(Side::Buy), Side::Buy))
    }

    /// The asks as a snapshot reports them.
    pub open spec fn ask_rows(self) -> Seq<Entry> {
        queue(report_order(self.side_view(Side::Sell), Side::Sell))
    }

    /// Both sides are well formed, and the best bid is below the best ask.
    pub open spec fn wf(self) -> bool {
        &&& levels_wf(self.side_view(Side::Buy), Side::Buy)
        &&& levels_wf(self.side_view(Side::Sell), Side::Sell)
        &&& not_crossed(self.side_view(Side::Buy), self.side_view(Side::Sell))
    }

    /// An empty book with an empty ledger.
    pub fn new() -> (r: OrderBook)
        ensures
            r.wf(),
            r.side_view(Side::Buy).len() == 0,
            r.side_view(Side::Sell).len() == 0,
            r.trades@.len() == 0,
    {
        OrderBook { bids: Vec::new(), asks: Vec::new(), trades: Vec::new() }
    }

    /// Matches an incoming buy order against the asks, lowest price first.
    pub fn match_buy_order(&mut self, order: &Order, limit: Dec, amount: Dec) -> (r: (
        Vec<Trade>,
        Dec,
    ))
        requires
            old(self).wf(),
            limit.wf(),
            amount.wf(),
        ensures
            final(self).wf(),
            r.1.wf(),
            final(self).trades == old(self).trades,
            final(self).bids == old(self).bids,
            r.1.units() > 0 ==> !crosses(*final(self), Side::Buy, limit.units()),
            ({
                let s = sweep(queue(old(self).side_view(Side::Sell)), Side::Sell, limit.units(), amount);
                &&& queue(final(self).side_view(Side::Sell)) == s.0
                &&& r.1 == s.2
                &&& trades_record(r.0@, *order, s.1)
            }),
    {
        let ghost before = *self;
        let r = sweep_levels(&mut self.asks, Side::Sell, limit, amount, order);
        proof {
            lemma_sweep_best(
                before.side_view(Side::Sell),
                self.side_view(Side::Sell),
                Side::Sell,
                limit.units(),
                amount,
            );
        }
        r
    }

    /// Matches an incoming sell order against the bids, highest price first.
    pub fn match_sell_order(&mut self, order: &Order, limit: Dec, amount: Dec) -> (r: (
        Vec<Trade>,
        Dec,
    ))
        requires
            old(self).wf(),
            limit.wf(),
            amount.wf(),
        ensures
            final(self).wf(),
            r.1.wf(),
            final(self).trades == old(self).trades,
            final(self).asks == old(self).asks,
            r.1.units() > 0 ==> !crosses(*final(self), Side::Sell, limit.units()),
            ({
                let s = sweep(queue(old(self).side_view(Side::Buy)), Side::Buy, limit.units(), amount);
                &&& queue(final(self).side_view(Side::Buy)) == s.0
                &&& r.1 == s.2
                &&& trades_record(r.0@, *order, s.1)
            }),
    {
        let ghost before = *self;
        let r = sweep_levels(&mut self.bids, Side::Buy, limit, amount, order);
        proof {
            lemma_sweep_best(
                before.side_view(Side::Buy),
                self.side_view(Side::Buy),
                Side::Buy,
                limit.units(),
                amount,
            );
        }
        r
    }

    /// Rests an order on `side` at `price`, behind the orders already there.
    pub fn add_order(&mut self, side: Side, price: Dec, order: RestingOrder)
        requires
            old(self).wf(),
            price.wf(),
            resting_wf(order),
            !crosses(*old(self), side, price.units()),
        ensures
            final(self).wf(),
            final(self).trades == old(self).trades,
            final(self).side_view(side) == placed(old(self).side_view(side), side, price, order),
            final(self).side_view(opposite(side)) == old(self).side_view(opposite(side)),
    {
        let ghost before = *self;
        match side {
            Side::Buy => insert_order(&mut self.bids, Side::Buy, price, order),
            Side::Sell => insert_order(&mut self.asks, Side::Sell, price, order),
        }
        proof {
            lemma_placed_best(before.side_view(side), side, price, order);
        }
    }

    /// Takes the order named by a DELETE out of the book; one that is not there
    /// is no error. Fails, changing nothing, when the price is malformed.
    pub fn remove_order(&mut self, order: &Order) -> (r: Result<(), OrderError>)
        requires
            old(self).wf(),
        ensures
            final(self).wf(),
            final(self).trades == old(self).trades,
            r is Err <==> parsed(order.limit_price) is None,
            r is Err ==> r == Err::<(), OrderError>(OrderError::MalformedPrice) && *final(self)
                == *old(self),
            r is Ok ==> ({
                let side = delete_side(*order);
                &&& final(self).side_view(side) == removed(
                    old(self).side_view(side),
                    parsed(order.limit_price).unwrap().units(),
                    order.order_id@,
                )
                &&& final(self).side_view(opposite(side)) == old(self).side_view(opposite(side))
            }),
    {
        let price = match Dec::parse(order.limit_price.as_str()) {
            Some(p) => p,
            None => return Err(OrderError::MalformedPrice),
        };
        let ghost before = *self;
        if text_is(&order.side, "BUY") {
            remove_from_levels(&mut self.bids, Side::Buy, price, &order.order_id);
            proof {
                lemma_removed_best(before.side_view(Side::Buy), Side::Buy, price.units(), order.order_id@);
            }
        } else {
            remove_from_levels(&mut self.asks, Side::Sell, price, &order.order_id);
            proof {
                lemma_removed_best(before.side_view(Side::Sell), Side::Sell, price.units(), order.order_id@);
            }
        }
        Ok(())
    }

    /// What of an incoming order is left to rest, once `remaining` of it is unmatched.
    pub fn get_remaining_order(order: &Order, remaining: Dec) -> (r: Option<RestingOrder>)
        requires
            remaining.wf(),
        ensures
            r == (if remaining.units() > 0 {
                Some(resting_of(*order, remaining))
            } else {
                None
            }),
    {
        if remaining.is_positive() {
            Some(
                RestingOrder {
                    order_id: order.order_id.clone(),
                    account_id: order.account_id.clone(),
                    pair: order.pair.clone(),
                    amount: remaining,
                    timestamp: order.timestamp,
                },
            )
        } else {
            None
        }
    }

    /// Appends trades to the ledger.
    fn record_trades(&mut self, trades: &Vec<Trade>)
        ensures
            final(self).trades@ == old(self).trades@ + trades@,
            final(self).bids == old(self).bids,
            final(self).asks == old(self).asks,
    {
        let ghost before = self.trades@;
        let mut k: usize = 0;
        while k < trades.len()
            invariant
                k <= trades.len(),
                self.trades@ == before + trades@.subrange(0, k as int),
                self.bids == old(self).bids,
                self.asks == old(self).asks,
            decreases trades.len() - k,
        {
            self.trades.push(copy_trade(&trades[k]));
            proof {
                assert(trades@.subrange(0, k + 1) =~= trades@.subrange(0, k as int).push(trades@[k as int]));
            }
            k = k + 1;
        }
        proof {
            assert(trades@.subrange(0, k as int) =~= trades@);
        }
    }

    /// Carries out one instruction and returns the trades it made, which the
    /// ledger also records. A turned-away instruction changes nothing.
    pub fn process_order(&mut self, order: Order) -> (r: Result<Vec<Trade>, OrderError>)
        requires
            old(self).wf(),
        ensures
            final(self).wf(),
            final(self).trades@ == old(self).trades@ + (match r {
                Ok(ts) => ts@,
                Err(_) => Seq::<Trade>::empty(),
            }),
            r is Err ==> final(self).bids == old(self).bids && final(self).asks == old(self).asks,
            order.type_op@ != "CREATE"@ && order.type_op@ != "DELETE"@ ==> r == Err::<
                Vec<Trade>,
                OrderError,
            >(OrderError::UnknownOperation),
            order.type_op@ == "DELETE"@ ==> ({
                let side = delete_side(order);
                &&& r is Err <==> parsed(order.limit_price) is None
                &&& r is Err ==> r == Err::<Vec<Trade>, OrderError>(OrderError::MalformedPrice)
                &&& r is Ok ==> r->Ok_0@.len() == 0 && final(self).side_view(side) == removed(
                    old(self).side_view(side),
                    parsed(order.limit_price).unwrap().units(),
                    order.order_id@,
                ) && final(self).side_view(opposite(side)) == old(self).side_view(opposite(side))
            }),
            order.type_op@ == "CREATE"@ && create_side(order) is None ==> r is Ok && r->Ok_0@.len()
                == 0 && final(self).bids == old(self).bids && final(self).asks == old(self).asks,
            order.type_op@ == "CREATE"@ && create_side(order) is Some && create_error(order) is Some
                ==> r == Err::<Vec<Trade>, OrderError>(create_error(order).unwrap()),
            order.type_op@ == "CREATE"@ && create_side(order) is Some && create_error(order) is None
                ==> r is Ok && create_effect(
                *old(self),
                *final(self),
                order,
                create_side(order).unwrap(),
                parsed(order.limit_price).unwrap(),
                parsed(order.amount).unwrap(),
                r->Ok_0@,
            ),
    {
        proof {
            reveal_strlit("CREATE");
            reveal_strlit("DELETE");
            assert("CREATE"@[0] != "DELETE"@[0]);
        }
        if text_is(&order.type_op, "CREATE") {
            let side = if text_is(&order.side, "BUY") {
                Side::Buy
            } else if text_is(&order.side, "SELL") {
                Side::Sell
            } else {
                return Ok(Vec::new());
            };
            let amount = match Dec::parse(order.amount.as_str()) {
                Some(a) => a,
                None => return Err(OrderError::MalformedAmount),
            };
            let limit = match Dec::parse(order.limit_price.as_str()) {
                Some(p) => p,
                None => return Err(OrderError::MalformedPrice),
            };
            if !amount.is_positive() {
                return Err(OrderError::NonPositiveAmount);
            }
            let (trades, remaining) = match side {
                Side::Buy => self.match_buy_order(&order, limit, amount),
                Side::Sell => self.match_sell_order(&order, limit, amount),
            };
            match Self::get_remaining_order(&order, remaining) {
                Some(rest) => self.add_order(side, limit, rest),
                None => {},
            }
            self.record_trades(&trades);
            Ok(trades)
        } else if text_is(&order.type_op, "DELETE") {
            match self.remove_order(&order) {
                Ok(()) => Ok(Vec::new()),
                Err(e) => Err(e),
            }
        } else {
            Err(OrderError::UnknownOperation)
        }
    }

    /// Appends an entry for each resting order of one side, in ascending price
    /// and, within a price, in order of arrival.
    fn report_side(levels: &Vec<PriceLevel>, side: Side, out: &mut Vec<OrderBookEntry>)
        requires
            levels_wf(view_levels(levels@), side),
        ensures
            final(out)@.subrange(0, old(out)@.len() as int) == old(out)@,
            final(out)@.len() >= old(out)@.len(),
            entries_of(
                final(out)@.subrange(old(out)@.len() as int, final(out)@.len() as int),
                side,
                queue(report_order(view_levels(levels@), side)),
            ),
    {
        let ghost v = view_levels(levels@);
        let ghost ov = report_order(v, side);
        let ghost base = out@.len() as int;
        let ghost start = out@;
        let n = levels.len();
        let mut idx: usize = 0;
        let side_label = match side {
            Side::Buy => "BUY",
            Side::Sell => "SELL",
        };
        proof {
            reveal_strlit("BUY");
            reveal_strlit("SELL");
            assert(ov.len() == n);
            assert(v.take(0) =~= Seq::<LevelView>::empty());
            assert(ov.take(0) =~= Seq::<LevelView>::empty());
            assert(out@.subrange(base, out@.len() as int) =~= Seq::<OrderBookEntry>::empty());
        }
        while idx < n
            invariant
                n == levels.len(),
                v == view_levels(levels@),
                ov == report_order(v, side),
                ov.len() == n,
                levels_wf(v, side),
                idx <= n,
                side_label@ == side_text(side),
                out@.len() >= base,
                base == start.len(),
                out@.subrange(0, base) == start,
                entries_of(out@.subrange(base, out@.len() as int), side, queue(ov.take(idx as int))),
            decreases n - idx,
        {
            let li: usize = match side {
                Side::Buy => n - 1 - idx,
                Side::Sell => idx,
            };
            let level = &levels[li];
            proof {
                lemma_view_index(levels@, li as int);
                assert(ov[idx as int] == v[li as int]);
                assert(ov.take(idx + 1).drop_last() =~= ov.take(idx as int));
                assert(ov.take(idx + 1).last() == ov[idx as int]);
            }
            let ghost done = out@.len() as int;
            let mut j: usize = 0;
            while j < level.orders.len()
                invariant
                    j <= level.orders.len(),
                    idx < ov.len(),
                    level_view(*level) == ov[idx as int],
                    level_wf(level_view(*level)),
                    out@.len() >= done,
                    done >= base,
                    base == start.len(),
                    out@.subrange(0, base) == start,
                    side_label@ == side_text(side),
                    entries_of(
                        out@.subrange(base, out@.len() as int),
                        side,
                        queue(ov.take(idx as int)) + tag(ov[idx as int]).take(j as int),
                    ),
                decreases level.orders.len() - j,
            {
                let o = &level.orders[j];
                let e = OrderBookEntry {
                    order_id: o.order_id.clone(),
                    account_id: o.account_id.clone(),
                    pair: o.pair.clone(),
                    side: side_label.to_owned(),
                    amount: o.amount_text(),
                    price: level.price.to_text(),
                    timestamp: o.timestamp,
                };
                let ghost prev = out@;
                out.push(e);
                proof {
                    let rows = queue(ov.take(idx as int)) + tag(ov[idx as int]).take(j as int);
                    let rows2 = queue(ov.take(idx as int)) + tag(ov[idx as int]).take(j + 1);
                    assert(rows2 =~= rows.push((level.price, *o)));
                    assert(out@.subrange(base, out@.len() as int) =~= prev.subrange(base, prev.len() as int).push(e));
                    assert(out@.subrange(0, base) =~= prev.subrange(0, base));
                }
                j = j + 1;
            }
            proof {
                assert(tag(ov[idx as int]).take(j as int) =~= tag(ov[idx as int]));
            }
            idx = idx + 1;
        }
        proof {
            assert(ov.take(n as int) =~= ov);
        }
    }

    /// Every resting order, bids first and then asks, each side in ascending
    /// price and, within a price, in order of arrival. Changes nothing.
    pub fn generate_order_book_output(&self) -> (r: Vec<OrderBookEntry>)
        requires
            self.wf(),
        ensures
            r@.len() == self.bid_rows().len() + self.ask_rows().len(),
            entries_of(r@.subrange(0, self.bid_rows().len() as int), Side::Buy, self.bid_rows()),
            entries_of(
                r@.subrange(self.bid_rows().len() as int, r@.len() as int),
                Side::Sell,
                self.ask_rows(),
            ),
    {
        let mut out: Vec<OrderBookEntry> = Vec::new();
        Self::report_side(&self.bids, Side::Buy, &mut out);
        let ghost mid = out@;
        Self::report_side(&self.asks, Side::Sell, &mut out);
        proof {
            assert(out@.subrange(0, 0) =~= Seq::<OrderBookEntry>::empty());
            assert(mid.subrange(0, mid.len() as int) =~= mid);
            assert(out@.subrange(0, mid.len() as int).subrange(0, mid.len() as int) =~= out@.subrange(0, mid.len() as int));
        }
        out
    }
}

} // verus!
