//! Laws of matching, removal and reporting, proved over the models that the
//! operations' contracts use.
use crate::book::{
    ahead, entries_of, entry_of, has_level, keeps, level_index, level_wf, levels_wf, queue, reachable,
    removed, resting_wf, sweep, trade_amount, with_amount, Entry, Fill, LevelView, OrderBook,
    OrderBookEntry, RestingOrder, Side, placed, insert_point, is_insert_point,
};
use crate::decimal::{lemma_sub_exact, Dec};
use vstd::prelude::*;

verus! {

/// The position in the queue of a side of order `a` of level `i`.
pub open spec fn pos(v: Seq<LevelView>, i: int, a: int) -> int {
    queue(v.take(i)).len() + a
}

/// The total amount of a sequence of fills, in 10^-18 units.
pub open spec fn filled_units(fills: Seq<Fill>) -> int
    decreases fills.len(),
{
    if fills.len() == 0 {
        0
    } else {
        fills[0].2.units() + filled_units(fills.drop_first())
    }
}

/// Order `a` of level `i` stands in the queue at its position, with its level's price.
pub proof fn lemma_queue_index(v: Seq<LevelView>, i: int, a: int)
    requires
        0 <= i < v.len(),
        0 <= a < v[i].1.len(),
    ensures
        0 <= pos(v, i, a) < queue(v).len(),
        queue(v)[pos(v, i, a)] == (v[i].0, v[i].1[a]),
    decreases v.len(),
{
    let w = v.drop_last();
    if i == v.len() - 1 {
        assert(v.take(i) =~= w);
    } else {
        lemma_queue_index(w, i, a);
        assert(w.take(i) =~= v.take(i));
    }
}

/// Every entry of the queue is an order of some level, with that level's price.
pub proof fn lemma_queue_entry(v: Seq<LevelView>, k: int)
    requires
        0 <= k < queue(v).len(),
    ensures
        exists|i: int, a: int|
            0 <= i < v.len() && 0 <= a < v[i].1.len() && queue(v)[k] == (v[i].0, v[i].1[a]),
    decreases v.len(),
{
    let w = v.drop_last();
    let qw = queue(w);
    if k < qw.len() {
        lemma_queue_entry(w, k);
        let (i, a) = choose|i: int, a: int|
            0 <= i < w.len() && 0 <= a < w[i].1.len() && qw[k] == (w[i].0, w[i].1[a]);
        assert(queue(v)[k] == (v[i].0, v[i].1[a]));
    } else {
        let a = k - qw.len();
        assert(queue(v)[k] == (v[v.len() - 1].0, v[v.len() - 1].1[a]));
    }
}

/// On a well-formed side, the queue runs from the best price to the worst, and
/// every entry is a well-formed resting order at a well-formed price.
pub proof fn lemma_queue_sorted(v: Seq<LevelView>, side: Side)
    requires
        levels_wf(v, side),
    ensures
        forall|k: int| 0 <= k < queue(v).len() ==> (#[trigger] queue(v)[k]).0.wf() && resting_wf(
            queue(v)[k].1,
        ),
        forall|k1: int, k2: int|
            0 <= k1 < k2 < queue(v).len() ==> (#[trigger] queue(v)[k1]).0.units() == (
            #[trigger] queue(v)[k2]).0.units() || ahead(
                side,
                queue(v)[k1].0.units(),
                queue(v)[k2].0.units(),
            ),
    decreases v.len(),
{
    let q = queue(v);
    assert forall|k: int| 0 <= k < q.len() implies (#[trigger] q[k]).0.wf() && resting_wf(q[k].1) by {
        lemma_queue_entry(v, k);
        let (i, a) = choose|i: int, a: int|
            0 <= i < v.len() && 0 <= a < v[i].1.len() && q[k] == (v[i].0, v[i].1[a]);
        assert(level_wf(v[i]));
    }
    if v.len() > 0 {
        let w = v.drop_last();
        assert(levels_wf(w, side)) by {
            assert forall|i: int| 0 <= i < w.len() implies level_wf(#[trigger] w[i]) by {
                assert(w[i] == v[i]);
            }
            assert forall|i: int, j: int| 0 <= i < j < w.len() implies ahead(
                side,
                #[trigger] w[i].0.units(),
                #[trigger] w[j].0.units(),
            ) by {
                assert(w[i] == v[i] && w[j] == v[j]);
            }
        }
        lemma_queue_sorted(w, side);
        let qw = queue(w);
        let last = v.len() - 1;
        assert forall|k1: int, k2: int| 0 <= k1 < k2 < q.len() implies (#[trigger] q[k1]).0.units() == (
        #[trigger] q[k2]).0.units() || ahead(side, q[k1].0.units(), q[k2].0.units()) by {
            if k2 < qw.len() {
                assert(q[k1] == qw[k1] && q[k2] == qw[k2]);
            } else if k1 >= qw.len() {
                assert(q[k1].0 == v[last].0 && q[k2].0 == v[last].0);
            } else {
                lemma_queue_entry(w, k1);
                let (i, a) = choose|i: int, a: int|
                    0 <= i < w.len() && 0 <= a < w[i].1.len() && qw[k1] == (w[i].0, w[i].1[a]);
                assert(q[k1] == qw[k1]);
                assert(q[k2].0 == v[last].0);
                assert(ahead(side, v[i].0.units(), v[last].0.units()));
            }
        }
    }
}

/// Matching takes the queue from the front: the i-th fill is of the i-th entry,
/// at that entry's price.
pub proof fn lemma_sweep_follows_queue(q: Seq<Entry>, side: Side, limit: int, rem: Dec)
    ensures
        ({
            let s = sweep(q, side, limit, rem);
            &&& s.1.len() <= q.len()
            &&& forall|i: int|
                0 <= i < s.1.len() ==> (#[trigger] s.1[i]).0 == q[i].1.order_id@ && s.1[i].1
                    == q[i].0
        }),
    decreases q.len(),
{
    if !(rem.units() <= 0 || q.len() == 0 || !reachable(side, q[0].0.units(), limit)) {
        let o = q[0].1;
        let t = trade_amount(rem, o.amount);
        if t.units() == o.amount.units() {
            let rest = q.drop_first();
            lemma_sweep_follows_queue(rest, side, limit, rem.spec_sub(t));
            let r = sweep(rest, side, limit, rem.spec_sub(t));
            let s = sweep(q, side, limit, rem);
            assert forall|i: int| 0 <= i < s.1.len() implies (#[trigger] s.1[i]).0 == q[i].1.order_id@
                && s.1[i].1 == q[i].0 by {
                if i > 0 {
                    assert(s.1[i] == r.1[i - 1]);
                }
            }
        }
    }
}

/// Price priority: an incoming order trades first at the best price of the
/// other side, and never at a price behind one it has yet to reach; an order
/// that can trade does, when the best price is eligible.
pub proof fn lemma_price_priority(v: Seq<LevelView>, side: Side, limit: int, amount: Dec)
    requires
        levels_wf(v, side),
        amount.units() > 0,
    ensures
        ({
            let s = sweep(queue(v), side, limit, amount);
            &&& s.1.len() > 0 <==> v.len() > 0 && reachable(side, v[0].0.units(), limit)
            &&& s.1.len() > 0 ==> s.1[0].1 == v[0].0 && forall|j: int|
                0 < j < v.len() ==> ahead(side, s.1[0].1.units(), #[trigger] v[j].0.units())
            &&& forall|i: int, j: int|
                0 <= i < j < s.1.len() ==> (#[trigger] s.1[i]).1.units() == (#[trigger] s.1[j]).1.units()
                    || ahead(side, s.1[i].1.units(), s.1[j].1.units())
            &&& forall|i: int| 0 <= i < s.1.len() ==> reachable(side, (#[trigger] s.1[i]).1.units(), limit)
        }),
{
    let q = queue(v);
    let s = sweep(q, side, limit, amount);
    lemma_sweep_follows_queue(q, side, limit, amount);
    lemma_queue_sorted(v, side);
    if v.len() > 0 {
        assert(level_wf(v[0]));
        lemma_queue_index(v, 0, 0);
        assert(v.take(0) =~= Seq::<LevelView>::empty());
        assert(queue(v.take(0)) =~= Seq::<Entry>::empty());
        assert(q[0] == (v[0].0, v[0].1[0]));
    } else {
        assert(q =~= Seq::<Entry>::empty());
    }
    assert forall|i: int, j: int| 0 <= i < j < s.1.len() implies (#[trigger] s.1[i]).1.units() == (
    #[trigger] s.1[j]).1.units() || ahead(side, s.1[i].1.units(), s.1[j].1.units()) by {
        assert(q[i].0 == s.1[i].1 && q[j].0 == s.1[j].1);
    }
    lemma_sweep_reachable(q, side, limit, amount);
}

proof fn lemma_sweep_reachable(q: Seq<Entry>, side: Side, limit: int, rem: Dec)
    ensures
        forall|i: int|
            0 <= i < sweep(q, side, limit, rem).1.len() ==> reachable(
                side,
                (#[trigger] sweep(q, side, limit, rem).1[i]).1.units(),
                limit,
            ),
    decreases q.len(),
{
    if !(rem.units() <= 0 || q.len() == 0 || !reachable(side, q[0].0.units(), limit)) {
        let o = q[0].1;
        let t = trade_amount(rem, o.amount);
        if t.units() == o.amount.units() {
            let rest = q.drop_first();
            lemma_sweep_reachable(rest, side, limit, rem.spec_sub(t));
            let r = sweep(rest, side, limit, rem.spec_sub(t));
            let s = sweep(q, side, limit, rem);
            assert forall|i: int| 0 <= i < s.1.len() implies reachable(side, (#[trigger] s.1[i]).1.units(), limit) by {
                if i > 0 {
                    assert(s.1[i] == r.1[i - 1]);
                }
            }
        }
    }
}

/// Every fill but the last uses up the maker it is made against.
pub proof fn lemma_sweep_full_before_last(q: Seq<Entry>, side: Side, limit: int, rem: Dec)
    ensures
        forall|k: int|
            0 <= k < sweep(q, side, limit, rem).1.len() - 1 ==> (#[trigger] sweep(
                q,
                side,
                limit,
                rem,
            ).1[k]).2.units() == q[k].1.amount.units(),
    decreases q.len(),
{
    if !(rem.units() <= 0 || q.len() == 0 || !reachable(side, q[0].0.units(), limit)) {
        let o = q[0].1;
        let t = trade_amount(rem, o.amount);
        if t.units() == o.amount.units() {
            let rest = q.drop_first();
            lemma_sweep_full_before_last(rest, side, limit, rem.spec_sub(t));
            lemma_sweep_follows_queue(rest, side, limit, rem.spec_sub(t));
            let r = sweep(rest, side, limit, rem.spec_sub(t));
            let s = sweep(q, side, limit, rem);
            assert forall|k: int| 0 <= k < s.1.len() - 1 implies (#[trigger] s.1[k]).2.units()
                == q[k].1.amount.units() by {
                if k > 0 {
                    assert(s.1[k] == r.1[k - 1]);
                    assert(rest[k - 1] == q[k]);
                }
            }
        }
    }
}

/// Time priority: of two orders resting at one price, the earlier stands ahead
/// in the queue, and an incoming order that reaches the later one has first
/// filled the earlier one in full.
pub proof fn lemma_time_priority(v: Seq<LevelView>, side: Side, limit: int, amount: Dec, i: int, a: int, b: int)
    requires
        levels_wf(v, side),
        0 <= i < v.len(),
        0 <= a < b < v[i].1.len(),
    ensures
        pos(v, i, a) < pos(v, i, b),
        ({
            let s = sweep(queue(v), side, limit, amount);
            pos(v, i, b) < s.1.len() ==> s.1[pos(v, i, a)].0 == v[i].1[a].order_id@ && s.1[pos(
                v,
                i,
                b,
            )].0 == v[i].1[b].order_id@ && s.1[pos(v, i, a)].2.units() == v[i].1[a].amount.units()
        }),
{
    lemma_queue_index(v, i, a);
    lemma_queue_index(v, i, b);
    lemma_sweep_follows_queue(queue(v), side, limit, amount);
    lemma_sweep_full_before_last(queue(v), side, limit, amount);
}

/// Partial and full fills: the amount traded is the smaller of what the taker
/// has left and what the maker rests with; a maker that is not used up stays at
/// the front with its amount reduced by exactly that; one that is used up
/// leaves the queue, and matching goes on with the rest.
pub proof fn lemma_fill_step(q: Seq<Entry>, side: Side, limit: int, rem: Dec)
    requires
        rem.wf(),
        rem.units() > 0,
        q.len() > 0,
        resting_wf(q[0].1),
        reachable(side, q[0].0.units(), limit),
    ensures
        ({
            let s = sweep(q, side, limit, rem);
            let m = q[0].1.amount;
            let t = s.1[0].2;
            &&& s.1.len() > 0
            &&& t == trade_amount(rem, m)
            &&& t.units() == (if rem.units() <= m.units() { rem.units() } else { m.units() })
            &&& t.units() < m.units() ==> s.0[0].1.amount.units() == m.units() - t.units() && s.0[0]
                == (q[0].0, with_amount(q[0].1, m.spec_sub(t))) && resting_wf(s.0[0].1) && s.0.len()
                == q.len()
            &&& t.units() == m.units() ==> s.0 == sweep(
                q.drop_first(),
                side,
                limit,
                rem.spec_sub(t),
            ).0
        }),
{
    let m = q[0].1.amount;
    let t = trade_amount(rem, m);
    if t.units() < m.units() {
        lemma_sub_exact(m, t);
    }
}

/// Conservation: what an incoming order trades plus what is left of it is
/// exactly its amount.
pub proof fn lemma_conservation(q: Seq<Entry>, side: Side, limit: int, rem: Dec)
    requires
        rem.wf(),
        rem.units() >= 0,
        forall|k: int| 0 <= k < q.len() ==> resting_wf(#[trigger] q[k].1),
    ensures
        filled_units(sweep(q, side, limit, rem).1) + sweep(q, side, limit, rem).2.units()
            == rem.units(),
        sweep(q, side, limit, rem).2.wf(),
        sweep(q, side, limit, rem).2.units() >= 0,
    decreases q.len(),
{
    if !(rem.units() <= 0 || q.len() == 0 || !reachable(side, q[0].0.units(), limit)) {
        let o = q[0].1;
        assert(resting_wf(q[0].1));
        let t = trade_amount(rem, o.amount);
        lemma_sub_exact(rem, t);
        let s = sweep(q, side, limit, rem);
        if t.units() == o.amount.units() {
            let rest = q.drop_first();
            assert forall|k: int| 0 <= k < rest.len() implies resting_wf(#[trigger] rest[k].1) by {
                assert(rest[k] == q[k + 1]);
            }
            lemma_conservation(rest, side, limit, rem.spec_sub(t));
            let r = sweep(rest, side, limit, rem.spec_sub(t));
            assert(s.1.drop_first() =~= r.1);
            assert(s.1[0].2 == t);
        } else {
            assert(s.1.drop_first() =~= Seq::<Fill>::empty());
            assert(filled_units(s.1.drop_first()) == 0);
            assert(s.1[0].2 == t);
        }
    } else {
        assert(sweep(q, side, limit, rem).1 =~= Seq::<Fill>::empty());
    }
}

/// Deletion: after a removal, no order with that identifier rests at that price.
pub proof fn lemma_removed_absent(v: Seq<LevelView>, side: Side, p: int, id: Seq<char>)
    requires
        levels_wf(v, side),
    ensures
        forall|j: int, k: int|
            0 <= j < removed(v, p, id).len() && removed(v, p, id)[j].0.units() == p && 0 <= k
                < removed(v, p, id)[j].1.len() ==> (#[trigger] removed(v, p, id)[j].1[k]).order_id@
                != id,
{
    let w = removed(v, p, id);
    if has_level(v, p) {
        let i = level_index(v, p);
        let os = v[i].1.filter(keeps(id));
        assert forall|j: int, k: int|
            0 <= j < w.len() && w[j].0.units() == p && 0 <= k < w[j].1.len() implies (
            #[trigger] w[j].1[k]).order_id@ != id by {
            if os.len() == 0 {
                let jj = if j < i { j } else { j + 1 };
                assert(w[j] == v[jj]);
                if jj != i {
                    if jj < i {
                        assert(ahead(side, v[jj].0.units(), v[i].0.units()));
                    } else {
                        assert(ahead(side, v[i].0.units(), v[jj].0.units()));
                    }
                }
            } else if j == i {
                v[i].1.lemma_filter_pred(keeps(id), k);
            } else {
                assert(w[j] == v[j]);
                if j < i {
                    assert(ahead(side, v[j].0.units(), v[i].0.units()));
                } else {
                    assert(ahead(side, v[i].0.units(), v[j].0.units()));
                }
            }
        }
    }
}

/// An order that no longer rests on a side, such as one taken out by a DELETE,
/// is never the maker of a fill against that side.
pub proof fn lemma_absent_never_filled(q: Seq<Entry>, side: Side, limit: int, amount: Dec, id: Seq<char>)
    requires
        forall|k: int| 0 <= k < q.len() ==> (#[trigger] q[k]).1.order_id@ != id,
    ensures
        forall|i: int|
            0 <= i < sweep(q, side, limit, amount).1.len() ==> (#[trigger] sweep(
                q,
                side,
                limit,
                amount,
            ).1[i]).0 != id,
{
    lemma_sweep_follows_queue(q, side, limit, amount);
    let s = sweep(q, side, limit, amount);
    assert forall|i: int| 0 <= i < s.1.len() implies (#[trigger] s.1[i]).0 != id by {
        assert(q[i].1.order_id@ != id);
    }
}

/// The parts of a snapshot entry that can be compared.
pub open spec fn entry_view(e: OrderBookEntry) -> (Seq<char>, Seq<char>, Seq<char>, Seq<char>, Seq<char>, Seq<char>, u64) {
    (e.order_id@, e.account_id@, e.pair@, e.side@, e.amount@, e.price@, e.timestamp)
}

/// A snapshot is determined by the book: two snapshots of one book, such as
/// two calls with no instruction between them, are equal entry by entry.
pub proof fn lemma_snapshot_determined(book: OrderBook, r1: Seq<OrderBookEntry>, r2: Seq<OrderBookEntry>)
    requires
        r1.len() == book.bid_rows().len() + book.ask_rows().len(),
        entries_of(r1.subrange(0, book.bid_rows().len() as int), Side::Buy, book.bid_rows()),
        entries_of(r1.subrange(book.bid_rows().len() as int, r1.len() as int), Side::Sell, book.ask_rows()),
        r2.len() == book.bid_rows().len() + book.ask_rows().len(),
        entries_of(r2.subrange(0, book.bid_rows().len() as int), Side::Buy, book.bid_rows()),
        entries_of(r2.subrange(book.bid_rows().len() as int, r2.len() as int), Side::Sell, book.ask_rows()),
    ensures
        r1.len() == r2.len(),
        forall|k: int| 0 <= k < r1.len() ==> entry_view(#[trigger] r1[k]) == entry_view(r2[k]),
{
    let nb = book.bid_rows().len() as int;
    assert forall|k: int| 0 <= k < r1.len() implies entry_view(#[trigger] r1[k]) == entry_view(r2[k]) by {
        if k < nb {
            assert(r1.subrange(0, nb)[k] == r1[k] && r2.subrange(0, nb)[k] == r2[k]);
            assert(entry_of(r1.subrange(0, nb)[k], Side::Buy, book.bid_rows()[k]));
            assert(entry_of(r2.subrange(0, nb)[k], Side::Buy, book.bid_rows()[k]));
        } else {
            let n = r1.len() as int;
            assert(r1.subrange(nb, n)[k - nb] == r1[k] && r2.subrange(nb, n)[k - nb] == r2[k]);
            assert(entry_of(r1.subrange(nb, n)[k - nb], Side::Sell, book.ask_rows()[k - nb]));
            assert(entry_of(r2.subrange(nb, n)[k - nb], Side::Sell, book.ask_rows()[k - nb]));
        }
    }
}

proof fn lemma_sweep_suffix(q: Seq<Entry>, side: Side, limit: int, rem: Dec)
    ensures
        ({
            let s = sweep(q, side, limit, rem);
            &&& s.0.len() <= q.len()
            &&& forall|i: int|
                0 <= i < s.0.len() ==> (#[trigger] s.0[i]).0 == q[i + q.len() - s.0.len()].0
            &&& s.2.units() > 0 && s.0.len() > 0 ==> !reachable(side, s.0[0].0.units(), limit)
        }),
    decreases q.len(),
{
    if !(rem.units() <= 0 || q.len() == 0 || !reachable(side, q[0].0.units(), limit)) {
        let o = q[0].1;
        let t = trade_amount(rem, o.amount);
        if t.units() == o.amount.units() {
            let rest = q.drop_first();
            lemma_sweep_suffix(rest, side, limit, rem.spec_sub(t));
            let r = sweep(rest, side, limit, rem.spec_sub(t));
            assert forall|i: int| 0 <= i < r.0.len() implies (#[trigger] r.0[i]).0 == q[i + q.len()
                - r.0.len()].0 by {
                assert(rest[i + rest.len() - r.0.len()] == q[i + q.len() - r.0.len()]);
            }
        } else {
            assert(t == rem);
            assert(rem.spec_sub(rem).mantissa == 0);
        }
    }
}

proof fn lemma_queue_first(v: Seq<LevelView>, side: Side)
    requires
        levels_wf(v, side),
    ensures
        v.len() > 0 <==> queue(v).len() > 0,
        v.len() > 0 ==> queue(v)[0].0 == v[0].0,
{
    if v.len() > 0 {
        assert(level_wf(v[0]));
        lemma_queue_index(v, 0, 0);
        assert(v.take(0) =~= Seq::<LevelView>::empty());
        assert(queue(v.take(0)) =~= Seq::<Entry>::empty());
    } else {
        assert(queue(v) =~= Seq::<Entry>::empty());
    }
}

/// Matching only takes from the front of a side: its best price afterwards is
/// no better than before, and when the incoming order has some left, no level
/// that remains is eligible for it.
pub proof fn lemma_sweep_best(old_v: Seq<LevelView>, new_v: Seq<LevelView>, side: Side, limit: int, amount: Dec)
    requires
        levels_wf(old_v, side),
        levels_wf(new_v, side),
        queue(new_v) == sweep(queue(old_v), side, limit, amount).0,
    ensures
        new_v.len() > 0 ==> old_v.len() > 0 && (new_v[0].0.units() == old_v[0].0.units() || ahead(
            side,
            old_v[0].0.units(),
            new_v[0].0.units(),
        )),
        sweep(queue(old_v), side, limit, amount).2.units() > 0 && new_v.len() > 0 ==> !reachable(
            side,
            new_v[0].0.units(),
            limit,
        ),
{
    let q = queue(old_v);
    lemma_sweep_suffix(q, side, limit, amount);
    lemma_queue_first(old_v, side);
    lemma_queue_first(new_v, side);
    lemma_queue_sorted(old_v, side);
    if new_v.len() > 0 {
        let d = q.len() - queue(new_v).len();
        assert(queue(new_v)[0].0 == q[d].0);
        if d > 0 {
            assert(q[0].0.units() == q[d].0.units() || ahead(side, q[0].0.units(), q[d].0.units()));
        }
    }
}

/// An order joining a side leaves it non-empty, with its best price either the
/// old one or the order's own.
pub proof fn lemma_placed_best(v: Seq<LevelView>, side: Side, p: Dec, o: RestingOrder)
    requires
        is_insert_point(v, side, p.units(), insert_point(v, side, p.units())),
    ensures
        placed(v, side, p, o).len() > 0,
        placed(v, side, p, o)[0].0 == p || (v.len() > 0 && placed(v, side, p, o)[0].0 == v[0].0),
{
}

/// A removal leaves a side's best price as it was or behind it.
pub proof fn lemma_removed_best(v: Seq<LevelView>, side: Side, p: int, id: Seq<char>)
    requires
        levels_wf(v, side),
    ensures
        removed(v, p, id).len() > 0 ==> v.len() > 0 && (removed(v, p, id)[0].0 == v[0].0 || ahead(
            side,
            v[0].0.units(),
            removed(v, p, id)[0].0.units(),
        )),
{
    if has_level(v, p) {
        let i = level_index(v, p);
        if v.len() > 1 {
            assert(ahead(side, v[0].0.units(), v[1].0.units()));
        }
    }
}

/// No crossing: on a well-formed book every resting bid is below every resting ask.
pub proof fn lemma_no_crossing(book: OrderBook)
    requires
        book.wf(),
    ensures
        forall|i: int, j: int|
            0 <= i < book.side_view(Side::Buy).len() && 0 <= j < book.side_view(Side::Sell).len()
                ==> (#[trigger] book.side_view(Side::Buy)[i]).0.units() < (
            #[trigger] book.side_view(Side::Sell)[j]).0.units(),
{
    let b = book.side_view(Side::Buy);
    let a = book.side_view(Side::Sell);
    assert forall|i: int, j: int| 0 <= i < b.len() && 0 <= j < a.len() implies (
    #[trigger] b[i]).0.units() < (#[trigger] a[j]).0.units() by {
        if i > 0 {
            assert(ahead(Side::Buy, b[0].0.units(), b[i].0.units()));
        }
        if j > 0 {
            assert(ahead(Side::Sell, a[0].0.units(), a[j].0.units()));
        }
    }
}

} // verus!
