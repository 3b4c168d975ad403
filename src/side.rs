use vstd::prelude::*;
use crate::command::{event_id, events_below, OrderEvent};
use crate::level::{holds_id, position_of, Level, LevelView};
use crate::order::{Order, OrderType, Side};

verus! {

/// The other side of the book.
pub open spec fn opposite(side: Side) -> Side {
    match side {
        Side::Buy => Side::Sell,
        Side::Sell => Side::Buy,
    }
}

/// On `side`, a level at price `a` is served before one at price `b`:
/// higher bids first, lower asks first.
pub open spec fn ahead(side: Side, a: i32, b: i32) -> bool {
    match side {
        Side::Buy => a > b,
        Side::Sell => a < b,
    }
}

/// An order on `side` at `price` can trade against a level at `opposite_price`.
pub open spec fn crosses(side: Side, price: i32, opposite_price: i32) -> bool {
    match side {
        Side::Buy => price >= opposite_price,
        Side::Sell => price <= opposite_price,
    }
}

/// The levels of one side as mathematical values.
pub open spec fn side_view(levels: Seq<Level>) -> Seq<LevelView> {
    levels.map_values(|l: Level| l@)
}

/// An order that may rest in the level at `price` on `side`.
pub open spec fn resting_ok(o: Order, side: Side, price: i32) -> bool {
    &&& o.side == side
    &&& o.price == price
    &&& o.order_type == OrderType::GoodTilCancel
    &&& 0 < o.remaining_qty
    &&& o.wf()
}

/// A level is never empty and holds only orders of its own side and price.
pub open spec fn level_wf(l: LevelView, side: Side) -> bool {
    &&& l.orders.len() > 0
    &&& forall|j: int| 0 <= j < l.orders.len() ==> resting_ok(#[trigger] l.orders[j], side, l.price)
}

/// Levels are well formed and strictly ordered best first, so that no
/// price has two levels.
pub open spec fn side_wf(levels: Seq<LevelView>, side: Side) -> bool {
    &&& forall|i: int, j: int|
        0 <= i < j < levels.len() ==> ahead(side, #[trigger] levels[i].price, #[trigger] levels[j].price)
    &&& forall|i: int| 0 <= i < levels.len() ==> level_wf(#[trigger] levels[i], side)
}

/// Every order resting on the side has an id below `bound`.
pub open spec fn ids_below(levels: Seq<LevelView>, bound: usize) -> bool {
    forall|i: int, j: int|
        0 <= i < levels.len() && 0 <= j < levels[i].orders.len() ==> (#[trigger] levels[i].orders[j]).id
            < bound
}

/// Some order resting on `levels` has this id.
pub open spec fn rests_on(levels: Seq<LevelView>, id: usize) -> bool {
    exists|i: int, j: int|
        0 <= i < levels.len() && 0 <= j < levels[i].orders.len() && (#[trigger] levels[i].orders[j]).id
            == id
}

/// No two orders resting on the side share an id.
pub open spec fn ids_distinct(levels: Seq<LevelView>) -> bool {
    forall|i1: int, j1: int, i2: int, j2: int|
        0 <= i1 < levels.len() && 0 <= j1 < levels[i1].orders.len() && 0 <= i2 < levels.len() && 0
            <= j2 < levels[i2].orders.len() && (#[trigger] levels[i1].orders[j1]).id == (
        #[trigger] levels[i2].orders[j2]).id ==> i1 == i2 && j1 == j2
}

/// No order resting on `a` shares an id with an order resting on `b`.
pub open spec fn ids_apart(a: Seq<LevelView>, b: Seq<LevelView>) -> bool {
    forall|i1: int, j1: int, i2: int, j2: int|
        0 <= i1 < a.len() && 0 <= j1 < a[i1].orders.len() && 0 <= i2 < b.len() && 0 <= j2
            < b[i2].orders.len() ==> (#[trigger] a[i1].orders[j1]).id != (
        #[trigger] b[i2].orders[j2]).id
}

/// Every order resting on `a` has the id of an order resting on `b`, or the
/// id `extra`.
pub open spec fn ids_from(a: Seq<LevelView>, b: Seq<LevelView>, extra: usize) -> bool {
    forall|i: int, j: int|
        0 <= i < a.len() && 0 <= j < a[i].orders.len() ==> (#[trigger] a[i].orders[j]).id == extra
            || rests_on(b, a[i].orders[j].id)
}

/// Every order resting on `a` has the id of an order resting on `b`.
pub open spec fn ids_within(a: Seq<LevelView>, b: Seq<LevelView>) -> bool {
    forall|i: int, j: int|
        0 <= i < a.len() && 0 <= j < a[i].orders.len() ==> rests_on(b, (#[trigger] a[i].orders[j]).id)
}

/// Ids that all come from `b` come from `b` or any `extra`.
pub proof fn lemma_within_from(a: Seq<LevelView>, b: Seq<LevelView>, extra: usize)
    requires
        ids_within(a, b),
    ensures
        ids_from(a, b, extra),
{
}

/// A side whose ids all come from `b` holds no id that `b` lacks.
pub proof fn lemma_absent_within(a: Seq<LevelView>, b: Seq<LevelView>, id: usize)
    requires
        ids_within(a, b),
        !rests_on(b, id),
    ensures
        !rests_on(a, id),
{
    if rests_on(a, id) {
        let (i, j) = choose|i: int, j: int|
            0 <= i < a.len() && 0 <= j < a[i].orders.len() && (#[trigger] a[i].orders[j]).id == id;
        assert(rests_on(b, a[i].orders[j].id));
    }
}

/// A side whose ids all come from `b` stays apart from every side that `b`
/// is apart from.
pub proof fn lemma_apart_within(a: Seq<LevelView>, b: Seq<LevelView>, c: Seq<LevelView>)
    requires
        ids_within(a, b),
        ids_apart(b, c),
    ensures
        ids_apart(a, c),
{
    assert forall|i1: int, j1: int, i2: int, j2: int|
        0 <= i1 < a.len() && 0 <= j1 < a[i1].orders.len() && 0 <= i2 < c.len() && 0 <= j2
            < c[i2].orders.len() implies (#[trigger] a[i1].orders[j1]).id != (
        #[trigger] c[i2].orders[j2]).id by {
        let id = a[i1].orders[j1].id;
        assert(rests_on(b, id));
        let (p, q) = choose|p: int, q: int|
            0 <= p < b.len() && 0 <= q < b[p].orders.len() && (#[trigger] b[p].orders[q]).id == id;
        assert(b[p].orders[q].id != c[i2].orders[j2].id);
    }
}

/// An id resting on `a` rests on no side apart from `a`.
pub proof fn lemma_apart_absent(a: Seq<LevelView>, b: Seq<LevelView>, id: usize)
    requires
        ids_apart(a, b),
        rests_on(a, id),
    ensures
        !rests_on(b, id),
{
    let (i, j) = choose|i: int, j: int|
        0 <= i < a.len() && 0 <= j < a[i].orders.len() && (#[trigger] a[i].orders[j]).id == id;
    if rests_on(b, id) {
        let (p, q) = choose|p: int, q: int|
            0 <= p < b.len() && 0 <= q < b[p].orders.len() && (#[trigger] b[p].orders[q]).id == id;
        assert(a[i].orders[j].id != b[p].orders[q].id);
    }
}

/// Being apart is symmetric.
pub proof fn lemma_apart_symmetric(a: Seq<LevelView>, b: Seq<LevelView>)
    requires
        ids_apart(a, b),
    ensures
        ids_apart(b, a),
{
    assert forall|i1: int, j1: int, i2: int, j2: int|
        0 <= i1 < b.len() && 0 <= j1 < b[i1].orders.len() && 0 <= i2 < a.len() && 0 <= j2
            < a[i2].orders.len() implies (#[trigger] b[i1].orders[j1]).id != (
        #[trigger] a[i2].orders[j2]).id by {
        assert(a[i2].orders[j2].id != b[i1].orders[j1].id);
    }
}

/// A side whose ids come from `b`, or are `extra`, stays apart from every
/// side that `b` is apart from and that does not hold `extra`.
pub proof fn lemma_apart_from(a: Seq<LevelView>, b: Seq<LevelView>, extra: usize, c: Seq<LevelView>)
    requires
        ids_from(a, b, extra),
        ids_apart(b, c),
        !rests_on(c, extra),
    ensures
        ids_apart(a, c),
{
    assert forall|i1: int, j1: int, i2: int, j2: int|
        0 <= i1 < a.len() && 0 <= j1 < a[i1].orders.len() && 0 <= i2 < c.len() && 0 <= j2
            < c[i2].orders.len() implies (#[trigger] a[i1].orders[j1]).id != (
        #[trigger] c[i2].orders[j2]).id by {
        let id = a[i1].orders[j1].id;
        if id != extra {
            let (p, q) = choose|p: int, q: int|
                0 <= p < b.len() && 0 <= q < b[p].orders.len() && (#[trigger] b[p].orders[q]).id == id;
            assert(b[p].orders[q].id != c[i2].orders[j2].id);
        }
    }
}

/// The best levels of the two sides cannot trade with each other.
pub open spec fn uncrossed(own: Seq<LevelView>, opp: Seq<LevelView>, side: Side) -> bool {
    own.len() > 0 && opp.len() > 0 ==> !crosses(side, own[0].price, opp[0].price)
}

/// `i` is the first level at `price`.
pub open spec fn is_first_at(levels: Seq<LevelView>, price: i32, i: int) -> bool {
    &&& 0 <= i < levels.len()
    &&& levels[i].price == price
    &&& forall|j: int| 0 <= j < i ==> levels[j].price != price
}

/// Some level is at `price`.
pub open spec fn has_level(levels: Seq<LevelView>, price: i32) -> bool {
    exists|i: int| 0 <= i < levels.len() && levels[i].price == price
}

/// The index of the level at `price` (meaningful when `has_level`).
pub open spec fn level_index(levels: Seq<LevelView>, price: i32) -> int {
    choose|i: int| is_first_at(levels, price, i)
}

/// Once a first level `i` at `price` is known, `level_index` is `i`.
pub proof fn lemma_level_index(levels: Seq<LevelView>, price: i32, i: int)
    requires
        is_first_at(levels, price, i),
    ensures
        level_index(levels, price) == i,
        has_level(levels, price),
{
    let p = level_index(levels, price);
    assert(is_first_at(levels, price, p));
    if p < i {
        assert(levels[p].price != price);
    } else if i < p {
        assert(levels[i].price != price);
    }
}

/// `k` is where a level at `price` belongs on `side`: every level before it
/// is served first, and the one at `k`, if any, is not.
pub open spec fn is_slot(levels: Seq<LevelView>, side: Side, price: i32, k: int) -> bool {
    &&& 0 <= k <= levels.len()
    &&& forall|j: int| 0 <= j < k ==> ahead(side, #[trigger] levels[j].price, price)
    &&& k < levels.len() ==> !ahead(side, levels[k].price, price)
}

/// Where a level at `price` belongs on `side`.
pub open spec fn slot(levels: Seq<LevelView>, side: Side, price: i32) -> int {
    choose|k: int| is_slot(levels, side, price, k)
}

/// Once a slot `k` is known, `slot` is `k`.
pub proof fn lemma_slot(levels: Seq<LevelView>, side: Side, price: i32, k: int)
    requires
        is_slot(levels, side, price, k),
    ensures
        slot(levels, side, price) == k,
{
    let p = slot(levels, side, price);
    assert(is_slot(levels, side, price, p));
    if p < k {
        assert(ahead(side, levels[p].price, price));
    } else if k < p {
        assert(ahead(side, levels[k].price, price));
    }
}

/// The side after `o` rests on it: at the back of the level at its price,
/// or alone in a new level at its place in price order.
pub open spec fn rest_model(levels: Seq<LevelView>, o: Order) -> Seq<LevelView> {
    let k = slot(levels, o.side, o.price);
    if k < levels.len() && levels[k].price == o.price {
        levels.update(k, LevelView { price: o.price, orders: levels[k].orders.push(o) })
    } else {
        levels.insert(k, LevelView { price: o.price, orders: seq![o] })
    }
}

/// The side after the oldest order of its best level leaves; the level goes
/// with it when it was that level's last order.
pub open spec fn pop_best_model(levels: Seq<LevelView>) -> Seq<LevelView> {
    if levels[0].orders.len() <= 1 {
        levels.drop_first()
    } else {
        levels.update(0, LevelView { price: levels[0].price, orders: levels[0].orders.drop_first() })
    }
}

/// The side after the oldest order of its best level trades `qty` at `now`
/// and stays at the front of its level.
pub open spec fn fill_best_model(levels: Seq<LevelView>, qty: u32, now: u64) -> Seq<LevelView> {
    levels.update(
        0,
        LevelView {
            price: levels[0].price,
            orders: levels[0].orders.update(0, levels[0].orders[0].filled(qty, now)),
        },
    )
}

/// Matching `o` against the opposing side `opp` at time `now`, with `own` its
/// own side: the two sides afterwards and the events, in order.
///
/// While `o` crosses the best opposing level it trades with that level's
/// oldest order at the level's price. What is left of a good-til-cancel
/// order then rests on `own`; what is left of a fill-and-kill order is
/// dropped.
pub open spec fn place_model(own: Seq<LevelView>, opp: Seq<LevelView>, o: Order, now: u64) -> (
    Seq<LevelView>,
    Seq<LevelView>,
    Seq<OrderEvent>,
)
    decreases opp.len(), opp[0].orders.len(),
{
    if o.remaining_qty == 0 {
        (own, opp, Seq::empty())
    } else if opp.len() == 0 || !crosses(o.side, o.price, opp[0].price) {
        if o.order_type == OrderType::FillAndKill {
            (own, opp, Seq::empty())
        } else {
            (rest_model(own, o), opp, Seq::empty())
        }
    } else {
        let price = opp[0].price;
        let head = opp[0].orders[0];
        if o.remaining_qty == head.remaining_qty {
            (
                own,
                pop_best_model(opp),
                seq![
                    OrderEvent::Filled { id: head.id, price, timestamp: now },
                    OrderEvent::Filled { id: o.id, price, timestamp: now },
                ],
            )
        } else if o.remaining_qty < head.remaining_qty {
            (
                own,
                fill_best_model(opp, o.remaining_qty, now),
                seq![
                    OrderEvent::PartiallyFilled {
                        id: head.id,
                        price,
                        qty: o.remaining_qty,
                        timestamp: now,
                    },
                    OrderEvent::Filled { id: o.id, price, timestamp: now },
                ],
            )
        } else {
            let first = seq![
                OrderEvent::PartiallyFilled {
                    id: o.id,
                    price,
                    qty: head.remaining_qty,
                    timestamp: now,
                },
                OrderEvent::Filled { id: head.id, price, timestamp: now },
            ];
            let r = place_model(own, pop_best_model(opp), o.filled(head.remaining_qty, now), now);
            (r.0, r.1, first + r.2)
        }
    }
}

/// Removes the oldest order of the best level, and the level if it empties.
fn pop_best(levels: &mut Vec<Level>, side: Side, Ghost(bound): Ghost<usize>)
    requires
        side_wf(side_view(old(levels)@), side),
        old(levels)@.len() > 0,
    ensures
        side_view(final(levels)@) == pop_best_model(side_view(old(levels)@)),
        side_wf(side_view(final(levels)@), side),
        ids_below(side_view(old(levels)@), bound) ==> ids_below(side_view(final(levels)@), bound),
        ids_within(side_view(final(levels)@), side_view(old(levels)@)),
        ids_distinct(side_view(old(levels)@)) ==> ids_distinct(side_view(final(levels)@)),
{
    let ghost before = side_view(levels@);
    assert(level_wf(before[0], side));
    let mut lev = levels.remove(0);
    let _ = lev.orders.pop_front();
    if lev.orders.len() > 0 {
        levels.insert(0, lev);
        proof {
            let after = side_view(levels@);
            assert(after =~= pop_best_model(before));
            assert forall|i: int| 0 <= i < after.len() implies level_wf(#[trigger] after[i], side) by {
                assert(level_wf(before[i], side));
                if i == 0 {
                    assert forall|j: int| 0 <= j < after[i].orders.len() implies resting_ok(
                        #[trigger] after[i].orders[j],
                        side,
                        after[i].price,
                    ) by {
                        assert(resting_ok(before[i].orders[j + 1], side, before[i].price));
                    }
                }
            }
            assert forall|i: int, j: int| 0 <= i < j < after.len() implies ahead(
                side,
                #[trigger] after[i].price,
                #[trigger] after[j].price,
            ) by {
                assert(ahead(side, before[i].price, before[j].price));
            }
            if ids_below(before, bound) {
                assert forall|i: int, j: int|
                    0 <= i < after.len() && 0 <= j < after[i].orders.len() implies (
                    #[trigger] after[i].orders[j]).id < bound by {
                    if i == 0 {
                        assert(after[i].orders[j] == before[i].orders[j + 1]);
                    } else {
                        assert(after[i].orders[j] == before[i].orders[j]);
                    }
                }
            }
            assert(ids_within(after, before)) by {
                assert forall|i: int, j: int| 0 <= i < after.len() && 0 <= j < after[i].orders.len() implies rests_on(
                    before,
                    (#[trigger] after[i].orders[j]).id,
                ) by {
                    let a = i;
                    let b = if i == 0 { j + 1 } else { j };
                    assert(before[a].orders[b].id == after[i].orders[j].id);
                }
            }
            if ids_distinct(before) {
                assert forall|i1: int, j1: int, i2: int, j2: int|
                    0 <= i1 < after.len() && 0 <= j1 < after[i1].orders.len() && 0 <= i2 < after.len() && 0 <= j2
                        < after[i2].orders.len() && (#[trigger] after[i1].orders[j1]).id == (
                    #[trigger] after[i2].orders[j2]).id implies i1 == i2 && j1 == j2 by {
                    let a1 = i1;
                    let b1 = if i1 == 0 { j1 + 1 } else { j1 };
                    let a2 = i2;
                    let b2 = if i2 == 0 { j2 + 1 } else { j2 };
                    assert(before[a1].orders[b1].id == after[i1].orders[j1].id);
                    assert(before[a2].orders[b2].id == after[i2].orders[j2].id);
                }
            }
        }
    } else {
        proof {
            let after = side_view(levels@);
            assert(after =~= pop_best_model(before));
            if ids_below(before, bound) {
                assert forall|i: int, j: int|
                    0 <= i < after.len() && 0 <= j < after[i].orders.len() implies (
                    #[trigger] after[i].orders[j]).id < bound by {
                    assert(after[i].orders[j] == before[i + 1].orders[j]);
                }
            }
            assert(ids_within(after, before)) by {
                assert forall|i: int, j: int| 0 <= i < after.len() && 0 <= j < after[i].orders.len() implies rests_on(
                    before,
                    (#[trigger] after[i].orders[j]).id,
                ) by {
                    let a = i + 1;
                    let b = j;
                    assert(before[a].orders[b].id == after[i].orders[j].id);
                }
            }
            if ids_distinct(before) {
                assert forall|i1: int, j1: int, i2: int, j2: int|
                    0 <= i1 < after.len() && 0 <= j1 < after[i1].orders.len() && 0 <= i2 < after.len() && 0 <= j2
                        < after[i2].orders.len() && (#[trigger] after[i1].orders[j1]).id == (
                    #[trigger] after[i2].orders[j2]).id implies i1 == i2 && j1 == j2 by {
                    let a1 = i1 + 1;
                    let b1 = j1;
                    let a2 = i2 + 1;
                    let b2 = j2;
                    assert(before[a1].orders[b1].id == after[i1].orders[j1].id);
                    assert(before[a2].orders[b2].id == after[i2].orders[j2].id);
                }
            }
            assert forall|i: int| 0 <= i < after.len() implies level_wf(#[trigger] after[i], side) by {
                assert(level_wf(before[i + 1], side));
            }
            assert forall|i: int, j: int| 0 <= i < j < after.len() implies ahead(
                side,
                #[trigger] after[i].price,
                #[trigger] after[j].price,
            ) by {
                assert(ahead(side, before[i + 1].price, before[j + 1].price));
            }
        }
    }
}

/// Trades `qty` of the oldest order of the best level at `now`, leaving it
/// at the front of its level.
fn fill_best(levels: &mut Vec<Level>, side: Side, qty: u32, now: u64, Ghost(bound): Ghost<usize>)
    requires
        side_wf(side_view(old(levels)@), side),
        old(levels)@.len() > 0,
        qty < old(levels)@[0].orders@[0].remaining_qty,
    ensures
        side_view(final(levels)@) == fill_best_model(side_view(old(levels)@), qty, now),
        side_wf(side_view(final(levels)@), side),
        ids_below(side_view(old(levels)@), bound) ==> ids_below(side_view(final(levels)@), bound),
        ids_within(side_view(final(levels)@), side_view(old(levels)@)),
        ids_distinct(side_view(old(levels)@)) ==> ids_distinct(side_view(final(levels)@)),
{
    let ghost before = side_view(levels@);
    assert(level_wf(before[0], side));
    let mut lev = levels.remove(0);
    let mut front = match lev.orders.pop_front() {
        Some(o) => o,
        None => {
            return;
        },
    };
    let _ = front.fill(qty, now);
    lev.orders.push_front(front);
    levels.insert(0, lev);
    proof {
        let after = side_view(levels@);
        assert(after[0].orders =~= before[0].orders.update(0, before[0].orders[0].filled(qty, now)));
        assert(after =~= fill_best_model(before, qty, now));
        assert forall|i: int| 0 <= i < after.len() implies level_wf(#[trigger] after[i], side) by {
            assert(level_wf(before[i], side));
            if i == 0 {
                assert forall|j: int| 0 <= j < after[i].orders.len() implies resting_ok(
                    #[trigger] after[i].orders[j],
                    side,
                    after[i].price,
                ) by {
                    assert(resting_ok(before[i].orders[j], side, before[i].price));
                }
            }
        }
        assert forall|i: int, j: int| 0 <= i < j < after.len() implies ahead(
            side,
            #[trigger] after[i].price,
            #[trigger] after[j].price,
        ) by {
            assert(ahead(side, before[i].price, before[j].price));
        }
        if ids_below(before, bound) {
            assert forall|i: int, j: int|
                0 <= i < after.len() && 0 <= j < after[i].orders.len() implies (
                #[trigger] after[i].orders[j]).id < bound by {
                assert(after[i].orders[j].id == before[i].orders[j].id);
            }
        }
        assert(ids_within(after, before)) by {
            assert forall|i: int, j: int| 0 <= i < after.len() && 0 <= j < after[i].orders.len() implies rests_on(
                before,
                (#[trigger] after[i].orders[j]).id,
            ) by {
                let a = i;
                let b = j;
                assert(before[a].orders[b].id == after[i].orders[j].id);
            }
        }
        if ids_distinct(before) {
            assert forall|i1: int, j1: int, i2: int, j2: int|
                0 <= i1 < after.len() && 0 <= j1 < after[i1].orders.len() && 0 <= i2 < after.len() && 0 <= j2
                    < after[i2].orders.len() && (#[trigger] after[i1].orders[j1]).id == (
                #[trigger] after[i2].orders[j2]).id implies i1 == i2 && j1 == j2 by {
                let a1 = i1;
                let b1 = j1;
                let a2 = i2;
                let b2 = j2;
                assert(before[a1].orders[b1].id == after[i1].orders[j1].id);
                assert(before[a2].orders[b2].id == after[i2].orders[j2].id);
            }
        }
    }
}

/// The index of the first level at `price`, if any.
pub fn find_level(levels: &Vec<Level>, price: i32) -> (r: Option<usize>)
    ensures
        match r {
            Some(i) => is_first_at(side_view(levels@), price, i as int),
            None => !has_level(side_view(levels@), price),
        },
{
    let n = levels.len();
    let mut i: usize = 0;
    while i < n
        invariant
            n == levels@.len(),
            i <= n,
            forall|j: int| 0 <= j < i ==> levels@[j].price != price,
        decreases n - i,
    {
        if levels[i].price == price {
            return Some(i);
        }
        i = i + 1;
    }
    None
}

/// Rests `o` on its own side.
pub fn rest(levels: &mut Vec<Level>, o: Order, Ghost(bound): Ghost<usize>)
    requires
        side_wf(side_view(old(levels)@), o.side),
        resting_ok(o, o.side, o.price),
    ensures
        side_view(final(levels)@) == rest_model(side_view(old(levels)@), o),
        side_wf(side_view(final(levels)@), o.side),
        final(levels)@.len() > 0,
        final(levels)@[0].price == o.price || (old(levels)@.len() > 0 && final(levels)@[0].price
            == old(levels)@[0].price),
        ids_below(side_view(old(levels)@), bound) && o.id < bound ==> ids_below(
            side_view(final(levels)@),
            bound,
        ),
        ids_from(side_view(final(levels)@), side_view(old(levels)@), o.id),
        ids_distinct(side_view(old(levels)@)) && !rests_on(side_view(old(levels)@), o.id)
            ==> ids_distinct(side_view(final(levels)@)),
{
    let ghost before = side_view(levels@);
    let n = levels.len();
    let mut k: usize = 0;
    while k < n && ahead_exec(o.side, levels[k].price, o.price)
        invariant
            n == levels@.len(),
            k <= n,
            before == side_view(levels@),
            forall|j: int| 0 <= j < k ==> ahead(o.side, #[trigger] before[j].price, o.price),
        decreases n - k,
    {
        k = k + 1;
    }
    proof {
        assert(is_slot(before, o.side, o.price, k as int));
        lemma_slot(before, o.side, o.price, k as int);
    }
    if k < n && levels[k].price == o.price {
        let mut lev = levels.remove(k);
        lev.orders.push_back(o);
        levels.insert(k, lev);
        proof {
            let after = side_view(levels@);
            let goal = rest_model(before, o);
            assert(after =~= goal);
            assert forall|i: int| 0 <= i < after.len() implies level_wf(#[trigger] after[i], o.side) by {
                if i == k {
                    assert(level_wf(before[i], o.side));
                    assert forall|j: int| 0 <= j < after[i].orders.len() implies resting_ok(
                        #[trigger] after[i].orders[j],
                        o.side,
                        after[i].price,
                    ) by {
                        if j < before[i].orders.len() {
                            assert(resting_ok(before[i].orders[j], o.side, before[i].price));
                        }
                    }
                } else {
                    assert(level_wf(before[i], o.side));
                }
            }
            if ids_below(before, bound) && o.id < bound {
                assert forall|i: int, j: int|
                    0 <= i < after.len() && 0 <= j < after[i].orders.len() implies (
                    #[trigger] after[i].orders[j]).id < bound by {
                    if i == k && j < before[i].orders.len() {
                        assert(after[i].orders[j] == before[i].orders[j]);
                    } else if i != k {
                        assert(after[i].orders[j] == before[i].orders[j]);
                    }
                }
            }
            assert forall|i: int, j: int|
                0 <= i < after.len() && 0 <= j < after[i].orders.len() implies (
                #[trigger] after[i].orders[j]).id == o.id || rests_on(before, after[i].orders[j].id) by {
                if !(i == k && j == before[i].orders.len()) {
                    assert(before[i].orders[j] == after[i].orders[j]);
                }
            }
            if ids_distinct(before) && !rests_on(before, o.id) {
                assert forall|i1: int, j1: int, i2: int, j2: int|
                    0 <= i1 < after.len() && 0 <= j1 < after[i1].orders.len() && 0 <= i2 < after.len()
                        && 0 <= j2 < after[i2].orders.len() && (#[trigger] after[i1].orders[j1]).id == (
                    #[trigger] after[i2].orders[j2]).id implies i1 == i2 && j1 == j2 by {
                    let new1 = i1 == k && j1 == before[i1].orders.len();
                    let new2 = i2 == k && j2 == before[i2].orders.len();
                    if !new1 {
                        assert(before[i1].orders[j1] == after[i1].orders[j1]);
                    }
                    if !new2 {
                        assert(before[i2].orders[j2] == after[i2].orders[j2]);
                    }
                }
            }
        }
    } else {
        let mut lev = Level::new(o.price);
        lev.orders.push_back(o);
        levels.insert(k, lev);
        proof {
            let after = side_view(levels@);
            let goal = rest_model(before, o);
            assert(after =~= goal);
            assert forall|i: int| 0 <= i < after.len() implies level_wf(#[trigger] after[i], o.side) by {
                if i < k {
                    assert(level_wf(before[i], o.side));
                } else if i > k {
                    assert(level_wf(before[i - 1], o.side));
                } else {
                    assert(after[i].orders =~= seq![o]);
                }
            }
            if ids_below(before, bound) && o.id < bound {
                assert forall|i: int, j: int|
                    0 <= i < after.len() && 0 <= j < after[i].orders.len() implies (
                    #[trigger] after[i].orders[j]).id < bound by {
                    if i < k {
                        assert(after[i].orders[j] == before[i].orders[j]);
                    } else if i > k {
                        assert(after[i].orders[j] == before[i - 1].orders[j]);
                    }
                }
            }
            assert forall|i: int, j: int|
                0 <= i < after.len() && 0 <= j < after[i].orders.len() implies (
                #[trigger] after[i].orders[j]).id == o.id || rests_on(before, after[i].orders[j].id) by {
                if i < k {
                    assert(before[i].orders[j] == after[i].orders[j]);
                } else if i > k {
                    assert(before[i - 1].orders[j] == after[i].orders[j]);
                }
            }
            if ids_distinct(before) && !rests_on(before, o.id) {
                assert forall|i1: int, j1: int, i2: int, j2: int|
                    0 <= i1 < after.len() && 0 <= j1 < after[i1].orders.len() && 0 <= i2 < after.len()
                        && 0 <= j2 < after[i2].orders.len() && (#[trigger] after[i1].orders[j1]).id == (
                    #[trigger] after[i2].orders[j2]).id implies i1 == i2 && j1 == j2 by {
                    let a1 = if i1 < k { i1 } else { i1 - 1 };
                    let a2 = if i2 < k { i2 } else { i2 - 1 };
                    if i1 != k {
                        assert(before[a1].orders[j1] == after[i1].orders[j1]);
                    } else {
                        assert(after[i1].orders[j1] == o);
                    }
                    if i2 != k {
                        assert(before[a2].orders[j2] == after[i2].orders[j2]);
                    } else {
                        assert(after[i2].orders[j2] == o);
                    }
                }
            }
            assert forall|i: int, j: int| 0 <= i < j < after.len() implies ahead(
                o.side,
                #[trigger] after[i].price,
                #[trigger] after[j].price,
            ) by {
                if k < before.len() {
                    assert(!ahead(o.side, before[k as int].price, o.price));
                    assert(before[k as int].price != o.price);
                }
                if i < k && j > k {
                    assert(ahead(o.side, before[i].price, o.price));
                    if j - 1 > k {
                        assert(ahead(o.side, before[k as int].price, before[j - 1].price));
                    }
                } else if i < k && j == k {
                    assert(ahead(o.side, before[i].price, o.price));
                } else if i == k && j > k + 1 {
                    assert(ahead(o.side, before[k as int].price, before[j - 1].price));
                } else if i > k {
                    assert(ahead(o.side, before[i - 1].price, before[j - 1].price));
                } else if j < k {
                    assert(ahead(o.side, before[i].price, before[j].price));
                }
            }
        }
    }
}

/// When the opposing side only loses orders, it stays apart from `own`, and
/// an id absent from it stays absent.
proof fn lemma_opposing_shrunk(
    own: Seq<LevelView>,
    opp: Seq<LevelView>,
    opp_after: Seq<LevelView>,
    id: usize,
)
    requires
        ids_within(opp_after, opp),
        ids_apart(own, opp),
        !rests_on(own, id),
        !rests_on(opp, id),
    ensures
        ids_apart(own, opp_after),
        !rests_on(opp_after, id),
{
    lemma_within_from(opp_after, opp, id);
    lemma_apart_symmetric(own, opp);
    lemma_apart_from(opp_after, opp, id, own);
    lemma_apart_symmetric(opp_after, own);
    lemma_absent_within(opp_after, opp, id);
}

/// Matches `o` against `opp`, then rests or drops what is left of it,
/// appending the events to `events`.
pub fn place_into(
    own: &mut Vec<Level>,
    opp: &mut Vec<Level>,
    events: &mut Vec<OrderEvent>,
    o: Order,
    now: u64,
    Ghost(bound): Ghost<usize>,
)
    requires
        side_wf(side_view(old(own)@), o.side),
        side_wf(side_view(old(opp)@), opposite(o.side)),
        uncrossed(side_view(old(own)@), side_view(old(opp)@), o.side),
        o.wf(),
        ids_below(side_view(old(own)@), bound),
        ids_below(side_view(old(opp)@), bound),
        events_below(old(events)@, bound),
        o.id < bound,
        ids_distinct(side_view(old(own)@)),
        ids_distinct(side_view(old(opp)@)),
        ids_apart(side_view(old(own)@), side_view(old(opp)@)),
        !rests_on(side_view(old(own)@), o.id),
        !rests_on(side_view(old(opp)@), o.id),
    ensures
        ({
            let r = place_model(side_view(old(own)@), side_view(old(opp)@), o, now);
            &&& side_view(final(own)@) == r.0
            &&& side_view(final(opp)@) == r.1
            &&& final(events)@ == old(events)@ + r.2
        }),
        side_wf(side_view(final(own)@), o.side),
        side_wf(side_view(final(opp)@), opposite(o.side)),
        uncrossed(side_view(final(own)@), side_view(final(opp)@), o.side),
        ids_below(side_view(final(own)@), bound),
        ids_below(side_view(final(opp)@), bound),
        events_below(final(events)@, bound),
        ids_distinct(side_view(final(own)@)),
        ids_distinct(side_view(final(opp)@)),
        ids_apart(side_view(final(own)@), side_view(final(opp)@)),
    decreases old(opp)@.len(), old(opp)@[0].orders@.len(),
{
    let ghost own0 = side_view(own@);
    let ghost opp0 = side_view(opp@);
    if o.remaining_qty == 0 {
        assert(events@ =~= events@ + Seq::<OrderEvent>::empty());
        return;
    }
    if opp.len() == 0 || !crosses_exec(o.side, o.price, opp[0].price) {
        match o.order_type {
            OrderType::FillAndKill => {},
            OrderType::GoodTilCancel => {
                rest(own, o, Ghost(bound));
                proof {
                    lemma_apart_from(side_view(own@), own0, o.id, opp0);
                }
            },
        }
        assert(events@ =~= events@ + Seq::<OrderEvent>::empty());
        return;
    }
    let ghost other = opposite(o.side);
    assert(level_wf(opp0[0], other));
    let price = opp[0].price;
    let head = opp[0].orders[0];
    assert(resting_ok(head, other, price));
    assert(head == opp0[0].orders[0]);
    assert(head.id < bound);
    proof {
        if opp0.len() > 1 {
            assert(ahead(other, opp0[0].price, opp0[1].price));
        }
    }
    if o.remaining_qty == head.remaining_qty {
        pop_best(opp, opposite_side(o.side), Ghost(bound));
        proof {
            lemma_opposing_shrunk(own0, opp0, side_view(opp@), o.id);
        }
        events.push(OrderEvent::Filled { id: head.id, price, timestamp: now });
        events.push(OrderEvent::Filled { id: o.id, price, timestamp: now });
        assert(events@ =~= old(events)@ + place_model(own0, opp0, o, now).2);
        assert(events_below(events@, bound)) by {
            assert forall|k: int| 0 <= k < events@.len() implies event_id(#[trigger] events@[k])
                < bound by {
                if k < old(events)@.len() {
                    assert(events@[k] == old(events)@[k]);
                }
            }
        }
    } else if o.remaining_qty < head.remaining_qty {
        fill_best(opp, opposite_side(o.side), o.remaining_qty, now, Ghost(bound));
        proof {
            lemma_opposing_shrunk(own0, opp0, side_view(opp@), o.id);
        }
        events.push(
            OrderEvent::PartiallyFilled { id: head.id, price, qty: o.remaining_qty, timestamp: now },
        );
        events.push(OrderEvent::Filled { id: o.id, price, timestamp: now });
        assert(events@ =~= old(events)@ + place_model(own0, opp0, o, now).2);
        assert(events_below(events@, bound)) by {
            assert forall|k: int| 0 <= k < events@.len() implies event_id(#[trigger] events@[k])
                < bound by {
                if k < old(events)@.len() {
                    assert(events@[k] == old(events)@[k]);
                }
            }
        }
    } else {
        pop_best(opp, opposite_side(o.side), Ghost(bound));
        proof {
            lemma_opposing_shrunk(own0, opp0, side_view(opp@), o.id);
        }
        let first_event = OrderEvent::PartiallyFilled {
            id: o.id,
            price,
            qty: head.remaining_qty,
            timestamp: now,
        };
        let second_event = OrderEvent::Filled { id: head.id, price, timestamp: now };
        events.push(first_event);
        events.push(second_event);
        let ghost mid = events@;
        assert(events_below(events@, bound)) by {
            assert forall|k: int| 0 <= k < events@.len() implies event_id(#[trigger] events@[k])
                < bound by {
                if k < old(events)@.len() {
                    assert(events@[k] == old(events)@[k]);
                }
            }
        }
        proof {
            let after = side_view(opp@);
            assert(after.len() == opp@.len());
            if opp@.len() == old(opp)@.len() {
                assert(after[0] == opp@[0]@);
                assert(opp0[0] == old(opp)@[0]@);
                assert(opp@[0].orders@.len() < old(opp)@[0].orders@.len());
            }
        }
        let mut left = o;
        let _ = left.fill(head.remaining_qty, now);
        place_into(own, opp, events, left, now, Ghost(bound));
        proof {
            let r = place_model(own0, pop_best_model(opp0), left, now);
            assert(mid =~= old(events)@ + seq![first_event, second_event]);
            assert(events@ =~= old(events)@ + (seq![first_event, second_event] + r.2));
        }
    }
}

/// The resting order `id` sits in the level at `price`.
pub open spec fn resting_in(levels: Seq<LevelView>, id: usize, price: i32) -> bool {
    has_level(levels, price) && holds_id(levels[level_index(levels, price)].orders, id)
}

/// The side after the first order `id` leaves the level at `price`; the
/// level goes with it when it was its last order.
pub open spec fn cancel_model(levels: Seq<LevelView>, id: usize, price: i32) -> Seq<LevelView> {
    let i = level_index(levels, price);
    let orders = levels[i].orders.remove(position_of(levels[i].orders, id));
    if orders.len() == 0 {
        levels.remove(i)
    } else {
        levels.update(i, LevelView { price: levels[i].price, orders })
    }
}

/// Removes the resting order `id` from the level at `price`, and the level
/// if it empties; says whether there was such an order.
#[verifier::rlimit(50)]
pub fn cancel_in(
    levels: &mut Vec<Level>,
    side: Side,
    id: usize,
    price: i32,
    Ghost(bound): Ghost<usize>,
) -> (r: bool)
    requires
        side_wf(side_view(old(levels)@), side),
    ensures
        ids_below(side_view(old(levels)@), bound) ==> ids_below(side_view(final(levels)@), bound),
        ids_below(side_view(old(levels)@), bound) && r ==> id < bound,
        ids_within(side_view(final(levels)@), side_view(old(levels)@)),
        ids_distinct(side_view(old(levels)@)) ==> ids_distinct(side_view(final(levels)@)),
        ids_distinct(side_view(old(levels)@)) && r ==> !rests_on(side_view(final(levels)@), id),
        r ==> rests_on(side_view(old(levels)@), id),
        r == resting_in(side_view(old(levels)@), id, price),
        r ==> side_view(final(levels)@) == cancel_model(side_view(old(levels)@), id, price),
        !r ==> side_view(final(levels)@) == side_view(old(levels)@),
        side_wf(side_view(final(levels)@), side),
        final(levels)@.len() > 0 ==> final(levels)@[0].price == old(levels)@[0].price || ahead(
            side,
            old(levels)@[0].price,
            final(levels)@[0].price,
        ),
{
    let ghost before = side_view(levels@);
    match find_level(levels, price) {
        None => false,
        Some(i) => {
            proof {
                lemma_level_index(before, price, i as int);
                assert(level_wf(before[i as int], side));
            }
            let ghost li = i as int;
            let ghost p = position_of(before[li].orders, id);
            let mut lev = levels.remove(i);
            let removed = lev.remove_order_by_id(id);
            proof {
                if removed {
                    assert(before[li].orders[p].id == id);
                }
            }
            if lev.orders.len() > 0 {
                levels.insert(i, lev);
                proof {
                    let after = side_view(levels@);
                    if removed {
                        assert(after =~= cancel_model(before, id, price));
                    } else {
                        assert(after =~= before);
                    }
                    assert forall|k: int| 0 <= k < after.len() implies level_wf(
                        #[trigger] after[k],
                        side,
                    ) by {
                        assert(level_wf(before[k], side));
                        if k == i && removed {
                            let p = position_of(before[k].orders, id);
                            assert forall|j: int| 0 <= j < after[k].orders.len() implies resting_ok(
                                #[trigger] after[k].orders[j],
                                side,
                                after[k].price,
                            ) by {
                                if j < p {
                                    assert(resting_ok(before[k].orders[j], side, before[k].price));
                                } else {
                                    assert(resting_ok(before[k].orders[j + 1], side, before[k].price));
                                }
                            }
                        }
                    }
                    assert forall|a: int, b: int| 0 <= a < b < after.len() implies ahead(
                        side,
                        #[trigger] after[a].price,
                        #[trigger] after[b].price,
                    ) by {
                        assert(ahead(side, before[a].price, before[b].price));
                    }
                    if ids_below(before, bound) {
                        assert forall|k: int, j: int|
                            0 <= k < after.len() && 0 <= j < after[k].orders.len() implies (
                            #[trigger] after[k].orders[j]).id < bound by {
                            if k == i && removed {
                                let p = position_of(before[k].orders, id);
                                if j < p {
                                    assert(after[k].orders[j] == before[k].orders[j]);
                                } else {
                                    assert(after[k].orders[j] == before[k].orders[j + 1]);
                                }
                            } else {
                                assert(after[k].orders[j] == before[k].orders[j]);
                            }
                        }
                    }
                    assert(ids_within(after, before)) by {
                        assert forall|x: int, y: int| 0 <= x < after.len() && 0 <= y < after[x].orders.len() implies rests_on(
                            before,
                            (#[trigger] after[x].orders[y]).id,
                        ) by {
                            let a = x;
                            let b = if x == li && removed && y >= p { y + 1 } else { y };
                            assert(before[a].orders[b].id == after[x].orders[y].id);
                        }
                    }
                    if ids_distinct(before) {
                        assert forall|x1: int, y1: int, x2: int, y2: int|
                            0 <= x1 < after.len() && 0 <= y1 < after[x1].orders.len() && 0 <= x2 < after.len() && 0 <= y2
                                < after[x2].orders.len() && (#[trigger] after[x1].orders[y1]).id == (
                            #[trigger] after[x2].orders[y2]).id implies x1 == x2 && y1 == y2 by {
                            let a1 = x1;
                            let b1 = if x1 == li && removed && y1 >= p { y1 + 1 } else { y1 };
                            let a2 = x2;
                            let b2 = if x2 == li && removed && y2 >= p { y2 + 1 } else { y2 };
                            assert(before[a1].orders[b1].id == after[x1].orders[y1].id);
                            assert(before[a2].orders[b2].id == after[x2].orders[y2].id);
                        }
                        if removed {
                            assert(before[li].orders[p].id == id);
                            if rests_on(after, id) {
                                let (x, y) = choose|x: int, y: int|
                                    0 <= x < after.len() && 0 <= y < after[x].orders.len() && (#[trigger] after[x].orders[y]).id
                                        == id;
                                let a = x;
                                let b = if x == li && removed && y >= p { y + 1 } else { y };
                                assert(before[a].orders[b].id == after[x].orders[y].id);
                            }
                        }
                    }
                }
            } else {
                proof {
                    let after = side_view(levels@);
                    assert(after =~= cancel_model(before, id, price));
                    assert forall|k: int| 0 <= k < after.len() implies level_wf(
                        #[trigger] after[k],
                        side,
                    ) by {
                        if k < i {
                            assert(level_wf(before[k], side));
                        } else {
                            assert(level_wf(before[k + 1], side));
                        }
                    }
                    assert forall|a: int, b: int| 0 <= a < b < after.len() implies ahead(
                        side,
                        #[trigger] after[a].price,
                        #[trigger] after[b].price,
                    ) by {
                        if b < i {
                            assert(ahead(side, before[a].price, before[b].price));
                        } else if a < i {
                            assert(ahead(side, before[a].price, before[b + 1].price));
                        } else {
                            assert(ahead(side, before[a + 1].price, before[b + 1].price));
                        }
                    }
                    if after.len() > 0 && i == 0 {
                        assert(ahead(side, before[0].price, before[1].price));
                    }
                    if ids_below(before, bound) {
                        assert forall|k: int, j: int|
                            0 <= k < after.len() && 0 <= j < after[k].orders.len() implies (
                            #[trigger] after[k].orders[j]).id < bound by {
                            if k < i {
                                assert(after[k].orders[j] == before[k].orders[j]);
                            } else {
                                assert(after[k].orders[j] == before[k + 1].orders[j]);
                            }
                        }
                    }
                    assert(ids_within(after, before)) by {
                        assert forall|x: int, y: int| 0 <= x < after.len() && 0 <= y < after[x].orders.len() implies rests_on(
                            before,
                            (#[trigger] after[x].orders[y]).id,
                        ) by {
                            let a = if x < li { x } else { x + 1 };
                            let b = y;
                            assert(before[a].orders[b].id == after[x].orders[y].id);
                        }
                    }
                    if ids_distinct(before) {
                        assert forall|x1: int, y1: int, x2: int, y2: int|
                            0 <= x1 < after.len() && 0 <= y1 < after[x1].orders.len() && 0 <= x2 < after.len() && 0 <= y2
                                < after[x2].orders.len() && (#[trigger] after[x1].orders[y1]).id == (
                            #[trigger] after[x2].orders[y2]).id implies x1 == x2 && y1 == y2 by {
                            let a1 = if x1 < li { x1 } else { x1 + 1 };
                            let b1 = y1;
                            let a2 = if x2 < li { x2 } else { x2 + 1 };
                            let b2 = y2;
                            assert(before[a1].orders[b1].id == after[x1].orders[y1].id);
                            assert(before[a2].orders[b2].id == after[x2].orders[y2].id);
                        }
                        if removed {
                            assert(before[li].orders[p].id == id);
                            if rests_on(after, id) {
                                let (x, y) = choose|x: int, y: int|
                                    0 <= x < after.len() && 0 <= y < after[x].orders.len() && (#[trigger] after[x].orders[y]).id
                                        == id;
                                let a = if x < li { x } else { x + 1 };
                                let b = y;
                                assert(before[a].orders[b].id == after[x].orders[y].id);
                            }
                        }
                    }
                }
            }
            removed
        },
    }
}

/// Executable form of `crosses`.
pub fn crosses_exec(side: Side, price: i32, opposite_price: i32) -> (r: bool)
    ensures
        r == crosses(side, price, opposite_price),
{
    match side {
        Side::Buy => price >= opposite_price,
        Side::Sell => price <= opposite_price,
    }
}

/// Executable form of `opposite`.
pub fn opposite_side(side: Side) -> (r: Side)
    ensures
        r == opposite(side),
{
    match side {
        Side::Buy => Side::Sell,
        Side::Sell => Side::Buy,
    }
}

/// Executable form of `ahead`.
pub fn ahead_exec(side: Side, a: i32, b: i32) -> (r: bool)
    ensures
        r == ahead(side, a, b),
{
    match side {
        Side::Buy => a > b,
        Side::Sell => a < b,
    }
}

} // verus!
