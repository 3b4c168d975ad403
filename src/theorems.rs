use vstd::prelude::*;
use crate::command::{event_id, OrderCommand, OrderEvent};
use crate::level::{lemma_position_of_exists, position_of, LevelView};
use crate::order::{Order, OrderType, Side};
use crate::order_book::{book_wf, command_model, levels_of, new_order, resting_at, BookView};
use crate::side::{
    ahead, crosses, has_level, is_first_at, is_slot, lemma_level_index, lemma_slot, level_index,
    level_wf, opposite, place_model, resting_ok, side_wf,
};

verus! {

/// The quantity an event records as traded by an order that had `remaining`
/// open: a partial fill names it, a full fill takes all that was open.
pub open spec fn traded_qty(e: OrderEvent, remaining: u32) -> u32 {
    match e {
        OrderEvent::PartiallyFilled { qty, .. } => qty,
        OrderEvent::Filled { .. } => remaining,
        _ => 0,
    }
}

/// The smaller of two quantities.
pub open spec fn min_qty(a: u32, b: u32) -> u32 {
    if a <= b {
        a
    } else {
        b
    }
}

/// Every side has a place for a level at any price.
pub proof fn lemma_slot_exists(levels: Seq<LevelView>, side: Side, price: i32)
    ensures
        exists|k: int| is_slot(levels, side, price, k),
    decreases levels.len(),
{
    if levels.len() == 0 || !ahead(side, levels[0].price, price) {
        assert(is_slot(levels, side, price, 0));
    } else {
        let rest = levels.drop_first();
        lemma_slot_exists(rest, side, price);
        let k = choose|k: int| is_slot(rest, side, price, k);
        assert forall|j: int| 0 <= j < k + 1 implies ahead(side, #[trigger] levels[j].price, price) by {
            if j > 0 {
                assert(levels[j] == rest[j - 1]);
            }
        }
        assert(is_slot(levels, side, price, k + 1));
    }
}

/// The quantity still open across `orders`.
pub open spec fn orders_qty(orders: Seq<Order>) -> int
    decreases orders.len(),
{
    if orders.len() == 0 {
        0
    } else {
        orders[0].remaining_qty + orders_qty(orders.drop_first())
    }
}

/// The quantity still open across a side.
pub open spec fn side_qty(levels: Seq<LevelView>) -> int
    decreases levels.len(),
{
    if levels.len() == 0 {
        0
    } else {
        orders_qty(levels[0].orders) + side_qty(levels.drop_first())
    }
}

/// The quantity open in the best levels of a side that an order on `side`
/// at `price` crosses, up to the first level it does not.
pub open spec fn crossing_qty(levels: Seq<LevelView>, side: Side, price: i32) -> int
    decreases levels.len(),
{
    if levels.len() == 0 || !crosses(side, price, levels[0].price) {
        0
    } else {
        orders_qty(levels[0].orders) + crossing_qty(levels.drop_first(), side, price)
    }
}

/// Open quantities are never negative.
pub proof fn lemma_qty_nonnegative(levels: Seq<LevelView>, side: Side, price: i32)
    ensures
        crossing_qty(levels, side, price) >= 0,
        levels.len() > 0 ==> orders_qty(levels[0].orders) >= 0,
    decreases levels.len(),
{
    if levels.len() > 0 {
        lemma_orders_qty_nonnegative(levels[0].orders);
        lemma_qty_nonnegative(levels.drop_first(), side, price);
    }
}

/// The open quantity of a queue of orders is never negative.
pub proof fn lemma_orders_qty_nonnegative(orders: Seq<Order>)
    ensures
        orders_qty(orders) >= 0,
    decreases orders.len(),
{
    if orders.len() > 0 {
        lemma_orders_qty_nonnegative(orders.drop_first());
    }
}

/// Removing the oldest order of a crossed best level takes its quantity off
/// the side and off what crosses.
proof fn lemma_pop_best_qty(levels: Seq<LevelView>, side: Side, price: i32)
    requires
        levels.len() > 0,
        levels[0].orders.len() > 0,
        crosses(side, price, levels[0].price),
    ensures
        ({
            let h = levels[0].orders[0].remaining_qty as int;
            let after = crate::side::pop_best_model(levels);
            &&& side_qty(after) == side_qty(levels) - h
            &&& crossing_qty(after, side, price) == crossing_qty(levels, side, price) - h
        }),
{
    let orders = levels[0].orders;
    let after = crate::side::pop_best_model(levels);
    if orders.len() <= 1 {
        assert(orders_qty(orders.drop_first()) == 0);
        assert(orders_qty(orders) == orders[0].remaining_qty as int);
    } else {
        assert(after.drop_first() =~= levels.drop_first());
        assert(after[0].orders =~= orders.drop_first());
    }
}

/// Trading `qty` of the oldest order of a crossed best level takes `qty` off
/// the side and off what crosses.
proof fn lemma_fill_best_qty(levels: Seq<LevelView>, qty: u32, now: u64, side: Side, price: i32)
    requires
        levels.len() > 0,
        levels[0].orders.len() > 0,
        qty <= levels[0].orders[0].remaining_qty,
        crosses(side, price, levels[0].price),
    ensures
        ({
            let after = crate::side::fill_best_model(levels, qty, now);
            &&& side_qty(after) == side_qty(levels) - qty
            &&& crossing_qty(after, side, price) == crossing_qty(levels, side, price) - qty
        }),
{
    let after = crate::side::fill_best_model(levels, qty, now);
    assert(after.drop_first() =~= levels.drop_first());
    assert(after[0].orders.drop_first() =~= levels[0].orders.drop_first());
}

/// Quantity conservation over a whole match. The opposing side loses exactly
/// the smaller of what the incoming order has open and what it can cross.
pub proof fn theorem_opposing_quantity(
    own: Seq<LevelView>,
    opp: Seq<LevelView>,
    o: Order,
    now: u64,
)
    requires
        forall|i: int| 0 <= i < opp.len() ==> (#[trigger] opp[i]).orders.len() > 0,
    ensures
        side_qty(opp) - side_qty(place_model(own, opp, o, now).1) == min_qty_int(
            o.remaining_qty as int,
            crossing_qty(opp, o.side, o.price),
        ),
    decreases opp.len(), opp[0].orders.len(),
{
    lemma_qty_nonnegative(opp, o.side, o.price);
    if o.remaining_qty == 0 {
    } else if opp.len() == 0 || !crosses(o.side, o.price, opp[0].price) {
    } else {
        let head = opp[0].orders[0];
        let h = head.remaining_qty;
        let rest_opp = crate::side::pop_best_model(opp);
        lemma_pop_best_qty(opp, o.side, o.price);
        lemma_qty_nonnegative(rest_opp, o.side, o.price);
        if o.remaining_qty < h {
            lemma_fill_best_qty(opp, o.remaining_qty, now, o.side, o.price);
        } else if o.remaining_qty > h {
            assert forall|i: int| 0 <= i < rest_opp.len() implies (#[trigger] rest_opp[i]).orders.len()
                > 0 by {
                if opp[0].orders.len() <= 1 {
                    assert(rest_opp[i] == opp[i + 1]);
                } else if i > 0 {
                    assert(rest_opp[i] == opp[i]);
                }
            }
            theorem_opposing_quantity(own, rest_opp, o.filled(h, now), now);
        }
    }
}

/// The smaller of two integers.
pub open spec fn min_qty_int(a: int, b: int) -> int {
    if a <= b {
        a
    } else {
        b
    }
}

/// The side after its oldest best-level order leaves `n` times over: the
/// first `n` orders in priority order are gone.
pub open spec fn pop_best_n(levels: Seq<LevelView>, n: nat) -> Seq<LevelView>
    decreases n,
{
    if n == 0 {
        levels
    } else {
        pop_best_n(crate::side::pop_best_model(levels), (n - 1) as nat)
    }
}

/// `after` is `levels` with its first orders in priority order filled and
/// gone, and at most the next one partly filled at the front of its level.
pub open spec fn taken_in_priority_order(levels: Seq<LevelView>, after: Seq<LevelView>, now: u64) -> bool {
    ||| exists|n: nat| #[trigger] pop_best_n(levels, n) == after
    ||| exists|n: nat, q: u32|
        #[trigger] crate::side::fill_best_model(pop_best_n(levels, n), q, now) == after
}

/// Price-time priority over a whole match. The opposing orders that a match
/// fills are the first ones in priority order (best price first, oldest
/// first at one price); at most the next one is partly filled, and it stays
/// at the front of its level. Every other opposing order is untouched.
pub proof fn theorem_match_in_priority_order(
    own: Seq<LevelView>,
    opp: Seq<LevelView>,
    o: Order,
    now: u64,
)
    ensures
        taken_in_priority_order(opp, place_model(own, opp, o, now).1, now),
    decreases opp.len(), opp[0].orders.len(),
{
    let r = place_model(own, opp, o, now);
    if o.remaining_qty == 0 || opp.len() == 0 || !crosses(o.side, o.price, opp[0].price) {
        assert(pop_best_n(opp, 0) == r.1);
    } else {
        let head = opp[0].orders[0];
        let rest_opp = crate::side::pop_best_model(opp);
        assert(pop_best_n(opp, 1) == pop_best_n(rest_opp, 0));
        if o.remaining_qty == head.remaining_qty {
            assert(pop_best_n(opp, 1) == r.1);
        } else if o.remaining_qty < head.remaining_qty {
            assert(crate::side::fill_best_model(pop_best_n(opp, 0), o.remaining_qty, now) == r.1);
        } else {
            let o2 = o.filled(head.remaining_qty, now);
            theorem_match_in_priority_order(own, rest_opp, o2, now);
            let rec = place_model(own, rest_opp, o2, now);
            assert(rec.1 == r.1);
            if exists|n: nat| #[trigger] pop_best_n(rest_opp, n) == rec.1 {
                let n = choose|n: nat| #[trigger] pop_best_n(rest_opp, n) == rec.1;
                assert(pop_best_n(opp, n + 1) == pop_best_n(rest_opp, n));
                assert(pop_best_n(opp, n + 1) == r.1);
            } else {
                let (n, q) = choose|n: nat, q: u32|
                    #[trigger] crate::side::fill_best_model(pop_best_n(rest_opp, n), q, now) == rec.1;
                assert(pop_best_n(opp, n + 1) == pop_best_n(rest_opp, n));
                assert(crate::side::fill_best_model(pop_best_n(opp, n + 1), q, now) == r.1);
            }
        }
    }
}

/// No over-fill. A fill never raises what is open and keeps the order well
/// formed.
pub proof fn theorem_fill_never_grows(o: Order, qty: u32, now: u64)
    requires
        o.wf(),
        qty <= o.remaining_qty,
    ensures
        o.filled(qty, now).remaining_qty == o.remaining_qty - qty,
        o.filled(qty, now).remaining_qty <= o.remaining_qty,
        o.filled(qty, now).initial_qty == o.initial_qty,
        o.filled(qty, now).wf(),
{
}

/// Price-time priority. An order that crosses the best opposing level trades
/// first with that level's oldest order; an order that rests joins the back
/// of the level at its price, behind every order already there.
pub proof fn theorem_price_time_priority(b: BookView, o: Order, now: u64)
    requires
        book_wf(b),
        o.wf(),
        o.remaining_qty > 0,
    ensures
        ({
            let own = levels_of(b, o.side);
            let opp = levels_of(b, opposite(o.side));
            let r = place_model(own, opp, o, now);
            &&& opp.len() > 0 && crosses(o.side, o.price, opp[0].price) ==> {
                let head = opp[0].orders[0];
                &&& r.2.len() >= 2
                &&& {
                    ||| event_id(r.2[0]) == head.id && event_id(r.2[1]) == o.id
                    ||| event_id(r.2[0]) == o.id && event_id(r.2[1]) == head.id
                }
            }
            &&& (opp.len() == 0 || !crosses(o.side, o.price, opp[0].price)) && o.order_type
                == OrderType::GoodTilCancel ==> exists|i: int|
                0 <= i < r.0.len() && r.0[i].price == o.price && r.0[i].orders == (if has_level(
                    own,
                    o.price,
                ) {
                    own[level_index(own, o.price)].orders
                } else {
                    Seq::<Order>::empty()
                }).push(o)
        }),
{
    let own = levels_of(b, o.side);
    let opp = levels_of(b, opposite(o.side));
    let r = place_model(own, opp, o, now);
    if opp.len() > 0 && crosses(o.side, o.price, opp[0].price) {
        let head = opp[0].orders[0];
        if o.remaining_qty > head.remaining_qty {
            let rec = place_model(
                own,
                crate::side::pop_best_model(opp),
                o.filled(head.remaining_qty, now),
                now,
            );
            assert(r.2 == seq![
                OrderEvent::PartiallyFilled { id: o.id, price: opp[0].price, qty: head.remaining_qty, timestamp: now },
                OrderEvent::Filled { id: head.id, price: opp[0].price, timestamp: now },
            ] + rec.2);
        }
    } else if o.order_type == OrderType::GoodTilCancel {
        lemma_slot_exists(own, o.side, o.price);
        let k = choose|k: int| is_slot(own, o.side, o.price, k);
        lemma_slot(own, o.side, o.price, k);
        if has_level(own, o.price) {
            let i = choose|i: int| 0 <= i < own.len() && own[i].price == o.price;
            assert forall|j: int| 0 <= j < i implies ahead(o.side, #[trigger] own[j].price, o.price) by {
                assert(ahead(o.side, own[j].price, own[i].price));
            }
            assert(is_slot(own, o.side, o.price, i));
            lemma_slot(own, o.side, o.price, i);
            assert(is_first_at(own, o.price, i));
            lemma_level_index(own, o.price, i);
            assert(r.0[i].price == o.price);
        } else {
            if k < own.len() {
                assert(own[k].price != o.price);
            }
            assert(r.0[k].orders =~= Seq::<Order>::empty().push(o));
        }
    }
}

/// Quantity conservation. The first trade of an order that crosses the best
/// opposing level records the same quantity for both orders: the smaller of
/// what each had open.
pub proof fn theorem_matched_quantity(b: BookView, o: Order, now: u64)
    requires
        book_wf(b),
        o.wf(),
        o.remaining_qty > 0,
        levels_of(b, opposite(o.side)).len() > 0,
        crosses(o.side, o.price, levels_of(b, opposite(o.side))[0].price),
    ensures
        ({
            let own = levels_of(b, o.side);
            let opp = levels_of(b, opposite(o.side));
            let head = opp[0].orders[0];
            let r = place_model(own, opp, o, now);
            let m = min_qty(o.remaining_qty, head.remaining_qty);
            let (for_o, for_head) = if o.remaining_qty > head.remaining_qty {
                (r.2[0], r.2[1])
            } else {
                (r.2[1], r.2[0])
            };
            &&& r.2.len() >= 2
            &&& event_id(for_o) == o.id
            &&& event_id(for_head) == head.id
            &&& traded_qty(for_o, o.remaining_qty) == m
            &&& traded_qty(for_head, head.remaining_qty) == m
        }),
{
    let own = levels_of(b, o.side);
    let opp = levels_of(b, opposite(o.side));
    let head = opp[0].orders[0];
    if o.remaining_qty > head.remaining_qty {
        let rec = place_model(own, crate::side::pop_best_model(opp), o.filled(head.remaining_qty, now), now);
        assert(place_model(own, opp, o, now).2 == seq![
            OrderEvent::PartiallyFilled { id: o.id, price: opp[0].price, qty: head.remaining_qty, timestamp: now },
            OrderEvent::Filled { id: head.id, price: opp[0].price, timestamp: now },
        ] + rec.2);
    }
}

/// No over-fill. Every resting order has some quantity open, and never more
/// than it was placed with.
pub proof fn theorem_resting_quantities(b: BookView, side: Side, i: int, j: int)
    requires
        book_wf(b),
        0 <= i < levels_of(b, side).len(),
        0 <= j < levels_of(b, side)[i].orders.len(),
    ensures
        0 < levels_of(b, side)[i].orders[j].remaining_qty <= levels_of(b, side)[i].orders[j].initial_qty,
{
    let levels = levels_of(b, side);
    assert(level_wf(levels[i], side));
    assert(resting_ok(levels[i].orders[j], side, levels[i].price));
}

/// Cancel correctness. Canceling a resting order logs `Canceled` and takes
/// the order out of its level; the level leaves the book when the order was
/// its only one. Canceling anything else changes nothing and logs nothing.
pub proof fn theorem_cancel(b: BookView, id: usize, side: Side, price: i32)
    requires
        book_wf(b),
    ensures
        ({
            let after = command_model(b, OrderCommand::Cancel { id, side, price });
            let levels = levels_of(b, side);
            let l = levels[level_index(levels, price)];
            &&& resting_at(b, id, side, price) ==> {
                &&& after.events == b.events.push(OrderEvent::Canceled { id })
                &&& levels_of(after, opposite(side)) == levels_of(b, opposite(side))
                &&& l.orders.len() == 1 ==> !has_level(levels_of(after, side), price)
                &&& l.orders.len() > 1 ==> {
                    let i = level_index(levels_of(after, side), price);
                    &&& has_level(levels_of(after, side), price)
                    &&& levels_of(after, side)[i].orders == l.orders.remove(position_of(l.orders, id))
                }
            }
            &&& !resting_at(b, id, side, price) ==> after == b
        }),
{
    let levels = levels_of(b, side);
    let after = command_model(b, OrderCommand::Cancel { id, side, price });
    if resting_at(b, id, side, price) {
        let i0 = choose|i: int| 0 <= i < levels.len() && levels[i].price == price;
        assert forall|j: int| 0 <= j < i0 implies levels[j].price != price by {
            assert(ahead(side, levels[j].price, levels[i0].price));
        }
        assert(is_first_at(levels, price, i0));
        lemma_level_index(levels, price, i0);
        let l = levels[i0];
        lemma_position_of_exists(l.orders, id);
        let rest = levels_of(after, side);
        if l.orders.len() == 1 {
            assert(rest =~= levels.remove(i0));
            assert forall|j: int| 0 <= j < rest.len() implies rest[j].price != price by {
                if j < i0 {
                    assert(ahead(side, levels[j].price, levels[i0].price));
                } else {
                    assert(ahead(side, levels[i0].price, levels[j + 1].price));
                }
            }
        } else {
            assert forall|j: int| 0 <= j < i0 implies rest[j].price != price by {
                assert(ahead(side, levels[j].price, levels[i0].price));
            }
            assert(is_first_at(rest, price, i0));
            lemma_level_index(rest, price, i0);
        }
    }
}

/// Fill-and-kill discard. A fill-and-kill order that cannot trade on arrival
/// leaves both sides as they were, and logs nothing but its `Placed`.
pub proof fn theorem_fill_and_kill_discard(b: BookView, side: Side, price: i32, qty: u32)
    requires
        book_wf(b),
        qty > 0,
        price >= 0,
        levels_of(b, opposite(side)).len() == 0 || !crosses(
            side,
            price,
            levels_of(b, opposite(side))[0].price,
        ),
    ensures
        ({
            let after = command_model(
                b,
                OrderCommand::New { order_type: OrderType::FillAndKill, side, price, qty },
            );
            let o = new_order(b, OrderType::FillAndKill, side, price, qty);
            &&& after.bids == b.bids
            &&& after.asks == b.asks
            &&& after.events == b.events.push(
                OrderEvent::Placed {
                    id: o.id,
                    side,
                    order_type: OrderType::FillAndKill,
                    price,
                    timestamp: o.created_at,
                },
            )
        }),
{
    let after = command_model(b, OrderCommand::New { order_type: OrderType::FillAndKill, side, price, qty });
    match side {
        Side::Buy => {
            assert(after.events =~= b.events.push(
                OrderEvent::Placed {
                    id: b.next_id,
                    side,
                    order_type: OrderType::FillAndKill,
                    price,
                    timestamp: new_order(b, OrderType::FillAndKill, side, price, qty).created_at,
                },
            ) + Seq::<OrderEvent>::empty());
        },
        Side::Sell => {
            assert(after.events =~= b.events.push(
                OrderEvent::Placed {
                    id: b.next_id,
                    side,
                    order_type: OrderType::FillAndKill,
                    price,
                    timestamp: new_order(b, OrderType::FillAndKill, side, price, qty).created_at,
                },
            ) + Seq::<OrderEvent>::empty());
        },
    }
}

} // verus!
