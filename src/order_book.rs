use vstd::prelude::*;
use crate::command::{event_id, events_below, OrderCommand, OrderEvent};
use crate::level::{Level, LevelView};
use crate::order::{Order, OrderType, Side};
use crate::side::{
    cancel_in, cancel_model, find_level, ids_apart, ids_below, ids_distinct, lemma_apart_absent,
    lemma_apart_symmetric, lemma_apart_within, opposite, place_into, place_model, resting_in, rests_on,
    side_view, side_wf, uncrossed,
};

verus! {

/// The matching engine: both sides of the book, the event log, the source of
/// order ids and a logical clock.
pub struct OrderBook {
    /// Buy levels, highest price first.
    pub bids: Vec<Level>,
    /// Sell levels, lowest price first.
    pub asks: Vec<Level>,
    /// Everything that happened, in order; only ever appended to.
    events: Vec<OrderEvent>,
    /// The id the next accepted order gets; above every id used so far.
    next_id: usize,
    /// The time of the latest accepted order.
    clock: u64,
}

/// The engine as a mathematical value.
pub ghost struct BookView {
    pub bids: Seq<LevelView>,
    pub asks: Seq<LevelView>,
    pub events: Seq<OrderEvent>,
    pub next_id: usize,
    pub clock: u64,
}

impl View for OrderBook {
    type V = BookView;

    closed spec fn view(&self) -> BookView {
        BookView {
            bids: side_view(self.bids@),
            asks: side_view(self.asks@),
            events: self.events@,
            next_id: self.next_id,
            clock: self.clock,
        }
    }
}

/// Both sides are well formed, the book is not crossed, every id in the book
/// or the log is below `next_id`, and no two resting orders share an id.
pub open spec fn book_wf(b: BookView) -> bool {
    &&& side_wf(b.bids, Side::Buy)
    &&& side_wf(b.asks, Side::Sell)
    &&& uncrossed(b.bids, b.asks, Side::Buy)
    &&& ids_below(b.bids, b.next_id)
    &&& ids_below(b.asks, b.next_id)
    &&& events_below(b.events, b.next_id)
    &&& ids_distinct(b.bids)
    &&& ids_distinct(b.asks)
    &&& ids_apart(b.bids, b.asks)
}

/// No resting order and no logged event has this id.
pub open spec fn id_unused(b: BookView, id: usize) -> bool {
    &&& !rests_on(b.bids, id)
    &&& !rests_on(b.asks, id)
    &&& forall|k: int| 0 <= k < b.events.len() ==> event_id(#[trigger] b.events[k]) != id
}

/// Every id at or above `next_id` is unused in a well-formed book.
pub proof fn lemma_fresh_ids_unused(b: BookView, id: usize)
    requires
        book_wf(b),
        id >= b.next_id,
    ensures
        id_unused(b, id),
{
    assert forall|i: int, j: int|
        0 <= i < b.bids.len() && 0 <= j < b.bids[i].orders.len() implies (
        #[trigger] b.bids[i].orders[j]).id != id by {}
    assert forall|i: int, j: int|
        0 <= i < b.asks.len() && 0 <= j < b.asks[i].orders.len() implies (
        #[trigger] b.asks[i].orders[j]).id != id by {}
}

/// Whenever both sides hold levels, the best bid is below the best ask.
pub open spec fn best_bid_below_best_ask(b: BookView) -> bool {
    b.bids.len() > 0 && b.asks.len() > 0 ==> b.bids[0].price < b.asks[0].price
}

/// The clock after one tick; it stops at its largest value.
pub open spec fn next_tick(clock: u64) -> u64 {
    if clock < u64::MAX {
        (clock + 1) as u64
    } else {
        clock
    }
}

/// The levels of `side`.
pub open spec fn levels_of(b: BookView, side: Side) -> Seq<LevelView> {
    match side {
        Side::Buy => b.bids,
        Side::Sell => b.asks,
    }
}

/// `b` with the levels of `side` replaced.
pub open spec fn with_levels(b: BookView, side: Side, levels: Seq<LevelView>) -> BookView {
    match side {
        Side::Buy => BookView { bids: levels, ..b },
        Side::Sell => BookView { asks: levels, ..b },
    }
}

/// The book after `o` is matched and rested or dropped at time `now`.
pub open spec fn matched_model(b: BookView, o: Order, now: u64) -> BookView {
    let r = place_model(levels_of(b, o.side), levels_of(b, opposite(o.side)), o, now);
    let b1 = with_levels(with_levels(b, o.side, r.0), opposite(o.side), r.1);
    BookView { events: b.events + r.2, ..b1 }
}

/// The book after `place_order(o)`: ids up to `o.id` count as used, the clock
/// ticks, then `o` is matched.
pub open spec fn place_order_model(b: BookView, o: Order) -> BookView {
    let now = next_tick(b.clock);
    matched_model(BookView { clock: now, next_id: (o.id + 1) as usize, ..b }, o, now)
}

/// The order that a `New` command creates in `b`.
pub open spec fn new_order(b: BookView, order_type: OrderType, side: Side, price: i32, qty: u32) -> Order {
    let now = next_tick(b.clock);
    Order {
        id: b.next_id,
        order_type,
        side,
        price,
        initial_qty: qty,
        remaining_qty: qty,
        created_at: now,
        updated_at: now,
    }
}

/// The book after a `New` command: nothing happens for a zero quantity or a
/// negative price; otherwise the order takes the next id and time, `Placed`
/// is logged, and the order is matched.
pub open spec fn new_model(b: BookView, order_type: OrderType, side: Side, price: i32, qty: u32) -> BookView {
    if qty == 0 || price < 0 {
        b
    } else {
        let o = new_order(b, order_type, side, price, qty);
        let placed = OrderEvent::Placed { id: o.id, side, order_type, price, timestamp: o.created_at };
        let b1 = BookView {
            events: b.events.push(placed),
            next_id: (b.next_id + 1) as usize,
            clock: o.created_at,
            ..b
        };
        matched_model(b1, o, o.created_at)
    }
}

/// The resting order `id` sits in the level at `price` on `side`.
pub open spec fn resting_at(b: BookView, id: usize, side: Side, price: i32) -> bool {
    resting_in(levels_of(b, side), id, price)
}

/// The book after a `Cancel` command: the order leaves its level, an emptied
/// level leaves its side, and `Canceled` is logged; nothing happens when the
/// order is not resting there.
pub open spec fn remove_model(b: BookView, id: usize, side: Side, price: i32) -> BookView {
    if resting_at(b, id, side, price) {
        let b1 = with_levels(b, side, cancel_model(levels_of(b, side), id, price));
        BookView { events: b.events.push(OrderEvent::Canceled { id }), ..b1 }
    } else {
        b
    }
}

/// The command hands out an order id: it is an accepted `New`, or a `Modify`
/// of a resting order whose replacement is accepted.
pub open spec fn draws_id(b: BookView, command: OrderCommand) -> bool {
    match command {
        OrderCommand::New { qty, price, .. } => qty > 0 && price >= 0,
        OrderCommand::Cancel { .. } => false,
        OrderCommand::Modify { id, side, price, qty, .. } => resting_at(b, id, side, price) && qty > 0
            && price >= 0,
    }
}

/// The book after any command.
pub open spec fn command_model(b: BookView, command: OrderCommand) -> BookView {
    match command {
        OrderCommand::New { order_type, side, price, qty } => new_model(b, order_type, side, price, qty),
        OrderCommand::Cancel { id, side, price } => remove_model(b, id, side, price),
        OrderCommand::Modify { id, side, price, qty, order_type } => {
            if resting_at(b, id, side, price) {
                new_model(remove_model(b, id, side, price), order_type, side, price, qty)
            } else {
                b
            }
        },
    }
}

impl OrderBook {
    /// Everything that happened, in order.
    pub fn events(&self) -> (r: &Vec<OrderEvent>)
        ensures
            r@ == self@.events,
    {
        &self.events
    }

    /// The id the next accepted order gets.
    pub fn next_id(&self) -> (r: usize)
        ensures
            r == self@.next_id,
    {
        self.next_id
    }

    /// The engine's invariant.
    pub open spec fn wf(&self) -> bool {
        book_wf(self@)
    }

    /// An empty book; ids start at 1.
    pub fn new() -> (r: OrderBook)
        ensures
            r@ == (BookView {
                bids: Seq::empty(),
                asks: Seq::empty(),
                events: Seq::empty(),
                next_id: 1,
                clock: 0,
            }),
            r.wf(),
    {
        let r = OrderBook {
            bids: Vec::new(),
            asks: Vec::new(),
            events: Vec::new(),
            next_id: 1,
            clock: 0,
        };
        assert(r@.bids =~= Seq::empty());
        assert(r@.asks =~= Seq::empty());
        r
    }

    /// Advances the clock and returns the new time.
    fn tick(&mut self) -> (now: u64)
        ensures
            now == next_tick(old(self).clock),
            *final(self) == (OrderBook { clock: now, ..*old(self) }),
    {
        if self.clock < u64::MAX {
            self.clock = self.clock + 1;
        }
        self.clock
    }

    /// Matches `order` at time `now`, then rests or drops what is left.
    fn match_order(&mut self, order: Order, now: u64)
        requires
            old(self).wf(),
            order.wf(),
            order.id < old(self).next_id,
            !rests_on(old(self)@.bids, order.id),
            !rests_on(old(self)@.asks, order.id),
        ensures
            final(self)@ == matched_model(old(self)@, order, now),
            final(self).wf(),
    {
        match order.side {
            Side::Buy => {
                place_into(&mut self.bids, &mut self.asks, &mut self.events, order, now, Ghost(self.next_id));
            },
            Side::Sell => {
                proof {
                    lemma_apart_symmetric(self@.bids, self@.asks);
                }
                place_into(&mut self.asks, &mut self.bids, &mut self.events, order, now, Ghost(self.next_id));
            },
        }
        proof {
            if order.side == Side::Sell {
                lemma_apart_symmetric(self@.asks, self@.bids);
            }
        }
        assert(self@ =~= matched_model(old(self)@, order, now));
    }

    /// Places `order` directly, under an id that the book has not used: the
    /// ids up to it count as used, the clock ticks, then the order is matched
    /// against the other side and what is left of it rests or is dropped.
    pub fn place_order(&mut self, order: Order)
        requires
            old(self).wf(),
            order.wf(),
            old(self)@.next_id <= order.id < usize::MAX,
        ensures
            final(self)@ == place_order_model(old(self)@, order),
            final(self).wf(),
            best_bid_below_best_ask(final(self)@),
            id_unused(old(self)@, order.id),
    {
        proof {
            lemma_fresh_ids_unused(self@, order.id);
        }
        self.next_id = order.id + 1;
        let now = self.tick();
        self.match_order(order, now);
    }

    /// Submits a new order.
    fn submit(&mut self, order_type: OrderType, side: Side, price: i32, qty: u32)
        requires
            old(self).wf(),
            qty > 0 && price >= 0 ==> old(self)@.next_id < usize::MAX,
        ensures
            final(self)@ == new_model(old(self)@, order_type, side, price, qty),
            final(self).wf(),
    {
        if qty == 0 || price < 0 {
            return;
        }
        let now = self.tick();
        let order = Order::new(self.next_id, order_type, side, price, qty, now);
        self.next_id = self.next_id + 1;
        self.events.push(
            OrderEvent::Placed { id: order.id, side, order_type, price, timestamp: order.created_at },
        );
        self.match_order(order, now);
    }

    /// Withdraws the resting order `id` from the level at `price` on `side`.
    fn remove_order(&mut self, id: usize, price: i32, side: Side)
        requires
            old(self).wf(),
        ensures
            final(self)@ == remove_model(old(self)@, id, side, price),
            final(self).wf(),
            resting_at(old(self)@, id, side, price) ==> !rests_on(final(self)@.bids, id) && !rests_on(
                final(self)@.asks,
                id,
            ),
    {
        let removed = match side {
            Side::Buy => cancel_in(&mut self.bids, Side::Buy, id, price, Ghost(self.next_id)),
            Side::Sell => cancel_in(&mut self.asks, Side::Sell, id, price, Ghost(self.next_id)),
        };
        proof {
            let b0 = old(self)@;
            match side {
                Side::Buy => {
                    lemma_apart_within(self@.bids, b0.bids, b0.asks);
                    if removed {
                        lemma_apart_absent(b0.bids, b0.asks, id);
                    }
                },
                Side::Sell => {
                    lemma_apart_symmetric(b0.bids, b0.asks);
                    lemma_apart_within(self@.asks, b0.asks, b0.bids);
                    lemma_apart_symmetric(self@.asks, self@.bids);
                    if removed {
                        lemma_apart_absent(b0.asks, b0.bids, id);
                    }
                },
            }
        }
        if removed {
            self.events.push(OrderEvent::Canceled { id });
        }
        assert(self@ =~= remove_model(old(self)@, id, side, price));
    }

    /// Whether the resting order `id` sits in the level at `price` on `side`.
    fn is_resting(&self, id: usize, side: Side, price: i32) -> (r: bool)
        ensures
            r == resting_at(self@, id, side, price),
    {
        let levels = match side {
            Side::Buy => &self.bids,
            Side::Sell => &self.asks,
        };
        match find_level(levels, price) {
            Some(i) => {
                proof {
                    crate::side::lemma_level_index(side_view(levels@), price, i as int);
                }
                levels[i].find_by_id(id).is_some()
            },
            None => false,
        }
    }

    /// Runs one command to completion, appending what happened to the log.
    /// An order it creates takes `next_id`, which no resting order and no
    /// earlier event has. A cancel that takes an order out leaves no order
    /// with that id in the book.
    pub fn process_command(&mut self, command: OrderCommand)
        requires
            old(self).wf(),
            draws_id(old(self)@, command) ==> old(self)@.next_id < usize::MAX,
        ensures
            final(self)@ == command_model(old(self)@, command),
            final(self).wf(),
            best_bid_below_best_ask(final(self)@),
            old(self)@.events.is_prefix_of(final(self)@.events),
            id_unused(old(self)@, old(self)@.next_id),
            match command {
                OrderCommand::Cancel { id, side, price } => resting_at(old(self)@, id, side, price)
                    ==> !rests_on(final(self)@.bids, id) && !rests_on(final(self)@.asks, id),
                _ => true,
            },
    {
        proof {
            lemma_fresh_ids_unused(self@, self@.next_id);
        }
        match command {
            OrderCommand::New { order_type, side, price, qty } => {
                self.submit(order_type, side, price, qty);
            },
            OrderCommand::Cancel { id, side, price } => {
                self.remove_order(id, price, side);
            },
            OrderCommand::Modify { id, side, price, qty, order_type } => {
                if self.is_resting(id, side, price) {
                    self.remove_order(id, price, side);
                    self.submit(order_type, side, price, qty);
                }
            },
        }
    }
}

} // verus!
