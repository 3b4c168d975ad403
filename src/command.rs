use vstd::prelude::*;
use crate::order::{OrderType, Side};

verus! {

/// What a caller asks of the engine.
#[derive(Debug, Clone, Copy, PartialEq, Eq, Structural)]
pub enum OrderCommand {
    /// Submit a new order.
    New { order_type: OrderType, side: Side, price: i32, qty: u32 },
    /// Withdraw the resting order `id` from the level at `price` on `side`.
    Cancel { id: usize, side: Side, price: i32 },
    /// Cancel the resting order `id`, then submit a new order in its place.
    Modify { id: usize, side: Side, price: i32, qty: u32, order_type: OrderType },
}

/// What the engine records of the work it did.
#[derive(Debug, Clone, Copy, PartialEq, Eq, Structural)]
pub enum OrderEvent {
    /// A new order was accepted.
    Placed { id: usize, side: Side, order_type: OrderType, price: i32, timestamp: u64 },
    /// A resting order was withdrawn.
    Canceled { id: usize },
    /// `qty` of the order traded at `price`; some of it is still open.
    PartiallyFilled { id: usize, price: i32, qty: u32, timestamp: u64 },
    /// The rest of the order traded at `price`.
    Filled { id: usize, price: i32, timestamp: u64 },
}

/// The id an event is about.
pub open spec fn event_id(e: OrderEvent) -> usize {
    match e {
        OrderEvent::Placed { id, .. } => id,
        OrderEvent::Canceled { id } => id,
        OrderEvent::PartiallyFilled { id, .. } => id,
        OrderEvent::Filled { id, .. } => id,
    }
}

/// Every event in `events` is about an id below `bound`.
pub open spec fn events_below(events: Seq<OrderEvent>, bound: usize) -> bool {
    forall|k: int| 0 <= k < events.len() ==> event_id(#[trigger] events[k]) < bound
}

} // verus!
