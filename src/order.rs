use vstd::prelude::*;

verus! {

/// How long an order may stay in the book.
#[derive(Debug, Clone, Copy, PartialEq, Eq, Structural)]
pub enum OrderType {
    /// Executes against what is available now; any remainder is discarded.
    FillAndKill,
    /// Rests in the book until it is filled or canceled.
    GoodTilCancel,
}

/// The side of the book an order belongs to.
#[derive(Debug, Clone, Copy, PartialEq, Eq, Structural)]
pub enum Side {
    Buy,
    Sell,
}

/// Why a fill was refused.
#[derive(Debug, Clone, Copy, PartialEq, Eq, Structural)]
pub enum FillError {
    /// The fill asked for more than the order has left.
    InsufficientQuantity,
}

/// A single order: its identity and how much of it is still open.
#[derive(Debug, Clone, Copy, PartialEq, Eq, Structural)]
pub struct Order {
    pub id: usize,
    pub order_type: OrderType,
    pub side: Side,
    pub price: i32,
    pub initial_qty: u32,
    pub remaining_qty: u32,
    pub created_at: u64,
    pub updated_at: u64,
}

/// The later of two instants.
pub open spec fn later(a: u64, b: u64) -> u64 {
    if a >= b {
        a
    } else {
        b
    }
}

impl Order {
    /// Never more open than was asked for, and never updated before it was made.
    pub open spec fn wf(self) -> bool {
        &&& self.remaining_qty <= self.initial_qty
        &&& self.created_at <= self.updated_at
    }

    /// The order after `qty` more of it has traded at time `now`.
    pub open spec fn filled(self, qty: u32, now: u64) -> Order {
        Order {
            remaining_qty: (self.remaining_qty - qty) as u32,
            updated_at: later(now, self.updated_at),
            ..self
        }
    }

    /// A fresh, untouched order for `qty` at `price`, made at time `now`.
    pub fn new(
        id: usize,
        order_type: OrderType,
        side: Side,
        price: i32,
        qty: u32,
        now: u64,
    ) -> (r: Order)
        ensures
            r == (Order {
                id,
                order_type,
                side,
                price,
                initial_qty: qty,
                remaining_qty: qty,
                created_at: now,
                updated_at: now,
            }),
            r.wf(),
    {
        Order {
            id,
            order_type,
            side,
            price,
            initial_qty: qty,
            remaining_qty: qty,
            created_at: now,
            updated_at: now,
        }
    }

    /// Trades `qty` of this order at time `now`, in place, and hands back the
    /// new state. The update time never moves backwards.
    pub fn fill(&mut self, qty: u32, now: u64) -> (r: Result<Order, FillError>)
        ensures
            qty > old(self).remaining_qty ==> {
                &&& r == Err::<Order, FillError>(FillError::InsufficientQuantity)
                &&& *final(self) == *old(self)
            },
            qty <= old(self).remaining_qty ==> {
                &&& *final(self) == old(self).filled(qty, now)
                &&& r == Ok::<Order, FillError>(*final(self))
            },
            old(self).wf() ==> final(self).wf(),
    {
        if qty > self.remaining_qty {
            return Err(FillError::InsufficientQuantity);
        }
        self.remaining_qty = self.remaining_qty - qty;
        if now > self.updated_at {
            self.updated_at = now;
        }
        Ok(*self)
    }
}

} // verus!
