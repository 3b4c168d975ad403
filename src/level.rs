use vstd::prelude::*;
use std::collections::VecDeque;
use crate::order::Order;

verus! {

/// All resting orders at one price on one side, oldest first.
#[derive(Debug, Clone)]
pub struct Level {
    pub price: i32,
    pub orders: VecDeque<Order>,
}

/// Another name for a price level.
pub type Limit = Level;

/// A price level as a mathematical value.
pub ghost struct LevelView {
    pub price: i32,
    pub orders: Seq<Order>,
}

impl View for Level {
    type V = LevelView;

    open spec fn view(&self) -> LevelView {
        LevelView { price: self.price, orders: self.orders@ }
    }
}

/// `k` is the first position in `orders` of an order with this id.
pub open spec fn is_first_with_id(orders: Seq<Order>, id: usize, k: int) -> bool {
    &&& 0 <= k < orders.len()
    &&& orders[k].id == id
    &&& forall|j: int| 0 <= j < k ==> orders[j].id != id
}

/// Some order in `orders` has this id.
pub open spec fn holds_id(orders: Seq<Order>, id: usize) -> bool {
    exists|j: int| 0 <= j < orders.len() && orders[j].id == id
}

/// The first position of an order with this id (meaningful when `holds_id`).
pub open spec fn position_of(orders: Seq<Order>, id: usize) -> int {
    choose|k: int| is_first_with_id(orders, id, k)
}

/// The first position of an id is unique.
pub proof fn lemma_first_with_id_unique(orders: Seq<Order>, id: usize, a: int, b: int)
    requires
        is_first_with_id(orders, id, a),
        is_first_with_id(orders, id, b),
    ensures
        a == b,
{
}

/// Once a first position `k` is known, `position_of` is `k`.
pub proof fn lemma_position_of(orders: Seq<Order>, id: usize, k: int)
    requires
        is_first_with_id(orders, id, k),
    ensures
        position_of(orders, id) == k,
        holds_id(orders, id),
{
    let p = position_of(orders, id);
    assert(is_first_with_id(orders, id, p));
    lemma_first_with_id_unique(orders, id, p, k);
}

/// When some order has this id, `position_of` is its first position.
pub proof fn lemma_position_of_exists(orders: Seq<Order>, id: usize)
    requires
        holds_id(orders, id),
    ensures
        is_first_with_id(orders, id, position_of(orders, id)),
    decreases orders.len(),
{
    if orders[0].id == id {
        lemma_position_of(orders, id, 0);
    } else {
        let rest = orders.drop_first();
        let j = choose|j: int| 0 <= j < orders.len() && orders[j].id == id;
        assert(rest[j - 1].id == id);
        lemma_position_of_exists(rest, id);
        let p = position_of(rest, id);
        assert forall|k: int| 0 <= k < p + 1 implies orders[k].id != id by {
            if k > 0 {
                assert(orders[k] == rest[k - 1]);
            }
        }
        lemma_position_of(orders, id, p + 1);
    }
}

impl Level {
    /// An empty level at `price`.
    pub fn new(price: i32) -> (r: Level)
        ensures
            r@ == (LevelView { price, orders: Seq::<Order>::empty() }),
    {
        Level { price, orders: VecDeque::new() }
    }

    /// The position of the first order with this id, if any.
    pub fn find_by_id(&self, id: usize) -> (r: Option<usize>)
        ensures
            match r {
                Some(k) => is_first_with_id(self.orders@, id, k as int),
                None => !holds_id(self.orders@, id),
            },
    {
        let n = self.orders.len();
        let mut i: usize = 0;
        while i < n
            invariant
                n == self.orders@.len(),
                i <= n,
                forall|j: int| 0 <= j < i ==> self.orders@[j].id != id,
            decreases n - i,
        {
            if self.orders[i].id == id {
                return Some(i);
            }
            i = i + 1;
        }
        None
    }

    /// Removes the first order with this id; says whether there was one.
    pub fn remove_order_by_id(&mut self, id: usize) -> (r: bool)
        ensures
            r == holds_id(old(self).orders@, id),
            r ==> is_first_with_id(old(self).orders@, id, position_of(old(self).orders@, id)),
            final(self).price == old(self).price,
            r ==> final(self).orders@ == old(self).orders@.remove(
                position_of(old(self).orders@, id),
            ),
            !r ==> final(self).orders@ == old(self).orders@,
    {
        match self.find_by_id(id) {
            Some(k) => {
                proof {
                    lemma_position_of(self.orders@, id, k as int);
                }
                let removed = self.orders.remove(k);
                removed.is_some()
            },
            None => false,
        }
    }
}

} // verus!
