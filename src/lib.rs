//! A limit-order matching engine: a two-sided book of resting orders grouped
//! by price, matched under strict price-time priority.

pub mod command;
pub mod level;
pub mod order;
pub mod order_book;
pub mod side;
pub mod theorems;

pub use command::{OrderCommand, OrderEvent};
pub use level::{Level, LevelView, Limit};
pub use order::{FillError, Order, OrderType, Side};
pub use order_book::{BookView, OrderBook};
