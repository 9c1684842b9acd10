//! Lobster implements a single-threaded limit order book. Create an order
//! book instance and send orders for execution:
//!
//! ```rust
//! use lobster::{OrderBook, OrderEvent, OrderType, Side};
//!
//! let mut ob = OrderBook::default();
//! let event = ob.execute(OrderType::Market { id: 0, qty: 1, side: Side::Bid });
//! assert_eq!(event, OrderEvent::Unfilled { id: 0 });
//! ```
//!
//! Lobster only deals in integer price points and quantities. Prices and
//! quantities are represented as unsigned 64-bit integers. If the traded
//! instrument supports fractional prices and quantities, the conversion needs
//! to be handled by the user. Lobster does not support negative prices.

pub mod arena;
pub mod laws;
pub mod models;
pub mod orderbook;
pub mod ordermap;

pub use models::{BookDepth, BookLevel, FillMetadata, LimitOrder, OrderEvent, OrderType, Side, Trade};
pub use orderbook::OrderBook;
