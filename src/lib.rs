pub mod engine;
pub mod orderbook;

pub use engine::{MatchingEngine, TradingPair};
pub use orderbook::{Limit, Order, OrderBook, OrderType, Price, PRICE_SCALAR};
