//! An in-memory quote book with price and time priority.
//!
//! For every tradable symbol the book keeps the resting quotes sorted from
//! the highest price down, earlier quotes first among equal prices, and an
//! index from quote identifier to the slot a quote rests in. Trades are
//! executed against the best quotes that can trade; quotes that cannot are
//! evicted when a lookup meets them.
//!
//! [`QuoteManager`] is the book itself. [`book`] and [`matching`] hold the
//! mathematical model its contracts are written in, and [`laws`] what is
//! proved of that model.

pub mod book;
pub mod clock;
mod indexed_book;
pub mod laws;
pub mod manager;
pub mod matching;
pub mod quote;
pub mod symbol;
pub mod trade;

pub use crate::clock::Timestamp;
pub use crate::manager::{QuoteManager, QuotePosObj};
pub use crate::quote::Quote;
pub use crate::symbol::TradingSymbol;
pub use crate::trade::{AveragePrice, TradingResult};
