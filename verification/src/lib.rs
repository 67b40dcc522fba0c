//! The bookkeeping core of a limit order book.
//!
//! Orders carry a side and a size and are filed under an exact price key, one
//! price level per key and side. Prices and sizes are IEEE 754 binary64
//! numbers, taken by their bit patterns and decoded in integer arithmetic, so
//! that every key is an exact function of the number it was derived from,
//! and the error with which such a number stands for a decimal price does
//! not reach the key.

pub mod binary64;
pub mod error;
pub mod price;
pub mod order;
pub mod level;
pub mod book;
pub mod replay;
