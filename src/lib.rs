//! An in-memory order-matching engine with price-time priority.
//!
//! Two books (asks and bids) are kept sorted by their side's priority; each
//! request is either queued, executed against resting liquidity, or refused.

pub mod collections;
pub mod dto;
pub mod matcher;
pub mod models;

pub use collections::{Ranked, SortedVec};
pub use models::{AsksOrder, BidsOrder, Order, Resting};
pub use matcher::Matcher;
pub use dto::{MatchingResult, Request, RequestType, Side};


