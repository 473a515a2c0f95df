use vstd::prelude::*;

verus! {

/// What the engine answers to one request.
#[derive(Debug, PartialEq, Eq)]
pub enum MatchingResult {
    /// The request now rests in its own side's book.
    Queued,
    /// The request was matched; the ids of the drained resting orders, in
    /// priority order.
    Executed(Vec<u64>),
    /// The request could not be filled in full; nothing changed.
    Cancelled,
    /// The engine does not implement this kind of request; nothing changed.
    UnsupportedRequestType,
}

/// The side of a request: `Ask` sells, `Bid` buys.
#[derive(Debug, Clone, Copy, PartialEq, Eq, Structural)]
pub enum Side {
    Ask,
    Bid,
}

/// How a request is to be executed.
#[derive(Debug, Clone, Copy, PartialEq, Eq, Structural)]
pub enum RequestType {
    /// Rests in the book of its own side.
    Limit,
    /// Executes in full against the opposite book, or not at all.
    FillOrKill,
    /// Executes what it can and drops the rest; not implemented by the engine.
    ImmediateOrCancel,
}

/// An incoming request.
#[derive(Debug, Clone, Copy, PartialEq, Eq, Structural)]
pub struct Request {
    pub side: Side,
    pub price: u64,
    pub size: u64,
    pub user_id: u64,
    pub request_type: RequestType,
}

} // verus!
