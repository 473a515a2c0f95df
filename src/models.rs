use vstd::prelude::*;

use crate::collections::Ranked;
use crate::dto::Request;

verus! {

/// An accepted request with the sequence id the engine gave it on arrival.
#[derive(Debug, Clone, Copy, PartialEq, Eq, Structural)]
pub struct Order {
    pub id: u64,
    pub request: Request,
}

impl Order {
    pub fn new(id: u64, request: Request) -> (r: Self)
        ensures
            r.id == id,
            r.request == request,
    {
        Self { id, request }
    }
}

/// Something that holds an order.
pub trait Resting {
    /// The order held.
    spec fn held(&self) -> Order;

    fn order(&self) -> (r: &Order)
        ensures
            *r == self.held(),
    ;
}

/// An order resting in the ask book: cheapest first, then earliest.
#[derive(Debug, Clone, Copy)]
pub struct AsksOrder(pub Order);

/// An order resting in the bid book: dearest first, then earliest.
#[derive(Debug, Clone, Copy)]
pub struct BidsOrder(pub Order);

impl Resting for AsksOrder {
    open spec fn held(&self) -> Order {
        self.0
    }

    fn order(&self) -> (r: &Order) {
        &self.0
    }
}

impl Resting for BidsOrder {
    open spec fn held(&self) -> Order {
        self.0
    }

    fn order(&self) -> (r: &Order) {
        &self.0
    }
}

impl Ranked for AsksOrder {
    /// Ascending price, then ascending id.
    open spec fn rank(&self) -> (int, int) {
        (self.0.request.price as int, self.0.id as int)
    }

    fn ranks_before(&self, other: &Self) -> (r: bool) {
        let a = &self.0;
        let b = &other.0;
        a.request.price < b.request.price || (a.request.price == b.request.price && a.id < b.id)
    }
}

impl Ranked for BidsOrder {
    /// Descending price, then ascending id.
    open spec fn rank(&self) -> (int, int) {
        (-(self.0.request.price as int), self.0.id as int)
    }

    fn ranks_before(&self, other: &Self) -> (r: bool) {
        let a = &self.0;
        let b = &other.0;
        a.request.price > b.request.price || (a.request.price == b.request.price && a.id < b.id)
    }
}

} // verus!
