//! The traits shared by every kind of order.
use vstd::prelude::*;

use crate::partial_order::PartialOrder;

verus! {

/// An order over the elements `0..elements()`.
pub trait Order: Sized {
    /// The number of elements that can be in this order.
    fn elements(&self) -> usize;

    /// The number of elements currently part of this order.
    spec fn order_len(&self) -> nat;

    /// The number of elements currently part of this order.
    fn len(&self) -> (res: usize)
        ensures
            res == self.order_len(),
    ;

    /// Shorthand for `self.len() == 0`.
    fn is_empty(&self) -> (res: bool)
        ensures
            res == (self.order_len() == 0),
    {
        self.len() == 0
    }

    /// An `elements() × elements()` matrix fits in memory.
    spec fn matrix_fits(&self) -> bool;

    /// The order as a `PartialOrder`.
    fn to_partial(self) -> PartialOrder
        requires
            self.matrix_fits(),
    ;
}

/// An owned order that can be borrowed as a reference type.
pub trait OrderOwned<'a> {
    type Ref;

    fn as_ref(&'a self) -> Self::Ref;
}

/// A borrowed order that can be copied into an owned order.
pub trait OrderRef {
    type Owned;

    fn to_owned(self) -> Self::Owned;
}

} // verus!
