//! Shared values.
use std::rc::Rc;
use vstd::prelude::*;

verus! {

/// The value itself.
pub open spec fn pointee<T>(x: Rc<T>) -> T {
    *x
}

/// `Rc::clone`: a second owner of the same value.
#[verifier::external_body]
pub(crate) fn share<T>(x: &Rc<T>) -> (r: Rc<T>)
    ensures
        r == *x,
{
    Rc::clone(x)
}

/// A second owner of the same value, where there is one.
pub(crate) fn share_option<T>(x: &Option<Rc<T>>) -> (r: Option<Rc<T>>)
    ensures
        r == *x,
{
    match x {
        Some(y) => Some(share(y)),
        None => None,
    }
}

} // verus!
