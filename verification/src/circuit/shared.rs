use std::rc::Rc;

use vstd::prelude::*;

verus! {

/// Another handle on the value behind `r` (`Rc::clone`): it shares the same
/// allocation, so it is the same value.
#[verifier::external_body]
pub fn share_rc<T>(r: &Rc<T>) -> (s: Rc<T>)
    ensures
        *s == **r,
{
    Rc::clone(r)
}

} // verus!
