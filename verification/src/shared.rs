use vstd::prelude::*;

use std::sync::Arc;

verus! {

/// Calls `Arc::clone`, which, as std documents, returns a new pointer to the
/// same allocation; the contract states that the pointee is the same value.
#[verifier::external_body]
pub fn arc_clone<T>(a: &Arc<T>) -> (r: Arc<T>)
    ensures
        *r == **a,
{
    Arc::clone(a)
}

/// Calls `Arc::try_unwrap`, which, as std documents, gives back the inner
/// value when the `Arc` is its only strong reference, and otherwise the same
/// `Arc`; the contract states that either way the value is the pointee.
#[verifier::external_body]
pub fn arc_try_unwrap<T>(a: Arc<T>) -> (r: Result<T, Arc<T>>)
    ensures
        r matches Ok(v) ==> v == *a,
        r matches Err(b) ==> *b == *a,
{
    Arc::try_unwrap(a)
}

} // verus!
