//! Shared and weak pointers, as far as the table needs them.
//!
//! Nothing is claimed of what a weak pointer resolves to: whether the value is
//! still held somewhere is decided by whoever holds the handles, and the table
//! checks for itself what it is given back.

use std::sync::Arc;
use std::sync::Weak;
use vstd::prelude::*;

verus! {

/// A `std::sync::Weak<T>`: an observer of a shared value that does not keep it
/// alive.
#[verifier::external_body]
#[verifier::reject_recursive_types(T)]
pub(crate) struct WeakRef<T> {
    inner: Weak<T>,
}

/// `Arc::downgrade`: a new weak pointer to the allocation behind `a`.
#[verifier::external_body]
pub(crate) fn downgrade<T>(a: &Arc<T>) -> (w: WeakRef<T>) {
    WeakRef { inner: Arc::downgrade(a) }
}

/// `Weak::upgrade`: a shared pointer to the observed value if someone still
/// holds one, `None` otherwise.
#[verifier::external_body]
pub(crate) fn upgrade<T>(w: &WeakRef<T>) -> (a: Option<Arc<T>>) {
    w.inner.upgrade()
}

/// `Arc::clone`: one more pointer to the same allocation, hence to the same
/// value.
#[verifier::external_body]
pub(crate) fn share<T>(a: &Arc<T>) -> (r: Arc<T>)
    ensures
        r == *a,
{
    Arc::clone(a)
}

} // verus!
