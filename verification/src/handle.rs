//! The handle: a shared, immutable value together with its identifier.

use crate::weak::share;
use std::cmp::Ordering;
use std::hash::Hash;
use std::hash::Hasher;
use std::sync::Arc;
use vstd::prelude::*;
use vstd::std_specs::cmp::PartialEqSpecImpl;
use vstd::std_specs::cmp::PartialOrdSpecImpl;

verus! {

/// A hash-consed value.
///
/// Cloning shares the value. Equality, order and hash go by the identifier
/// alone and never look at the value, so they only mean something among the
/// handles of one table.
#[derive(Debug)]
pub struct HConsed<T> {
    elm: Arc<T>,
    uid: u64,
}

impl<T> HConsed<T> {
    /// The value behind the handle.
    pub closed spec fn spec_get(&self) -> &T {
        &*self.elm
    }

    /// The identifier of the handle.
    pub closed spec fn spec_uid(&self) -> u64 {
        self.uid
    }

    /// Wraps a shared value and its identifier.
    pub(crate) fn new(elm: Arc<T>, uid: u64) -> (h: Self)
        ensures
            *h.get() == *elm,
            h.uid() == uid,
    {
        HConsed { elm, uid }
    }

    /// The value behind a handle is a smaller thing than the handle, so that a
    /// recursion over a value may step through the handles inside it.
    pub proof fn lemma_value_is_smaller(&self)
        ensures
            decreases_to!(self => self.get()),
    {
    }

    /// Borrows the value. There is no way to borrow it mutably.
    #[verifier::when_used_as_spec(spec_get)]
    pub fn get(&self) -> (r: &T)
        ensures
            r == self.spec_get(),
    {
        &*self.elm
    }

    /// The identifier.
    #[verifier::when_used_as_spec(spec_uid)]
    pub fn uid(&self) -> (u: u64)
        ensures
            u == self.spec_uid(),
    {
        self.uid
    }
}

impl<T> Clone for HConsed<T> {
    /// One more handle on the same value, with the same identifier.
    fn clone(&self) -> (r: Self)
        ensures
            r == *self,
    {
        HConsed { elm: share(&self.elm), uid: self.uid }
    }
}

impl<T> PartialEq for HConsed<T> {
    fn eq(&self, other: &Self) -> (b: bool) {
        self.uid == other.uid
    }
}

impl<T> PartialEqSpecImpl for HConsed<T> {
    open spec fn obeys_eq_spec() -> bool {
        true
    }

    open spec fn eq_spec(&self, other: &Self) -> bool {
        self.uid() == other.uid()
    }
}

impl<T> Eq for HConsed<T> {

}

impl<T> PartialOrd for HConsed<T> {
    fn partial_cmp(&self, other: &Self) -> (o: Option<Ordering>) {
        if self.uid < other.uid {
            Some(Ordering::Less)
        } else if self.uid == other.uid {
            Some(Ordering::Equal)
        } else {
            Some(Ordering::Greater)
        }
    }
}

impl<T> PartialOrdSpecImpl for HConsed<T> {
    open spec fn obeys_partial_cmp_spec() -> bool {
        true
    }

    open spec fn partial_cmp_spec(&self, other: &Self) -> Option<Ordering> {
        if self.uid() < other.uid() {
            Some(Ordering::Less)
        } else if self.uid() == other.uid() {
            Some(Ordering::Equal)
        } else {
            Some(Ordering::Greater)
        }
    }
}

impl<T> Ord for HConsed<T> {
    /// `u64::cmp` on the identifiers: the values are not compared.
    #[verifier::external_body]
    fn cmp(&self, other: &Self) -> (o: Ordering) {
        self.uid.cmp(&other.uid)
    }
}

impl<T> Hash for HConsed<T> {
    /// `Hasher::write_u64` on the identifier: the value is not hashed.
    #[verifier::external_body]
    fn hash<H: Hasher>(&self, state: &mut H) {
        state.write_u64(self.uid)
    }
}

} // verus!
