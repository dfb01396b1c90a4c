//! What a value type offers to be hash-consed.
//!
//! The view of a value is its *shape*: the value as the table sees it, in which
//! an embedded handle counts as its identifier and nothing more. Two values are
//! structurally equal when their shapes are equal.

use vstd::prelude::*;

verus! {

/// A value type that a table can hash-cons.
///
/// Comparing and hashing go by the shape alone, so an implementation looks at
/// the identifiers of embedded handles and never walks into them.
pub trait HConsable: Sized + View {
    /// What a table keeps of a value: its shape, as data. A key holds no
    /// handle; where the value embeds one, the key has its identifier.
    type Key: View<V = Self::V>;

    /// The hash of a shape.
    spec fn hash_spec(shape: Self::V) -> u64;

    /// Hashes the value's shape.
    fn shape_hash(&self) -> (h: u64)
        ensures
            h == Self::hash_spec(self@),
    ;

    /// The key of the value.
    fn key(&self) -> (k: Self::Key)
        ensures
            k@ == self@,
    ;

    /// Whether the value has the shape that the key stands for.
    fn has_key(&self, key: &Self::Key) -> (b: bool)
        ensures
            b == (self@ == key@),
    ;
}

/// Something that a table of `T` can be asked for: it has the shape of a `T`,
/// and can be hashed and compared as one.
pub trait Candidate<T: HConsable>: Sized {
    /// The shape asked for.
    spec fn shape(&self) -> T::V;

    /// Hashes the shape, as `T` would.
    fn lookup_hash(&self) -> (h: u64)
        ensures
            h == T::hash_spec(self.shape()),
    ;

    /// Whether the key stands for this shape.
    fn matches(&self, key: &T::Key) -> (b: bool)
        ensures
            b == (self.shape() == key@),
    ;
}

/// Every hash-consable value can be asked for.
impl<T: HConsable> Candidate<T> for T {
    open spec fn shape(&self) -> T::V {
        self@
    }

    fn lookup_hash(&self) -> (h: u64) {
        self.shape_hash()
    }

    fn matches(&self, key: &T::Key) -> (b: bool) {
        self.has_key(key)
    }
}

/// A cheap, borrowed stand-in for a value of type `T`.
///
/// A table can look a value up by its stand-in; the owned value is only built,
/// by [`HashIntern::intern`], once the table knows that it is new.
pub trait HashIntern<T: HConsable>: Candidate<T> {
    /// Builds the owned value.
    fn intern(&self) -> (t: T)
        ensures
            t@ == self.shape(),
    ;
}

} // verus!
