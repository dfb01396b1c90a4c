//! What a table has on record, as mathematics, and the laws of the record.
//!
//! The record speaks of shapes and identifiers only. A handle with the
//! identifier `uid` on a value of the shape `shape` is *owned* by the record if
//! the identifier was given out to that shape, and *canonical* if it is the
//! entry on record for that shape.

use vstd::prelude::*;

verus! {

/// What a table has on record, as mathematics.
#[verifier::reject_recursive_types(K)]
pub struct ConsignView<K> {
    /// The first identifier that the table gave or will give out.
    pub first: u64,
    /// The identifier that the next new shape will get.
    pub next: u64,
    /// The shapes on record, each with the identifier of its entry.
    pub entries: Map<K, u64>,
    /// Every identifier given out so far, with the shape it was given to.
    pub issued: Map<u64, K>,
}

impl<K> ConsignView<K> {
    /// The identifier was given out, and to this shape.
    pub open spec fn owns(self, uid: u64, shape: K) -> bool {
        self.issued.contains_key(uid) && self.issued[uid] == shape
    }

    /// The shape is on record under this identifier.
    pub open spec fn canonical(self, uid: u64, shape: K) -> bool {
        self.entries.contains_key(shape) && self.entries[shape] == uid
    }

    /// The identifiers given out are those from `first` up to `next`, without
    /// `next`, and every entry carries an identifier that was given to its
    /// shape.
    pub open spec fn valid(self) -> bool {
        &&& self.first <= self.next
        &&& self.entries.dom().finite()
        &&& self.entries.len() <= self.next - self.first
        &&& forall|u: u64| #[trigger] self.issued.contains_key(u) <==> self.first <= u < self.next
        &&& forall|k: K| #[trigger]
            self.entries.contains_key(k) ==> self.owns(self.entries[k], k)
    }

    /// The record without the entry for `shape`.
    pub open spec fn without(self, shape: K) -> Self {
        ConsignView {
            first: self.first,
            next: self.next,
            entries: self.entries.remove(shape),
            issued: self.issued,
        }
    }

    /// The record with a new entry for `shape`, under the next identifier.
    pub open spec fn with_new(self, shape: K) -> Self {
        ConsignView {
            first: self.first,
            next: (self.next + 1) as u64,
            entries: self.entries.insert(shape, self.next),
            issued: self.issued.insert(self.next, shape),
        }
    }

    /// The record `after` is what this record becomes when stale entries are
    /// thrown out and nothing else happens.
    pub open spec fn prunes(self, after: Self) -> bool {
        &&& after.first == self.first
        &&& after.next == self.next
        &&& after.issued == self.issued
        &&& after.entries.submap_of(self.entries)
    }

    /// The record `after` is what this record becomes when a handle on `shape`
    /// is asked for and the answer carries `uid`.
    ///
    /// The answer is on record for the shape. It either carries the identifier
    /// that was on record before, and then no identifier is used up, or it
    /// carries the next identifier. Apart from the shape's own entry, entries
    /// only ever leave the record.
    pub open spec fn interns(self, shape: K, uid: u64, after: Self) -> bool {
        &&& after.first == self.first
        &&& after.canonical(uid, shape)
        &&& after.issued == self.issued.insert(uid, shape)
        &&& after.entries.remove(shape).submap_of(self.entries)
        &&& if uid == self.next {
            after.next == self.next + 1
        } else {
            after.next == self.next && self.canonical(uid, shape)
        }
    }

    /// What this record says of identifiers, the record `later` says too.
    pub open spec fn precedes(self, later: Self) -> bool {
        self.issued.submap_of(later.issued)
    }

    /// Whatever is on record was given out: a canonical pair is an owned pair.
    pub proof fn lemma_canonical_is_owned(self, uid: u64, shape: K)
        requires
            self.valid(),
            self.canonical(uid, shape),
        ensures
            self.owns(uid, shape),
            uid < self.next,
    {
    }

    /// An identifier stands for one shape: two owned pairs with different
    /// shapes have different identifiers.
    pub proof fn lemma_unequal_shapes_unequal_uids(
        self,
        uid_a: u64,
        shape_a: K,
        uid_b: u64,
        shape_b: K,
    )
        requires
            self.owns(uid_a, shape_a),
            self.owns(uid_b, shape_b),
            shape_a != shape_b,
        ensures
            uid_a != uid_b,
    {
    }

    /// Among the pairs on record, the identifiers are equal exactly when the
    /// shapes are.
    pub proof fn lemma_uids_agree_with_shapes(self, uid_a: u64, shape_a: K, uid_b: u64, shape_b: K)
        requires
            self.valid(),
            self.canonical(uid_a, shape_a),
            self.canonical(uid_b, shape_b),
        ensures
            uid_a == uid_b <==> shape_a == shape_b,
    {
    }

    /// Throwing an entry out keeps the record valid, and is pruning.
    pub proof fn lemma_without(self, shape: K)
        requires
            self.valid(),
        ensures
            self.without(shape).valid(),
            self.prunes(self.without(shape)),
            self.entries.contains_key(shape) ==> self.without(shape).entries.len()
                == self.entries.len() - 1,
    {
        let after = self.without(shape);
        assert forall|k: K| #[trigger] after.entries.contains_key(k) implies after.owns(
            after.entries[k],
            k,
        ) by {
            assert(self.entries.contains_key(k));
        }
    }

    /// Putting a shape on record that was not there keeps the record valid, as
    /// long as an identifier is left.
    pub proof fn lemma_with_new(self, shape: K)
        requires
            self.valid(),
            !self.entries.contains_key(shape),
            self.next < u64::MAX,
        ensures
            self.with_new(shape).valid(),
            self.with_new(shape).entries.len() == self.entries.len() + 1,
    {
        let after = self.with_new(shape);
        assert forall|u: u64| #[trigger]
            after.issued.contains_key(u) <==> after.first <= u < after.next by {
            assert(self.issued.contains_key(u) <==> self.first <= u < self.next);
        }
        assert forall|k: K| #[trigger] after.entries.contains_key(k) implies after.owns(
            after.entries[k],
            k,
        ) by {
            if k != shape {
                assert(self.entries.contains_key(k));
            }
        }
    }

    /// Pruning that leaves the shape on record is interning the shape under
    /// the identifier on record.
    pub proof fn lemma_prune_then_find(self, shape: K, uid: u64, after: Self)
        requires
            self.valid(),
            self.prunes(after),
            after.canonical(uid, shape),
        ensures
            self.interns(shape, uid, after),
            uid < self.next,
    {
        assert(self.entries.contains_key(shape));
        assert(self.owns(uid, shape));
        assert(after.issued =~= self.issued.insert(uid, shape));
        assert forall|k: K| #[trigger] after.entries.remove(shape).contains_key(k) implies (
        self.entries.contains_key(k) && after.entries.remove(shape)[k] == self.entries[k]) by {
            assert(after.entries.contains_key(k));
        }
    }

    /// Pruning that leaves the shape off the record, followed by putting the
    /// shape on record, is interning the shape under the next identifier.
    pub proof fn lemma_prune_then_enter(self, shape: K, pruned: Self)
        requires
            self.prunes(pruned),
            !pruned.entries.contains_key(shape),
            self.next < u64::MAX,
        ensures
            self.interns(shape, self.next, pruned.with_new(shape)),
    {
        assert(pruned.with_new(shape).entries.remove(shape) =~= pruned.entries);
    }

    /// Interning and pruning never take back what the record says of an
    /// identifier.
    pub proof fn lemma_steps_precede(self, shape: K, uid: u64, after: Self)
        requires
            self.valid(),
        ensures
            self.precedes(self),
            self.interns(shape, uid, after) ==> self.precedes(after),
            self.prunes(after) ==> self.precedes(after),
    {
        if self.interns(shape, uid, after) {
            if uid != self.next {
                assert(self.owns(uid, shape));
            }
            assert forall|u: u64| #[trigger] self.issued.contains_key(u) implies (
            after.issued.contains_key(u) && self.issued[u] == after.issued[u]) by {
                assert(self.first <= u < self.next);
            }
        }
    }

    /// `precedes` carries over any number of steps.
    pub proof fn lemma_precedes_chains(self, mid: Self, later: Self)
        requires
            self.precedes(mid),
            mid.precedes(later),
        ensures
            self.precedes(later),
    {
        assert forall|u: u64| #[trigger] self.issued.contains_key(u) implies (
        later.issued.contains_key(u) && self.issued[u] == later.issued[u]) by {
            assert(mid.issued.dom().contains(u));
            assert(later.issued.dom().contains(u));
        }
    }

    /// An owned pair stays owned in every later record.
    pub proof fn lemma_owned_for_good(self, later: Self, uid: u64, shape: K)
        requires
            self.owns(uid, shape),
            self.precedes(later),
        ensures
            later.owns(uid, shape),
    {
    }

    /// Two requests for different shapes, with anything a table does in
    /// between, are answered with different identifiers.
    pub proof fn lemma_unequal_values_unequal_uids(
        self,
        shape_a: K,
        uid_a: u64,
        once: Self,
        later: Self,
        shape_b: K,
        uid_b: u64,
        last: Self,
    )
        requires
            self.valid(),
            self.interns(shape_a, uid_a, once),
            once.valid(),
            once.precedes(later),
            later.valid(),
            later.interns(shape_b, uid_b, last),
            last.valid(),
            shape_a != shape_b,
        ensures
            uid_a != uid_b,
    {
        once.lemma_canonical_is_owned(uid_a, shape_a);
        last.lemma_canonical_is_owned(uid_b, shape_b);
        later.lemma_steps_precede(shape_b, uid_b, last);
        once.lemma_precedes_chains(later, last);
    }

    /// Asking twice for the same shape gives the same identifier, unless the
    /// shape's entry went stale in between; the second answer then carries an
    /// identifier that was never used before.
    pub proof fn lemma_same_value_same_uid(
        self,
        shape: K,
        uid_a: u64,
        mid: Self,
        uid_b: u64,
        after: Self,
    )
        requires
            self.valid(),
            self.interns(shape, uid_a, mid),
            mid.valid(),
            mid.interns(shape, uid_b, after),
        ensures
            uid_b == uid_a || (uid_b == mid.next && !mid.issued.contains_key(uid_b)),
    {
    }

    /// A handle on record is what the next request for its shape returns,
    /// unless its entry has gone stale.
    pub proof fn lemma_canonical_is_reused(self, shape: K, uid: u64, answer: u64, after: Self)
        requires
            self.valid(),
            self.canonical(uid, shape),
            self.interns(shape, answer, after),
        ensures
            answer == uid || (answer == self.next && !self.issued.contains_key(answer)),
    {
    }

    /// Pruning never makes the record longer.
    pub proof fn lemma_pruning_never_grows(self, after: Self)
        requires
            self.valid(),
            self.prunes(after),
        ensures
            after.entries.len() <= self.entries.len(),
    {
        vstd::set_lib::lemma_len_subset(after.entries.dom(), self.entries.dom());
    }

    /// Asking for a shape that is on record never makes the record longer, and
    /// asking for any shape makes it longer by one entry at most.
    pub proof fn lemma_duplicate_never_grows(self, shape: K, uid: u64, after: Self)
        requires
            self.valid(),
            after.valid(),
            self.interns(shape, uid, after),
        ensures
            self.entries.contains_key(shape) ==> after.entries.len() <= self.entries.len(),
            after.entries.len() <= self.entries.len() + 1,
    {
        let wider = self.entries.dom().insert(shape);
        assert forall|k: K| #[trigger] after.entries.dom().contains(k) implies wider.contains(k) by {
            if k != shape {
                assert(after.entries.remove(shape).contains_key(k));
            }
        }
        vstd::set_lib::lemma_len_subset(after.entries.dom(), wider);
        if self.entries.contains_key(shape) {
            assert(wider =~= self.entries.dom());
        }
    }
}

} // verus!
