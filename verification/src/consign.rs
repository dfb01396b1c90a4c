//! The consign: the table that hands out handles.
//!
//! A table keeps, for every shape it has on record, the key of the value, the
//! identifier it gave to it and a weak pointer to the shared value. It holds no
//! handle and never keeps a value alive. An entry whose weak pointer no longer
//! resolves is stale. Stale entries are thrown out lazily: a probe throws out
//! those that it comes across in the bucket it looks into, and nothing else
//! ever does. So [`HConsign::len`] counts the values that are held somewhere
//! and the stale entries that no probe has come across yet.
//!
//! A table has one owner: whatever may change it takes it by `&mut`, so that
//! looking a value up and putting it on record cannot be torn apart by another
//! call. The handles it hands out are immutable and can be shared freely.

use crate::handle::HConsed;
use crate::record::ConsignView;
use crate::shape::Candidate;
use crate::shape::HConsable;
use crate::shape::HashIntern;
use crate::weak::downgrade;
use crate::weak::upgrade;
use crate::weak::WeakRef;
use std::collections::HashMap;
use std::sync::Arc;
use vstd::prelude::*;

verus! {

/// One entry of a table.
#[verifier::reject_recursive_types(T)]
struct Entry<T: HConsable> {
    key: T::Key,
    uid: u64,
    weak: WeakRef<T>,
}

/// What one look at an entry tells a probe.
#[derive(Clone, Copy, Debug, PartialEq, Eq)]
pub enum Sighting {
    /// The entry no longer leads to its value: nobody holds the value any more,
    /// or what the weak pointer gives is not what the entry was made for.
    Stale,
    /// The entry is for another shape than the candidate's.
    Other,
    /// The entry is for the candidate's shape, and its value is still held.
    Same,
}

/// What a probe for `wanted` makes of an entry that was made for a value of
/// the shape `kept` and whose weak pointer resolved to `live`.
pub open spec fn spec_sight<K>(wanted: K, kept: K, live: Option<K>) -> Sighting {
    match live {
        None => Sighting::Stale,
        Some(seen) => if kept != wanted {
            Sighting::Other
        } else if seen == wanted {
            Sighting::Same
        } else {
            Sighting::Stale
        },
    }
}

/// Judges one entry: `kept` is the key that the table keeps for the entry,
/// `live` is what the entry's weak pointer resolved to.
///
/// A value that comes back from a weak pointer is held against the key like
/// any other: the table relies on the pointer for liveness only.
pub fn sight<T: HConsable, Q: Candidate<T>>(q: &Q, kept: &T::Key, live: &Option<Arc<T>>) -> (s:
    Sighting)
    ensures
        s == spec_sight(
            q.shape(),
            kept@,
            match *live {
                Some(a) => Some((*a)@),
                None => None,
            },
        ),
{
    match live {
        None => Sighting::Stale,
        Some(a) => {
            if !q.matches(kept) {
                Sighting::Other
            } else if (**a).has_key(kept) {
                Sighting::Same
            } else {
                Sighting::Stale
            }
        },
    }
}

/// The table.
#[verifier::reject_recursive_types(T)]
pub struct HConsign<T: HConsable> {
    table: HashMap<u64, Vec<Entry<T>>>,
    first: Ghost<u64>,
    count: u64,
    live: u64,
    entries: Ghost<Map<T::V, u64>>,
    issued: Ghost<Map<u64, T::V>>,
}

impl<T: HConsable> View for HConsign<T> {
    type V = ConsignView<T::V>;

    closed spec fn view(&self) -> ConsignView<T::V> {
        ConsignView {
            first: self.first@,
            next: self.count,
            entries: self.entries@,
            issued: self.issued@,
        }
    }
}

/// Every entry of the bucket hashes to `hash` and is on record under its
/// identifier, and no two entries have the same shape.
spec fn bucket_ok<T: HConsable>(hash: u64, bucket: Seq<Entry<T>>, entries: Map<T::V, u64>) -> bool {
    &&& forall|i: int|
        0 <= i < bucket.len() ==> {
            let e = #[trigger] bucket[i];
            &&& T::hash_spec(e.key@) == hash
            &&& entries.contains_key(e.key@)
            &&& entries[e.key@] == e.uid
        }
    &&& forall|i: int, j: int|
        0 <= i < j < bucket.len() ==> (#[trigger] bucket[i]).key@ != (#[trigger] bucket[j]).key@
}

/// The bucket has an entry of this shape.
spec fn covered<T: HConsable>(shape: T::V, bucket: Seq<Entry<T>>) -> bool {
    exists|i: int| 0 <= i < bucket.len() && (#[trigger] bucket[i]).key@ == shape
}

/// The bucket that the buckets have for a hash; empty where they have none.
spec fn bucket_at<T: HConsable>(buckets: Map<u64, Vec<Entry<T>>>, hash: u64) -> Seq<Entry<T>> {
    if buckets.contains_key(hash) {
        buckets[hash]@
    } else {
        Seq::empty()
    }
}

/// The buckets and the record agree: what a bucket holds is on record and
/// hashes to the bucket, and each shape on record has its entry in the bucket
/// for its hash.
spec fn agree<T: HConsable>(buckets: Map<u64, Vec<Entry<T>>>, entries: Map<T::V, u64>) -> bool {
    &&& forall|h: u64| #[trigger] buckets.contains_key(h) ==> bucket_ok(h, buckets[h]@, entries)
    &&& forall|k: T::V| #[trigger]
        entries.contains_key(k) ==> covered(k, bucket_at(buckets, T::hash_spec(k)))
}

/// The buckets and the record agree, but for the bucket for `hash`, which is
/// out of the table and holds the entries `loose`.
spec fn agree_but<T: HConsable>(
    buckets: Map<u64, Vec<Entry<T>>>,
    entries: Map<T::V, u64>,
    hash: u64,
    loose: Seq<Entry<T>>,
) -> bool {
    &&& !buckets.contains_key(hash)
    &&& bucket_ok(hash, loose, entries)
    &&& forall|h: u64| #[trigger] buckets.contains_key(h) ==> bucket_ok(h, buckets[h]@, entries)
    &&& forall|k: T::V| #[trigger]
        entries.contains_key(k) ==> covered(
            k,
            if T::hash_spec(k) == hash {
                loose
            } else {
                bucket_at(buckets, T::hash_spec(k))
            },
        )
}

/// A bucket without its entry `i`: the last entry takes the place of the one
/// that leaves.
spec fn swap_removed<T: HConsable>(bucket: Seq<Entry<T>>, i: int) -> Seq<Entry<T>> {
    bucket.update(i, bucket.last()).drop_last()
}

/// Each entry of a bucket that lost its entry `i` was in the bucket before, at
/// another place than `i`.
proof fn lemma_swap_removed<T: HConsable>(bucket: Seq<Entry<T>>, i: int)
    requires
        0 <= i < bucket.len(),
    ensures
        swap_removed(bucket, i).len() == bucket.len() - 1,
        forall|j: int|
            0 <= j < bucket.len() - 1 ==> #[trigger] swap_removed(bucket, i)[j] == bucket[if j
                == i {
                bucket.len() - 1
            } else {
                j
            }],
{
}

/// Taking the bucket for `hash` out of buckets that agree with the record
/// leaves buckets that agree with it but for that bucket.
proof fn lemma_agree_taken<T: HConsable>(
    buckets: Map<u64, Vec<Entry<T>>>,
    entries: Map<T::V, u64>,
    hash: u64,
)
    requires
        agree(buckets, entries),
    ensures
        agree_but(buckets.remove(hash), entries, hash, bucket_at(buckets, hash)),
{
    let rest = buckets.remove(hash);
    assert forall|k: T::V| #[trigger] entries.contains_key(k) implies covered(
        k,
        if T::hash_spec(k) == hash {
            bucket_at(buckets, hash)
        } else {
            bucket_at(rest, T::hash_spec(k))
        },
    ) by {
        assert(covered(k, bucket_at(buckets, T::hash_spec(k))));
    }
}

/// Putting the loose bucket back, or leaving it out if it is empty, makes the
/// buckets agree with the record again.
proof fn lemma_agree_put<T: HConsable>(
    buckets: Map<u64, Vec<Entry<T>>>,
    entries: Map<T::V, u64>,
    hash: u64,
    loose: Vec<Entry<T>>,
)
    requires
        agree_but(buckets, entries, hash, loose@),
    ensures
        agree(buckets.insert(hash, loose), entries),
        loose@.len() == 0 ==> agree(buckets, entries),
{
    let all = buckets.insert(hash, loose);
    assert forall|k: T::V| #[trigger] entries.contains_key(k) implies covered(
        k,
        bucket_at(all, T::hash_spec(k)),
    ) by {
        if T::hash_spec(k) != hash {
            assert(bucket_at(all, T::hash_spec(k)) == bucket_at(buckets, T::hash_spec(k)));
        }
    }
    if loose@.len() == 0 {
        assert forall|k: T::V| #[trigger] entries.contains_key(k) implies covered(
            k,
            bucket_at(buckets, T::hash_spec(k)),
        ) by {
            if T::hash_spec(k) == hash {
                assert(covered(k, loose@));
            }
        }
    }
}

/// Throwing entry `i` out of the loose bucket and its shape off the record
/// keeps the agreement, and leaves the entries before `i` where they were.
proof fn lemma_agree_evict<T: HConsable>(
    buckets: Map<u64, Vec<Entry<T>>>,
    entries: Map<T::V, u64>,
    hash: u64,
    loose: Seq<Entry<T>>,
    i: int,
)
    requires
        agree_but(buckets, entries, hash, loose),
        0 <= i < loose.len(),
    ensures
        entries.contains_key(loose[i].key@),
        agree_but(buckets, entries.remove(loose[i].key@), hash, swap_removed(loose, i)),
        forall|j: int| 0 <= j < i ==> #[trigger] swap_removed(loose, i)[j] == loose[j],
{
    let rest = swap_removed(loose, i);
    let gone = loose[i].key@;
    let fewer = entries.remove(gone);
    let last = loose.len() - 1;
    lemma_swap_removed(loose, i);
    assert forall|j: int| 0 <= j < rest.len() implies {
        let e = #[trigger] rest[j];
        &&& T::hash_spec(e.key@) == hash
        &&& fewer.contains_key(e.key@)
        &&& fewer[e.key@] == e.uid
    } by {
        let m = if j == i {
            last
        } else {
            j
        };
        assert(rest[j] == loose[m]);
        if m < i {
            assert(loose[m].key@ != loose[i].key@);
        } else {
            assert(loose[i].key@ != loose[m].key@);
        }
    }
    assert forall|j: int, l: int| 0 <= j < l < rest.len() implies (#[trigger] rest[j]).key@ != (
    #[trigger] rest[l]).key@ by {
        let mj = if j == i {
            last
        } else {
            j
        };
        let ml = if l == i {
            last
        } else {
            l
        };
        assert(rest[j] == loose[mj]);
        assert(rest[l] == loose[ml]);
        if mj < ml {
            assert(loose[mj].key@ != loose[ml].key@);
        } else {
            assert(loose[ml].key@ != loose[mj].key@);
        }
    }
    assert forall|h: u64| #[trigger] buckets.contains_key(h) implies bucket_ok(
        h,
        buckets[h]@,
        fewer,
    ) by {
        let b = buckets[h]@;
        assert(bucket_ok(h, b, entries));
        assert forall|j: int| 0 <= j < b.len() implies (#[trigger] b[j]).key@ != gone by {}
    }
    assert forall|k: T::V| #[trigger] fewer.contains_key(k) implies covered(
        k,
        if T::hash_spec(k) == hash {
            rest
        } else {
            bucket_at(buckets, T::hash_spec(k))
        },
    ) by {
        assert(entries.contains_key(k));
        if T::hash_spec(k) == hash {
            let m = choose|m: int| 0 <= m < loose.len() && (#[trigger] loose[m]).key@ == k;
            if m == last {
                assert(rest[i] == loose[m]);
            } else {
                assert(rest[m] == loose[m]);
            }
        }
    }
}

/// Adding an entry for a new shape to the loose bucket, and the shape to the
/// record, keeps the agreement.
proof fn lemma_agree_enter<T: HConsable>(
    buckets: Map<u64, Vec<Entry<T>>>,
    entries: Map<T::V, u64>,
    hash: u64,
    loose: Seq<Entry<T>>,
    entry: Entry<T>,
)
    requires
        agree_but(buckets, entries, hash, loose),
        T::hash_spec(entry.key@) == hash,
        !entries.contains_key(entry.key@),
    ensures
        agree_but(buckets, entries.insert(entry.key@, entry.uid), hash, loose.push(entry)),
{
    let more = entries.insert(entry.key@, entry.uid);
    let longer = loose.push(entry);
    assert forall|i: int| 0 <= i < longer.len() implies {
        let e = #[trigger] longer[i];
        &&& T::hash_spec(e.key@) == hash
        &&& more.contains_key(e.key@)
        &&& more[e.key@] == e.uid
    } by {
        if i < loose.len() {
            assert(longer[i] == loose[i]);
        }
    }
    assert forall|i: int, j: int| 0 <= i < j < longer.len() implies (#[trigger] longer[i]).key@
        != (#[trigger] longer[j]).key@ by {
        assert(longer[i] == loose[i]);
        if j < loose.len() {
            assert(longer[j] == loose[j]);
        }
    }
    assert forall|h: u64| #[trigger] buckets.contains_key(h) implies bucket_ok(
        h,
        buckets[h]@,
        more,
    ) by {
        let b = buckets[h]@;
        assert(bucket_ok(h, b, entries));
        assert forall|j: int| 0 <= j < b.len() implies (#[trigger] b[j]).key@ != entry.key@ by {}
    }
    assert forall|k: T::V| #[trigger] more.contains_key(k) implies covered(
        k,
        if T::hash_spec(k) == hash {
            longer
        } else {
            bucket_at(buckets, T::hash_spec(k))
        },
    ) by {
        if k == entry.key@ {
            assert(longer[loose.len() as int].key@ == k);
        } else if T::hash_spec(k) == hash {
            let i = choose|i: int| 0 <= i < loose.len() && (#[trigger] loose[i]).key@ == k;
            assert(longer[i] == loose[i]);
        }
    }
}

impl<T: HConsable> HConsign<T> {
    /// The buckets hold exactly what is on record, and the count of entries
    /// is right.
    pub closed spec fn represents(&self) -> bool {
        &&& self.live == self.entries@.len()
        &&& agree(self.table@, self.entries@)
    }

    /// The same with the bucket for `hash` out of the table, holding `loose`.
    spec fn represents_but(&self, hash: u64, loose: Seq<Entry<T>>) -> bool {
        &&& self.live == self.entries@.len()
        &&& agree_but(self.table@, self.entries@, hash, loose)
    }

    /// The table is well formed: its record is valid and its buckets hold
    /// exactly what is on record.
    pub open spec fn wf(&self) -> bool {
        self@.valid() && self.represents()
    }

    /// The handle's identifier was given out by this table, to the handle's shape.
    pub open spec fn owns(&self, h: &HConsed<T>) -> bool {
        self@.owns(h.uid(), h.get()@)
    }

    /// The handle is the one on record for its shape.
    pub open spec fn canonical(&self, h: &HConsed<T>) -> bool {
        self@.canonical(h.uid(), h.get()@)
    }

    /// A probe for `shape` that turned this table into `after` left alone what
    /// hashes to another bucket: stale entries are only found where one looks.
    pub open spec fn spares(&self, shape: T::V, after: &Self) -> bool {
        forall|k: T::V|
            T::hash_spec(k) != T::hash_spec(shape) && #[trigger] self@.entries.contains_key(k)
                ==> after@.entries.contains_key(k)
    }

    /// The number of entries on record.
    pub open spec fn spec_len(&self) -> nat {
        self@.entries.len()
    }

    /// An empty table. The first identifier is 0.
    pub fn new() -> (c: Self)
        ensures
            c.wf(),
            c@.first == 0,
            c@.next == 0,
            c@.entries == Map::<T::V, u64>::empty(),
            c@.issued == Map::<u64, T::V>::empty(),
    {
        Self::starting_at(0)
    }

    /// An empty table. The first identifier is 0.
    pub fn empty() -> (c: Self)
        ensures
            c.wf(),
            c@.first == 0,
            c@.next == 0,
            c@.entries == Map::<T::V, u64>::empty(),
            c@.issued == Map::<u64, T::V>::empty(),
    {
        Self::starting_at(0)
    }

    /// An empty table with room for `capacity` buckets. The first identifier
    /// is 0.
    pub fn with_capacity(capacity: usize) -> (c: Self)
        ensures
            c.wf(),
            c@.first == 0,
            c@.next == 0,
            c@.entries == Map::<T::V, u64>::empty(),
            c@.issued == Map::<u64, T::V>::empty(),
    {
        HConsign {
            table: HashMap::with_capacity(capacity),
            first: Ghost(0),
            count: 0,
            live: 0,
            entries: Ghost(Map::empty()),
            issued: Ghost(Map::empty()),
        }
    }

    /// An empty table whose first identifier is `first`.
    pub fn starting_at(first: u64) -> (c: Self)
        ensures
            c.wf(),
            c@.first == first,
            c@.next == first,
            c@.entries == Map::<T::V, u64>::empty(),
            c@.issued == Map::<u64, T::V>::empty(),
    {
        HConsign {
            table: HashMap::new(),
            first: Ghost(first),
            count: first,
            live: 0,
            entries: Ghost(Map::empty()),
            issued: Ghost(Map::empty()),
        }
    }

    /// Takes the bucket for `hash` out of the table.
    fn take_bucket(&mut self, hash: u64) -> (bucket: Vec<Entry<T>>)
        requires
            old(self).represents(),
        ensures
            final(self)@ == old(self)@,
            final(self).represents_but(hash, bucket@),
    {
        proof {
            lemma_agree_taken(self.table@, self.entries@, hash);
        }
        match self.table.remove(&hash) {
            Some(bucket) => bucket,
            None => Vec::new(),
        }
    }

    /// Puts back the bucket that [`Self::take_bucket`] took out. An empty
    /// bucket is dropped instead.
    fn put_bucket(&mut self, hash: u64, bucket: Vec<Entry<T>>)
        requires
            old(self).represents_but(hash, bucket@),
        ensures
            final(self)@ == old(self)@,
            final(self).represents(),
    {
        proof {
            lemma_agree_put(self.table@, self.entries@, hash, bucket);
        }
        if bucket.len() > 0 {
            self.table.insert(hash, bucket);
        }
    }

    /// Puts a new shape on record and hands out the first handle for it.
    fn register(&mut self, elm: T) -> (h: HConsed<T>)
        requires
            old(self).wf(),
            !old(self)@.entries.contains_key(elm@),
            old(self)@.next < u64::MAX,
        ensures
            final(self).wf(),
            *h.get() == elm,
            h.uid() == old(self)@.next,
            final(self)@ == old(self)@.with_new(elm@),
    {
        let uid: u64 = self.count;
        let hash: u64 = elm.shape_hash();
        let key: T::Key = elm.key();
        let arc: Arc<T> = Arc::new(elm);
        let entry = Entry { key, uid, weak: downgrade(&arc) };
        let mut bucket = self.take_bucket(hash);
        proof {
            self@.lemma_with_new(elm@);
            lemma_agree_enter(self.table@, self.entries@, hash, bucket@, entry);
        }
        bucket.push(entry);
        self.count = uid + 1;
        self.live = self.live + 1;
        self.entries = Ghost(self.entries@.insert(elm@, uid));
        self.issued = Ghost(self.issued@.insert(uid, elm@));
        self.put_bucket(hash, bucket);
        HConsed::new(arc, uid)
    }

    /// Looks a candidate up.
    ///
    /// The entries of the candidate's bucket are looked at in turn, up to the
    /// one that holds the candidate. On the way, every stale entry is thrown
    /// out. The result is a handle on the value on record if its entry is found
    /// and someone still holds the value, `None` otherwise.
    pub fn get<Q: Candidate<T>>(&mut self, q: &Q) -> (found: Option<HConsed<T>>)
        requires
            old(self).wf(),
        ensures
            final(self).wf(),
            old(self)@.prunes(final(self)@),
            old(self).spares(q.shape(), final(self)),
            final(self).spec_len() <= old(self).spec_len(),
            match found {
                Some(h) => h.get()@ == q.shape() && final(self).canonical(&h),
                None => !final(self)@.entries.contains_key(q.shape()),
            },
    {
        let hash: u64 = q.lookup_hash();
        let mut bucket = self.take_bucket(hash);
        let mut found: Option<HConsed<T>> = None;
        let mut i: usize = 0;
        while i < bucket.len()
            invariant_except_break
                found is None,
            invariant
                self@.valid(),
                self.represents_but(hash, bucket@),
                hash == T::hash_spec(q.shape()),
                i <= bucket@.len(),
                forall|j: int| 0 <= j < i ==> (#[trigger] bucket@[j]).key@ != q.shape(),
                old(self)@.prunes(self@),
                old(self).spares(q.shape(), self),
            ensures
                match found {
                    Some(h) => h.get()@ == q.shape() && self.canonical(&h),
                    None => i == bucket@.len(),
                },
            decreases bucket@.len() - i,
        {
            let live = upgrade(&bucket[i].weak);
            match sight(q, &bucket[i].key, &live) {
                Sighting::Stale => {
                    proof {
                        self@.lemma_without(bucket@[i as int].key@);
                        lemma_agree_evict(self.table@, self.entries@, hash, bucket@, i as int);
                    }
                    let gone = bucket.swap_remove(i);
                    self.entries = Ghost(self.entries@.remove(gone.key@));
                    self.live = self.live - 1;
                },
                Sighting::Other => {
                    i = i + 1;
                },
                Sighting::Same => {
                    if let Some(value) = live {
                        found = Some(HConsed::new(value, bucket[i].uid));
                    }
                    break ;
                },
            }
        }
        proof {
            if found is None && self.entries@.contains_key(q.shape()) {
                assert(covered(q.shape(), bucket@));
            }
            old(self)@.lemma_pruning_never_grows(self@);
        }
        self.put_bucket(hash, bucket);
        found
    }

    /// Hands out the handle for a value, and says whether the value was new.
    ///
    /// If the value is on record and still held somewhere, the handle shares
    /// it and carries its identifier. Otherwise the value is put on record
    /// under the next identifier.
    pub fn mk_is_new(&mut self, elm: T) -> (r: (HConsed<T>, bool))
        requires
            old(self).wf(),
            old(self)@.next < u64::MAX,
        ensures
            final(self).wf(),
            r.0.get()@ == elm@,
            r.1 ==> *r.0.get() == elm,
            r.1 == (r.0.uid() == old(self)@.next),
            old(self)@.interns(elm@, r.0.uid(), final(self)@),
            old(self).spares(elm@, final(self)),
            old(self)@.entries.contains_key(elm@) ==> final(self).spec_len() <= old(
                self,
            ).spec_len(),
    {
        let r = match self.get(&elm) {
            Some(h) => {
                proof {
                    old(self)@.lemma_prune_then_find(elm@, h.uid(), self@);
                }
                (h, false)
            },
            None => {
                proof {
                    old(self)@.lemma_prune_then_enter(elm@, self@);
                }
                let h = self.register(elm);
                (h, true)
            },
        };
        proof {
            old(self)@.lemma_duplicate_never_grows(elm@, r.0.uid(), self@);
        }
        r
    }

    /// Hands out the handle for a value.
    pub fn mk(&mut self, elm: T) -> (h: HConsed<T>)
        requires
            old(self).wf(),
            old(self)@.next < u64::MAX,
        ensures
            final(self).wf(),
            h.get()@ == elm@,
            old(self)@.interns(elm@, h.uid(), final(self)@),
            old(self).spares(elm@, final(self)),
            old(self)@.entries.contains_key(elm@) ==> final(self).spec_len() <= old(
                self,
            ).spec_len(),
    {
        self.mk_is_new(elm).0
    }

    /// Hands out the handle for a value, unless a new identifier is needed and
    /// there is none left: the answer is `None` only if the last identifier
    /// was given out and the value is not, or no longer, on record.
    pub fn try_mk(&mut self, elm: T) -> (r: Option<HConsed<T>>)
        requires
            old(self).wf(),
        ensures
            final(self).wf(),
            old(self).spares(elm@, final(self)),
            old(self)@.entries.contains_key(elm@) ==> final(self).spec_len() <= old(
                self,
            ).spec_len(),
            match r {
                Some(h) => h.get()@ == elm@ && old(self)@.interns(elm@, h.uid(), final(self)@),
                None => old(self)@.next == u64::MAX && old(self)@.prunes(final(self)@)
                    && !final(self)@.entries.contains_key(elm@),
            },
    {
        match self.get(&elm) {
            Some(h) => {
                proof {
                    old(self)@.lemma_prune_then_find(elm@, h.uid(), self@);
                    old(self)@.lemma_duplicate_never_grows(elm@, h.uid(), self@);
                }
                Some(h)
            },
            None => {
                if self.count == u64::MAX {
                    None
                } else {
                    proof {
                        old(self)@.lemma_prune_then_enter(elm@, self@);
                    }
                    let h = self.register(elm);
                    proof {
                        old(self)@.lemma_duplicate_never_grows(elm@, h.uid(), self@);
                    }
                    Some(h)
                }
            },
        }
    }

    /// Hands out the handle for the value that a stand-in stands for. The
    /// value itself is only built if it is new.
    pub fn mk_interned<Q: HashIntern<T>>(&mut self, q: &Q) -> (h: HConsed<T>)
        requires
            old(self).wf(),
            old(self)@.next < u64::MAX,
        ensures
            final(self).wf(),
            h.get()@ == q.shape(),
            old(self)@.interns(q.shape(), h.uid(), final(self)@),
            old(self).spares(q.shape(), final(self)),
            old(self)@.entries.contains_key(q.shape()) ==> final(self).spec_len() <= old(
                self,
            ).spec_len(),
    {
        let h = match self.get(q) {
            Some(h) => {
                proof {
                    old(self)@.lemma_prune_then_find(q.shape(), h.uid(), self@);
                }
                h
            },
            None => {
                proof {
                    old(self)@.lemma_prune_then_enter(q.shape(), self@);
                }
                self.register(q.intern())
            },
        };
        proof {
            old(self)@.lemma_duplicate_never_grows(q.shape(), h.uid(), self@);
        }
        h
    }

    /// The number of entries on record: the values that are held somewhere,
    /// and the stale entries that no probe has come across yet.
    pub fn len(&self) -> (n: usize)
        requires
            self.wf(),
        ensures
            n == if self.spec_len() <= usize::MAX {
                self.spec_len()
            } else {
                usize::MAX as nat
            },
    {
        if self.live <= usize::MAX as u64 {
            self.live as usize
        } else {
            usize::MAX
        }
    }

    /// Whether nothing is on record.
    pub fn is_empty(&self) -> (b: bool)
        requires
            self.wf(),
        ensures
            b == (self.spec_len() == 0),
    {
        self.live == 0
    }

    /// The identifier that the next new value will get.
    pub fn next_uid(&self) -> (u: u64)
        ensures
            u == self@.next,
    {
        self.count
    }
}

} // verus!
