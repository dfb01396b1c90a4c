//! A set of handles and a map keyed by handles.
//!
//! Both find a handle by its identifier and never look at the value behind it.
//! Both keep their handles in the order in which they came, so that they can be
//! walked by position.

use crate::consign::HConsign;
use crate::handle::HConsed;
use crate::shape::HConsable;
use std::collections::HashMap;
use vstd::pervasive::VecAdditionalExecFns;
use vstd::prelude::*;

verus! {

/// The position table agrees with the handles: it sends the identifier of the
/// handle at each position to that position, and knows no other identifier.
spec fn indexed<T>(handles: Seq<HConsed<T>>, index: Map<u64, usize>) -> bool {
    &&& forall|i: int|
        0 <= i < handles.len() ==> index.contains_key((#[trigger] handles[i]).uid())
            && index[handles[i].uid()] == i
    &&& forall|u: u64| #[trigger]
        index.contains_key(u) ==> index[u] < handles.len() && handles[index[u] as int].uid() == u
}

/// Appending a handle with a new identifier, and its position to the table,
/// keeps the two in agreement.
proof fn lemma_indexed_push<T>(handles: Seq<HConsed<T>>, index: Map<u64, usize>, h: HConsed<T>)
    requires
        indexed(handles, index),
        !index.contains_key(h.uid()),
        handles.len() <= usize::MAX,
    ensures
        indexed(handles.push(h), index.insert(h.uid(), handles.len() as usize)),
{
    let longer = handles.push(h);
    let wider = index.insert(h.uid(), handles.len() as usize);
    assert forall|i: int| 0 <= i < longer.len() implies wider.contains_key(
        (#[trigger] longer[i]).uid(),
    ) && wider[longer[i].uid()] == i by {
        if i < handles.len() {
            assert(longer[i] == handles[i]);
        }
    }
    assert forall|u: u64| #[trigger] wider.contains_key(u) implies wider[u] < longer.len()
        && longer[wider[u] as int].uid() == u by {
        if u != h.uid() {
            assert(index.contains_key(u));
            assert(longer[index[u] as int] == handles[index[u] as int]);
        }
    }
}

/// A set of handles.
pub struct HConSet<T> {
    items: Vec<HConsed<T>>,
    index: HashMap<u64, usize>,
}

impl<T> View for HConSet<T> {
    type V = Set<u64>;

    /// The identifiers of the members.
    closed spec fn view(&self) -> Set<u64> {
        self.index@.dom()
    }
}

impl<T> HConSet<T> {
    /// The members, in the order in which they came.
    pub closed spec fn elements(&self) -> Seq<HConsed<T>> {
        self.items@
    }

    /// The set is well formed: it finds each member by its identifier.
    pub closed spec fn wf(&self) -> bool {
        &&& indexed(self.items@, self.index@)
        &&& self.index@.dom().finite()
        &&& self.index@.len() == self.items@.len()
    }

    /// The view holds the identifiers of the members and nothing else, and no
    /// two members have the same identifier.
    pub proof fn lemma_view(&self)
        requires
            self.wf(),
        ensures
            forall|i: int|
                0 <= i < self.elements().len() ==> self@.contains(
                    (#[trigger] self.elements()[i]).uid(),
                ),
            forall|u: u64| #[trigger]
                self@.contains(u) ==> exists|i: int|
                    0 <= i < self.elements().len() && (#[trigger] self.elements()[i]).uid() == u,
            forall|i: int, j: int|
                0 <= i < j < self.elements().len() ==> (#[trigger] self.elements()[i]).uid() != (
                #[trigger] self.elements()[j]).uid(),
            self@.finite(),
            self@.len() == self.elements().len(),
    {
        assert forall|u: u64| #[trigger] self@.contains(u) implies exists|i: int|
            0 <= i < self.elements().len() && (#[trigger] self.elements()[i]).uid() == u by {
            let i = self.index@[u] as int;
            assert(self.index@.contains_key(u));
            assert(self.elements()[i].uid() == u);
        }
    }

    /// An empty set.
    pub fn new() -> (s: Self)
        ensures
            s.wf(),
            s@ == Set::<u64>::empty(),
            s.elements() == Seq::<HConsed<T>>::empty(),
    {
        HConSet { items: Vec::new(), index: HashMap::new() }
    }

    /// An empty set with room for `capacity` members.
    pub fn with_capacity(capacity: usize) -> (s: Self)
        ensures
            s.wf(),
            s@ == Set::<u64>::empty(),
            s.elements() == Seq::<HConsed<T>>::empty(),
    {
        HConSet { items: Vec::with_capacity(capacity), index: HashMap::with_capacity(capacity) }
    }

    /// The number of members.
    pub fn len(&self) -> (n: usize)
        requires
            self.wf(),
        ensures
            n == self@.len(),
            n == self.elements().len(),
    {
        self.items.len()
    }

    /// Whether the set has no member.
    pub fn is_empty(&self) -> (b: bool)
        requires
            self.wf(),
        ensures
            b == (self@.len() == 0),
    {
        self.items.len() == 0
    }

    /// Whether a handle with this identifier is a member.
    pub fn contains(&self, h: &HConsed<T>) -> (b: bool)
        requires
            self.wf(),
        ensures
            b == self@.contains(h.uid()),
    {
        let uid: u64 = h.uid();
        self.index.contains_key(&uid)
    }

    /// Adds a handle, unless one with the same identifier is a member already.
    /// Says whether the handle was added.
    pub fn insert(&mut self, h: HConsed<T>) -> (added: bool)
        requires
            old(self).wf(),
        ensures
            final(self).wf(),
            added == !old(self)@.contains(h.uid()),
            final(self)@ == old(self)@.insert(h.uid()),
            final(self).elements() == if added {
                old(self).elements().push(h)
            } else {
                old(self).elements()
            },
    {
        let uid: u64 = h.uid();
        if self.index.contains_key(&uid) {
            proof {
                assert(self@.insert(uid) =~= self@);
            }
            false
        } else {
            let at: usize = self.items.len();
            proof {
                lemma_indexed_push(self.items@, self.index@, h);
            }
            self.index.insert(uid, at);
            self.items.push(h);
            true
        }
    }

    /// The member at a position, counted in the order in which members came;
    /// `None` past the last member.
    pub fn nth(&self, i: usize) -> (r: Option<&HConsed<T>>)
        ensures
            match r {
                Some(h) => i < self.elements().len() && *h == self.elements()[i as int],
                None => i >= self.elements().len(),
            },
    {
        if i < self.items.len() {
            Some(&self.items[i])
        } else {
            None
        }
    }

    /// The members, in the order in which they came.
    pub fn members(&self) -> (v: Vec<&HConsed<T>>)
        ensures
            v@.len() == self.elements().len(),
            forall|i: int| 0 <= i < v@.len() ==> *(#[trigger] v@[i]) == self.elements()[i],
    {
        let mut v: Vec<&HConsed<T>> = Vec::with_capacity(self.items.len());
        let mut i: usize = 0;
        while i < self.items.len()
            invariant
                i <= self.items@.len(),
                v@.len() == i,
                forall|j: int| 0 <= j < i ==> *(#[trigger] v@[j]) == self.elements()[j],
            decreases self.items@.len() - i,
        {
            v.push(&self.items[i]);
            i = i + 1;
        }
        v
    }
}

/// A map from handles to values of type `V`.
pub struct HConMap<T, V> {
    keys: Vec<HConsed<T>>,
    vals: Vec<V>,
    index: HashMap<u64, usize>,
}

impl<T, V> View for HConMap<T, V> {
    type V = Map<u64, V>;

    /// The value kept for each identifier.
    closed spec fn view(&self) -> Map<u64, V> {
        Map::new(|u: u64| self.index@.contains_key(u), |u: u64| self.vals@[self.index@[u] as int])
    }
}

impl<T, V> HConMap<T, V> {
    /// The keys, in the order in which they came.
    pub closed spec fn handles(&self) -> Seq<HConsed<T>> {
        self.keys@
    }

    /// The map is well formed: it finds each key, and the key's value, by the
    /// key's identifier.
    pub closed spec fn wf(&self) -> bool {
        &&& indexed(self.keys@, self.index@)
        &&& self.vals@.len() == self.keys@.len()
        &&& self.index@.dom().finite()
        &&& self.index@.len() == self.keys@.len()
    }

    /// The view is defined on the identifiers of the keys and nowhere else, and
    /// no two keys have the same identifier.
    pub proof fn lemma_view(&self)
        requires
            self.wf(),
        ensures
            forall|i: int|
                0 <= i < self.handles().len() ==> self@.contains_key(
                    (#[trigger] self.handles()[i]).uid(),
                ),
            forall|u: u64| #[trigger]
                self@.contains_key(u) ==> exists|i: int|
                    0 <= i < self.handles().len() && (#[trigger] self.handles()[i]).uid() == u,
            forall|i: int, j: int|
                0 <= i < j < self.handles().len() ==> (#[trigger] self.handles()[i]).uid() != (
                #[trigger] self.handles()[j]).uid(),
            self@.dom().finite(),
            self@.len() == self.handles().len(),
    {
        assert forall|u: u64| #[trigger] self@.contains_key(u) implies exists|i: int|
            0 <= i < self.handles().len() && (#[trigger] self.handles()[i]).uid() == u by {
            let i = self.index@[u] as int;
            assert(self.index@.contains_key(u));
            assert(self.handles()[i].uid() == u);
        }
        assert(self@.dom() =~= self.index@.dom());
    }

    /// An empty map.
    pub fn new() -> (m: Self)
        ensures
            m.wf(),
            m@ == Map::<u64, V>::empty(),
            m.handles() == Seq::<HConsed<T>>::empty(),
    {
        let m = HConMap { keys: Vec::new(), vals: Vec::new(), index: HashMap::new() };
        proof {
            assert(m@ =~= Map::<u64, V>::empty());
        }
        m
    }

    /// An empty map with room for `capacity` keys.
    pub fn with_capacity(capacity: usize) -> (m: Self)
        ensures
            m.wf(),
            m@ == Map::<u64, V>::empty(),
            m.handles() == Seq::<HConsed<T>>::empty(),
    {
        let m = HConMap {
            keys: Vec::with_capacity(capacity),
            vals: Vec::with_capacity(capacity),
            index: HashMap::with_capacity(capacity),
        };
        proof {
            assert(m@ =~= Map::<u64, V>::empty());
        }
        m
    }

    /// The number of keys.
    pub fn len(&self) -> (n: usize)
        requires
            self.wf(),
        ensures
            n == self@.len(),
            n == self.handles().len(),
    {
        proof {
            self.lemma_view();
        }
        self.keys.len()
    }

    /// Whether the map has no key.
    pub fn is_empty(&self) -> (b: bool)
        requires
            self.wf(),
        ensures
            b == (self@.len() == 0),
    {
        proof {
            self.lemma_view();
        }
        self.keys.len() == 0
    }

    /// Whether a handle with this identifier is a key.
    pub fn contains_key(&self, h: &HConsed<T>) -> (b: bool)
        requires
            self.wf(),
        ensures
            b == self@.contains_key(h.uid()),
    {
        let uid: u64 = h.uid();
        self.index.contains_key(&uid)
    }

    /// The value kept for the handle's identifier.
    pub fn get(&self, h: &HConsed<T>) -> (r: Option<&V>)
        requires
            self.wf(),
        ensures
            match r {
                Some(v) => self@.contains_key(h.uid()) && *v == self@[h.uid()],
                None => !self@.contains_key(h.uid()),
            },
    {
        let uid: u64 = h.uid();
        match self.index.get(&uid) {
            Some(at) => Some(&self.vals[*at]),
            None => None,
        }
    }

    /// Keeps a value for the handle's identifier. If a value was kept for
    /// that identifier already, it is replaced and returned, and the key that
    /// came first stays.
    pub fn insert(&mut self, h: HConsed<T>, value: V) -> (prev: Option<V>)
        requires
            old(self).wf(),
        ensures
            final(self).wf(),
            final(self)@ == old(self)@.insert(h.uid(), value),
            prev == if old(self)@.contains_key(h.uid()) {
                Some(old(self)@[h.uid()])
            } else {
                None
            },
            final(self).handles() == if old(self)@.contains_key(h.uid()) {
                old(self).handles()
            } else {
                old(self).handles().push(h)
            },
    {
        let uid: u64 = h.uid();
        let known: Option<usize> = match self.index.get(&uid) {
            Some(at) => Some(*at),
            None => None,
        };
        match known {
            Some(at) => {
                let mut slot: V = value;
                self.vals.set_and_swap(at, &mut slot);
                proof {
                    assert(self@ =~= old(self)@.insert(uid, value));
                }
                Some(slot)
            },
            None => {
                let at: usize = self.keys.len();
                proof {
                    lemma_indexed_push(self.keys@, self.index@, h);
                }
                self.index.insert(uid, at);
                self.keys.push(h);
                self.vals.push(value);
                proof {
                    assert(self@ =~= old(self)@.insert(uid, value));
                }
                None
            },
        }
    }

    /// The key at a position, counted in the order in which keys came, and the
    /// value kept for it; `None` past the last key.
    pub fn nth(&self, i: usize) -> (r: Option<(&HConsed<T>, &V)>)
        requires
            self.wf(),
        ensures
            match r {
                Some((key, value)) => i < self.handles().len() && *key == self.handles()[i as int]
                    && *value == self@[key.uid()],
                None => i >= self.handles().len(),
            },
    {
        if i < self.keys.len() {
            proof {
                assert(self.index@.contains_key(self.keys@[i as int].uid()));
            }
            Some((&self.keys[i], &self.vals[i]))
        } else {
            None
        }
    }

    /// The keys with their values, in the order in which the keys came.
    pub fn pairs(&self) -> (v: Vec<(&HConsed<T>, &V)>)
        requires
            self.wf(),
        ensures
            v@.len() == self.handles().len(),
            forall|i: int|
                0 <= i < v@.len() ==> *(#[trigger] v@[i]).0 == self.handles()[i] && *v@[i].1
                    == self@[self.handles()[i].uid()],
    {
        let mut v: Vec<(&HConsed<T>, &V)> = Vec::with_capacity(self.keys.len());
        let mut i: usize = 0;
        while i < self.keys.len()
            invariant
                self.wf(),
                i <= self.keys@.len(),
                v@.len() == i,
                forall|j: int|
                    0 <= j < i ==> *(#[trigger] v@[j]).0 == self.handles()[j] && *v@[j].1
                        == self@[self.handles()[j].uid()],
            decreases self.keys@.len() - i,
        {
            proof {
                assert(self.index@.contains_key(self.keys@[i as int].uid()));
            }
            v.push((&self.keys[i], &self.vals[i]));
            i = i + 1;
        }
        v
    }

    /// The keys, in the order in which they came.
    pub fn keys(&self) -> (v: Vec<&HConsed<T>>)
        ensures
            v@.len() == self.handles().len(),
            forall|i: int| 0 <= i < v@.len() ==> *(#[trigger] v@[i]) == self.handles()[i],
    {
        let mut v: Vec<&HConsed<T>> = Vec::with_capacity(self.keys.len());
        let mut i: usize = 0;
        while i < self.keys.len()
            invariant
                i <= self.keys@.len(),
                v@.len() == i,
                forall|j: int| 0 <= j < i ==> *(#[trigger] v@[j]) == self.handles()[j],
            decreases self.keys@.len() - i,
        {
            v.push(&self.keys[i]);
            i = i + 1;
        }
        v
    }
}

/// Some handle of the sequence has the shape of `h`: `h` is among them as far
/// as structural equality can tell.
pub open spec fn has_shape_of<T: HConsable>(handles: Seq<HConsed<T>>, h: &HConsed<T>) -> bool {
    exists|i: int| 0 <= i < handles.len() && (#[trigger] handles[i]).get()@ == h.get()@
}

/// Every handle of the sequence is on record in the table.
pub open spec fn all_canonical<T: HConsable>(table: &HConsign<T>, handles: Seq<HConsed<T>>) -> bool {
    forall|i: int| 0 <= i < handles.len() ==> table.canonical(#[trigger] &handles[i])
}

/// Every handle of the sequence carries an identifier that the table gave to
/// its shape.
pub open spec fn all_owned<T: HConsable>(table: &HConsign<T>, handles: Seq<HConsed<T>>) -> bool {
    forall|i: int| 0 <= i < handles.len() ==> table.owns(#[trigger] &handles[i])
}

/// For a set of handles that are on record in one table, and a handle on
/// record in the same table, membership by identifier is membership by
/// structural equality.
pub proof fn lemma_set_membership_is_structural<T: HConsable>(
    table: &HConsign<T>,
    set: &HConSet<T>,
    h: &HConsed<T>,
)
    requires
        table.wf(),
        set.wf(),
        table.canonical(h),
        all_canonical(table, set.elements()),
    ensures
        set@.contains(h.uid()) <==> has_shape_of(set.elements(), h),
{
    set.lemma_view();
    let members = set.elements();
    if set@.contains(h.uid()) {
        let i = choose|i: int| 0 <= i < members.len() && (#[trigger] members[i]).uid() == h.uid();
        assert(table.canonical(&members[i]));
        table@.lemma_uids_agree_with_shapes(
            members[i].uid(),
            members[i].get()@,
            h.uid(),
            h.get()@,
        );
    }
    if has_shape_of(members, h) {
        let i = choose|i: int| 0 <= i < members.len() && (#[trigger] members[i]).get()@ == h.get()@;
        assert(table.canonical(&members[i]));
        assert(set@.contains(members[i].uid()));
    }
}

/// For a set of handles that one table handed out, and a handle from the same
/// table: if the set has the handle's identifier, it has a member that is
/// structurally equal to the handle. This needs no handle to be on record still.
pub proof fn lemma_set_member_has_shape<T: HConsable>(
    table: &HConsign<T>,
    set: &HConSet<T>,
    h: &HConsed<T>,
)
    requires
        set.wf(),
        table.owns(h),
        all_owned(table, set.elements()),
        set@.contains(h.uid()),
    ensures
        has_shape_of(set.elements(), h),
{
    set.lemma_view();
    let members = set.elements();
    let i = choose|i: int| 0 <= i < members.len() && (#[trigger] members[i]).uid() == h.uid();
    assert(table.owns(&members[i]));
}

/// For a map whose keys are on record in one table, and a handle on record in
/// the same table, having a key by identifier is having a key by structural
/// equality.
pub proof fn lemma_map_membership_is_structural<T: HConsable, V>(
    table: &HConsign<T>,
    map: &HConMap<T, V>,
    h: &HConsed<T>,
)
    requires
        table.wf(),
        map.wf(),
        table.canonical(h),
        all_canonical(table, map.handles()),
    ensures
        map@.contains_key(h.uid()) <==> has_shape_of(map.handles(), h),
{
    map.lemma_view();
    let keys = map.handles();
    if map@.contains_key(h.uid()) {
        let i = choose|i: int| 0 <= i < keys.len() && (#[trigger] keys[i]).uid() == h.uid();
        assert(table.canonical(&keys[i]));
        table@.lemma_uids_agree_with_shapes(keys[i].uid(), keys[i].get()@, h.uid(), h.get()@);
    }
    if has_shape_of(keys, h) {
        let i = choose|i: int| 0 <= i < keys.len() && (#[trigger] keys[i]).get()@ == h.get()@;
        assert(table.canonical(&keys[i]));
        assert(map@.contains_key(keys[i].uid()));
    }
}

/// For a map whose keys one table handed out, and a handle from the same
/// table: if the map has the handle's identifier, it has a key that is
/// structurally equal to the handle.
pub proof fn lemma_map_key_has_shape<T: HConsable, V>(
    table: &HConsign<T>,
    map: &HConMap<T, V>,
    h: &HConsed<T>,
)
    requires
        map.wf(),
        table.owns(h),
        all_owned(table, map.handles()),
        map@.contains_key(h.uid()),
    ensures
        has_shape_of(map.handles(), h),
{
    map.lemma_view();
    let keys = map.handles();
    let i = choose|i: int| 0 <= i < keys.len() && (#[trigger] keys[i]).uid() == h.uid();
    assert(table.owns(&keys[i]));
}

/// A set and a map that were filled with the same handles agree on every
/// handle: what is a member of the one is a key of the other.
pub proof fn lemma_set_and_map_agree<T, V>(set: &HConSet<T>, map: &HConMap<T, V>, h: &HConsed<T>)
    requires
        set.wf(),
        map.wf(),
        set.elements() == map.handles(),
    ensures
        set@.contains(h.uid()) <==> map@.contains_key(h.uid()),
{
    set.lemma_view();
    map.lemma_view();
    let members = set.elements();
    if set@.contains(h.uid()) {
        let i = choose|i: int| 0 <= i < members.len() && (#[trigger] members[i]).uid() == h.uid();
        assert(map@.contains_key(map.handles()[i].uid()));
    }
    if map@.contains_key(h.uid()) {
        let i = choose|i: int| 0 <= i < members.len() && (#[trigger] map.handles()[i]).uid() == h.uid();
        assert(set@.contains(members[i].uid()));
    }
}

} // verus!
