//! Sets and maps of object ids.

use std::collections::{HashMap, HashSet};

use vstd::prelude::*;
use vstd::set_lib::{lemma_int_range, set_int_range};

use crate::object::ObjectId;

verus! {

broadcast use vstd::std_specs::hash::group_hash_axioms;

/// One number for an object's number and generation.
pub open spec fn packed(id: ObjectId) -> u64 {
    (id.0 * 0x1_0000 + id.1) as u64
}

/// One number for an object's number and generation.
pub fn pack(id: ObjectId) -> (r: u64)
    ensures
        r == packed(id),
{
    id.0 as u64 * 0x1_0000 + id.1 as u64
}

/// Different ids pack into different numbers.
pub proof fn lemma_packed(a: ObjectId, b: ObjectId)
    ensures
        packed(a) == packed(b) ==> a == b,
{
    if packed(a) == packed(b) {
        assert(a.0 * 0x1_0000 + a.1 == b.0 * 0x1_0000 + b.1);
        assert(a.0 == b.0);
        assert(a.1 == b.1);
    }
}

/// Every object id there is.
pub open spec fn all_ids() -> Set<ObjectId> {
    set_int_range(0, 0x1_0000_0000_0000).map(
        |n: int| ((n / 0x1_0000) as u32, (n % 0x1_0000) as u16),
    )
}

/// How many object ids are not in `seen`.
pub open spec fn unseen(seen: Set<ObjectId>) -> nat {
    all_ids().difference(seen).len()
}

proof fn lemma_all_ids(id: ObjectId)
    ensures
        all_ids().finite(),
        all_ids().contains(id),
{
    let f = |n: int| ((n / 0x1_0000) as u32, (n % 0x1_0000) as u16);
    lemma_int_range(0, 0x1_0000_0000_0000);
    set_int_range(0, 0x1_0000_0000_0000).lemma_map_finite(f);
    let n = id.0 * 0x1_0000 + id.1;
    assert(n / 0x1_0000 == id.0 as int && n % 0x1_0000 == id.1 as int);
    assert(f(n) == id);
    assert(set_int_range(0, 0x1_0000_0000_0000).contains(n));
}

/// Seeing another id leaves fewer unseen.
pub proof fn lemma_unseen(seen: Set<ObjectId>, id: ObjectId)
    requires
        !seen.contains(id),
    ensures
        unseen(seen.insert(id)) < unseen(seen),
{
    lemma_all_ids(id);
    let rest = all_ids().difference(seen);
    assert(rest.contains(id));
    assert(all_ids().difference(seen.insert(id)) =~= rest.remove(id));
}

/// A set of object ids.
pub struct IdSet {
    keys: HashSet<u64>,
}

impl View for IdSet {
    type V = Set<ObjectId>;

    closed spec fn view(&self) -> Set<ObjectId> {
        Set::new(|id: ObjectId| self.keys@.contains(packed(id)))
    }
}

impl IdSet {
    pub fn new() -> (r: Self)
        ensures
            r@ == Set::<ObjectId>::empty(),
    {
        let set = IdSet { keys: HashSet::new() };
        assert(set@ =~= Set::<ObjectId>::empty());
        set
    }

    pub fn contains(&self, id: ObjectId) -> (r: bool)
        ensures
            r == self@.contains(id),
    {
        self.keys.contains(&pack(id))
    }

    /// Adds `id`, and says whether it was not there before.
    pub fn insert(&mut self, id: ObjectId) -> (r: bool)
        ensures
            final(self)@ == old(self)@.insert(id),
            r == !old(self)@.contains(id),
    {
        let ghost before = self@;
        let added = self.keys.insert(pack(id));
        proof {
            assert forall|other: ObjectId| self@.contains(other) == before.insert(id).contains(
                other,
            ) by {
                lemma_packed(other, id);
            }
            assert(self@ =~= before.insert(id));
        }
        added
    }
}

/// Values by object id.
pub struct IdMap<V> {
    keys: HashMap<u64, V>,
}

impl<V> View for IdMap<V> {
    type V = Map<ObjectId, V>;

    closed spec fn view(&self) -> Map<ObjectId, V> {
        Map::new(
            |id: ObjectId| self.keys@.contains_key(packed(id)),
            |id: ObjectId| self.keys@[packed(id)],
        )
    }
}

impl<V> IdMap<V> {
    pub fn new() -> (r: Self)
        ensures
            r@ == Map::<ObjectId, V>::empty(),
    {
        let map = IdMap { keys: HashMap::new() };
        assert(map@ =~= Map::<ObjectId, V>::empty());
        map
    }

    pub fn get(&self, id: ObjectId) -> (r: Option<&V>)
        ensures
            match r {
                Some(value) => self@.contains_key(id) && self@[id] == *value,
                None => !self@.contains_key(id),
            },
    {
        self.keys.get(&pack(id))
    }

    pub fn insert(&mut self, id: ObjectId, value: V)
        ensures
            final(self)@ == old(self)@.insert(id, value),
    {
        let ghost before = self@;
        self.keys.insert(pack(id), value);
        proof {
            assert forall|other: ObjectId|
                self@.contains_key(other) == before.insert(id, value).contains_key(other)
                    && (self@.contains_key(other) ==> self@[other] == before.insert(
                    id,
                    value,
                )[other]) by {
                lemma_packed(other, id);
            }
            assert(self@ =~= before.insert(id, value));
        }
    }

    /// How many ids have a value.
    pub closed spec fn count(&self) -> nat {
        self.keys@.len()
    }

    pub fn len(&self) -> (r: usize)
        ensures
            r == self.count(),
    {
        self.keys.len()
    }
}

} // verus!
