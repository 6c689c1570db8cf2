//! Cross-reference tables: where each object is.

use std::collections::HashMap;

use vstd::prelude::*;

verus! {

broadcast use vstd::std_specs::hash::group_hash_axioms;

/// Where an object is.
#[derive(Clone, Copy, Debug, PartialEq, Eq, Structural)]
pub enum XrefEntry {
    /// The object is not in use.
    Free,
    /// The object stands at an offset in the file.
    Normal { offset: u32, generation: u16 },
    /// The object stands in an object stream.
    Compressed { container: u32, index: u16 },
}

/// A cross-reference table.
pub struct Xref {
    entries: HashMap<u32, XrefEntry>,
    /// The numbers that have an entry, in the order in which they got it.
    ids: Vec<u32>,
    /// What the trailer's `/Size` says.
    size: u32,
}

impl View for Xref {
    type V = Map<u32, XrefEntry>;

    closed spec fn view(&self) -> Map<u32, XrefEntry> {
        self.entries@
    }
}

/// `newer` with the entries of `older` for the numbers it has none for.
pub open spec fn merged(newer: Map<u32, XrefEntry>, older: Map<u32, XrefEntry>) -> Map<
    u32,
    XrefEntry,
> {
    older.union_prefer_right(newer)
}

/// Whether `most` is the greatest of `ids`, or 0 without any.
pub open spec fn is_greatest(ids: Set<u32>, most: u32) -> bool {
    &&& forall|id: u32| ids.contains(id) ==> id <= most
    &&& ids.contains(most) || most == 0
}

/// The entries of a newer revision stay as they are when an older one is merged in.
pub proof fn lemma_newer_entries_win(
    newer: Map<u32, XrefEntry>,
    older: Map<u32, XrefEntry>,
    id: u32,
)
    ensures
        newer.contains_key(id) ==> merged(newer, older).contains_key(id) && merged(newer, older)[id]
            == newer[id],
        !newer.contains_key(id) && older.contains_key(id) ==> merged(newer, older).contains_key(id)
            && merged(newer, older)[id] == older[id],
        !newer.contains_key(id) && !older.contains_key(id) ==> !merged(newer, older).contains_key(
            id,
        ),
{
}

impl Xref {
    /// The numbers that have an entry, in the order in which they got it.
    pub closed spec fn listed(&self) -> Seq<u32> {
        self.ids@
    }

    /// Each number that has an entry is listed once.
    pub open spec fn well_formed(&self) -> bool {
        &&& self.listed().no_duplicates()
        &&& forall|id: u32| #[trigger] self@.contains_key(id) <==> self.listed().contains(id)
    }

    /// What the trailer's `/Size` says.
    pub closed spec fn declared_size(&self) -> u32 {
        self.size
    }

    pub fn size(&self) -> (r: u32)
        ensures
            r == self.declared_size(),
    {
        self.size
    }

    /// Makes `size` what the trailer's `/Size` says.
    pub fn set_size(&mut self, size: u32)
        ensures
            final(self)@ == old(self)@,
            final(self).listed() == old(self).listed(),
            final(self).declared_size() == size,
    {
        self.size = size;
    }

    pub fn new(size: u32) -> (r: Self)
        ensures
            r.well_formed(),
            r@ == Map::<u32, XrefEntry>::empty(),
            r.declared_size() == size,
    {
        let xref = Xref { entries: HashMap::new(), ids: Vec::new(), size };
        assert(xref@ =~= Map::<u32, XrefEntry>::empty());
        xref
    }

    pub fn get(&self, id: u32) -> (r: Option<XrefEntry>)
        ensures
            match r {
                Some(entry) => self@.contains_key(id) && self@[id] == entry,
                None => !self@.contains_key(id),
            },
    {
        match self.entries.get(&id) {
            Some(entry) => Some(*entry),
            None => None,
        }
    }

    /// Gives object number `id` an entry, in place of one that it had.
    pub fn insert(&mut self, id: u32, entry: XrefEntry)
        requires
            old(self).well_formed(),
        ensures
            final(self).well_formed(),
            final(self)@ == old(self)@.insert(id, entry),
            final(self).declared_size() == old(self).declared_size(),
    {
        let ghost before = *self;
        let known = self.entries.contains_key(&id);
        assert(known == before@.contains_key(id));
        self.entries.insert(id, entry);
        if !known {
            self.ids.push(id);
            proof {
                assert(!before.ids@.contains(id));
                let ids = self.ids@;
                assert forall|other: u32| #[trigger] self@.contains_key(other)
                    <==> ids.contains(other) by {
                    if ids.contains(other) {
                        let i = ids.index_of(other);
                        if i < before.ids@.len() {
                            assert(before.ids@[i] == other);
                            assert(before.ids@.contains(other));
                        }
                    }
                    if before@.contains_key(other) {
                        let i = before.ids@.index_of(other);
                        assert(ids[i] == other);
                    }
                    if other == id {
                        assert(ids[ids.len() - 1] == id);
                    }
                }
            }
        } else {
            assert(before.ids@.contains(id));
            assert forall|other: u32| #[trigger] self@.contains_key(other)
                <==> self.ids@.contains(other) by {
                assert(before@.contains_key(other) <==> before.ids@.contains(other));
            }
        }
    }

    /// Adds the entries of an older table for the numbers that have none.
    pub fn merge(&mut self, older: &Xref)
        requires
            old(self).well_formed(),
            older.well_formed(),
        ensures
            final(self).well_formed(),
            final(self)@ == merged(old(self)@, older@),
            final(self).declared_size() == old(self).declared_size(),
    {
        let ghost before = self@;
        let mut i: usize = 0;
        while i < older.ids.len()
            invariant
                self.well_formed(),
                older.well_formed(),
                i <= older.ids@.len(),
                self.size == old(self).size,
                forall|id: u32| #[trigger]
                    self@.contains_key(id) <==> (before.contains_key(id) || older.ids@.take(
                        i as int,
                    ).contains(id)),
                forall|id: u32| #[trigger]
                    self@.contains_key(id) ==> self@[id] == if before.contains_key(id) {
                        before[id]
                    } else {
                        older@[id]
                    },
            decreases older.ids@.len() - i,
        {
            let id = older.ids[i];
            let ghost done = older.ids@.take(i as int);
            let ghost more = older.ids@.take(i + 1);
            let ghost earlier = self@;
            proof {
                assert(more =~= done.push(id));
                assert forall|other: u32| more.contains(other) <==> (done.contains(other) || other
                    == id) by {
                    if done.contains(other) {
                        let j = done.index_of(other);
                        assert(more[j] == other);
                    }
                    assert(more[i as int] == id);
                    if more.contains(other) {
                        let j = more.index_of(other);
                        if j < i {
                            assert(done[j] == other);
                        }
                    }
                }
                assert(older.ids@.contains(id)) by {
                    assert(older.ids@[i as int] == id);
                }
            }
            if self.get(id).is_none() {
                match older.get(id) {
                    Some(entry) => {
                        self.insert(id, entry);
                    },
                    None => {
                        assert(older@.contains_key(id));
                    },
                }
            } else {
                assert(earlier.contains_key(id));
            }
            i += 1;
        }
        assert(older.ids@.take(i as int) =~= older.ids@);
        assert(self@ =~= merged(before, older@)) by {
            assert forall|id: u32| self@.contains_key(id) <==> merged(
                before,
                older@,
            ).contains_key(id) by {
                assert(older@.contains_key(id) <==> older.ids@.contains(id));
            }
        }
    }

    /// The greatest number that has an entry, or 0 without any.
    pub fn max_id(&self) -> (r: u32)
        requires
            self.well_formed(),
        ensures
            is_greatest(self@.dom(), r),
    {
        let mut most: u32 = 0;
        let mut i: usize = 0;
        while i < self.ids.len()
            invariant
                self.well_formed(),
                i <= self.ids@.len(),
                forall|j: int| 0 <= j < i ==> #[trigger] self.ids@[j] <= most,
                most == 0 || self@.contains_key(most),
            decreases self.ids@.len() - i,
        {
            if self.ids[i] > most {
                most = self.ids[i];
                assert(self.ids@.contains(most)) by {
                    assert(self.ids@[i as int] == most);
                }
            }
            i += 1;
        }
        assert forall|id: u32| self@.dom().contains(id) implies id <= most by {
            assert(self@.contains_key(id));
            let j = self.ids@.index_of(id);
            assert(self.ids@[j] <= most);
        }
        most
    }

    /// The numbers that have an entry.
    pub fn ids(&self) -> (r: &Vec<u32>)
        ensures
            r@ == self.listed(),
    {
        &self.ids
    }
}

} // verus!
