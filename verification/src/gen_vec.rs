//! A generational slot map: values live in slots addressed by an index, and
//! every slot carries a generation that is bumped whenever the slot is freed
//! or refilled.  A `Key` names one slot at one generation; a key whose
//! generation no longer matches the slot is stale and is rejected by every
//! operation.  Freed slots are kept on a free list and reused in LIFO order.

use vstd::prelude::*;

verus! {

/// One slot: either free, or holding a value; both carry the slot's
/// current generation.
pub enum Entry<T> {
    Free { generation: u32 },
    Occupied { value: T, generation: u32 },
}

impl<T> Entry<T> {
    /// The generation stored in the slot, whatever its state.
    pub open spec fn generation(self) -> u32 {
        match self {
            Entry::Free { generation } => generation,
            Entry::Occupied { value: _, generation } => generation,
        }
    }
}

/// Number of occupied slots in a sequence of entries.
/// The values the occupied slots hold, in slot order.
pub open spec fn values_of<T>(s: Seq<Entry<T>>) -> Seq<T>
    decreases s.len(),
{
    if s.len() == 0 {
        Seq::empty()
    } else {
        match s.last() {
            Entry::Occupied { value, generation } => values_of(s.drop_last()).push(value),
            Entry::Free { generation } => values_of(s.drop_last()),
        }
    }
}

pub open spec fn occupied_count<T>(s: Seq<Entry<T>>) -> int
    decreases s.len(),
{
    if s.len() == 0 {
        0
    } else {
        occupied_count(s.drop_last()) + if s.last() is Occupied {
            1int
        } else {
            0int
        }
    }
}

proof fn lemma_occupied_count_bounds<T>(s: Seq<Entry<T>>)
    ensures
        0 <= occupied_count(s) <= s.len(),
    decreases s.len(),
{
    if s.len() > 0 {
        lemma_occupied_count_bounds(s.drop_last());
    }
}

proof fn lemma_occupied_count_update<T>(s: Seq<Entry<T>>, i: int, e: Entry<T>)
    requires
        0 <= i < s.len(),
    ensures
        occupied_count(s.update(i, e)) == occupied_count(s) + (if e is Occupied {
            1int
        } else {
            0int
        }) - (if s[i] is Occupied {
            1int
        } else {
            0int
        }),
    decreases s.len(),
{
    let su = s.update(i, e);
    if i == s.len() - 1 {
        assert(su.drop_last() =~= s.drop_last());
    } else {
        assert(su.drop_last() =~= s.drop_last().update(i, e));
        lemma_occupied_count_update(s.drop_last(), i, e);
    }
}

broadcast proof fn lemma_occupied_count_update_occupied<T>(s: Seq<Entry<T>>, i: int, e: Entry<T>)
    requires
        0 <= i < s.len(),
        s[i] is Occupied,
        e is Occupied,
    ensures
        #[trigger] occupied_count(s.update(i, e)) == occupied_count(s),
{
    lemma_occupied_count_update(s, i, e);
}

proof fn lemma_occupied_count_at_least_one<T>(s: Seq<Entry<T>>, i: int)
    requires
        0 <= i < s.len(),
        s[i] is Occupied,
    ensures
        occupied_count(s) >= 1,
    decreases s.len(),
{
    lemma_occupied_count_bounds(s.drop_last());
    if i < s.len() - 1 {
        lemma_occupied_count_at_least_one(s.drop_last(), i);
    }
}

proof fn lemma_occupied_count_push<T>(s: Seq<Entry<T>>, e: Entry<T>)
    ensures
        occupied_count(s.push(e)) == occupied_count(s) + (if e is Occupied {
            1int
        } else {
            0int
        }),
{
    assert(s.push(e).drop_last() =~= s);
}

/// A key into a `GenVec`: a slot index paired with the generation the slot
/// had when the key was issued.
#[derive(Debug, Clone, Copy)]
pub struct Key {
    pub id: u32,
    pub generation: u32,
}

impl Key {
    /// The slot index this key addresses.
    pub fn get_id(&self) -> (r: u32)
        ensures
            r == self.id,
    {
        self.id
    }

    /// The generation this key was issued with.
    pub fn get_gen(&self) -> (r: u32)
        ensures
            r == self.generation,
    {
        self.generation
    }
}

/// The slot map itself: the slots, a LIFO free list of slot indices, and the
/// count of occupied slots.
pub struct GenVec<T> {
    vec: Vec<Entry<T>>,
    free_ids: Vec<u32>,
    len: usize,
}

impl<T> GenVec<T> {
    /// The slots as a sequence.
    pub closed spec fn slots(self) -> Seq<Entry<T>> {
        self.vec@
    }

    /// Number of slots ever allocated (occupied or free).
    pub open spec fn slot_count(self) -> nat {
        self.slots().len()
    }

    /// Generation currently stored at slot `i`.
    pub open spec fn gen_of(self, i: int) -> u32 {
        self.slots()[i].generation()
    }

    pub closed spec fn free_list(self) -> Seq<u32> {
        self.free_ids@
    }

    /// Well-formedness: the free list holds distinct, in-range indices of
    /// free slots whose generations can still be bumped twice without
    /// wrapping, occupied slots can be bumped once, and the stored length is
    /// the number of occupied slots.  Retiring a slot instead of putting it
    /// back on the free list once its generation nears `u32::MAX` is what
    /// keeps generations from ever wrapping, so a stale key can never become
    /// valid again.
    pub open spec fn wf(self) -> bool {
        &&& forall|k: int|
            0 <= k < self.free_list().len() ==> {
                &&& #[trigger] self.free_list()[k] < self.slot_count()
                &&& self.slots()[self.free_list()[k] as int] is Free
                &&& self.gen_of(self.free_list()[k] as int) <= u32::MAX - 2
            }
        &&& forall|k1: int, k2: int|
            0 <= k1 < k2 < self.free_list().len() ==> self.free_list()[k1] != self.free_list()[k2]
        &&& forall|i: int|
            0 <= i < self.slot_count() && #[trigger] self.slots()[i] is Occupied ==> self.gen_of(i)
                <= u32::MAX - 1
        &&& self.spec_len() == occupied_count(self.slots())
    }

    /// What a key currently denotes: the value at its slot, provided the slot
    /// is occupied at exactly the key's generation.
    pub open spec fn spec_get(self, key: Key) -> Option<T> {
        if key.id < self.slot_count() && (self.slots()[key.id as int] matches Entry::Occupied {
            value: _,
            generation,
        } && generation == key.generation) {
            Some(self.slots()[key.id as int]->Occupied_value)
        } else {
            None
        }
    }

    pub fn new() -> (r: Self)
        ensures
            r.wf(),
            r.slot_count() == 0,
            r.spec_len() == 0,
    {
        Self { vec: Vec::new(), free_ids: Vec::new(), len: 0 }
    }

    pub closed spec fn spec_len(self) -> usize {
        self.len
    }

    /// Insert a value: reuse the most recently freed slot if one exists
    /// (bumping its generation), else append a fresh slot at generation 0.
    /// A reused slot's new generation is strictly greater than any
    /// generation a key for that slot was ever issued with before.
    pub fn insert(&mut self, value: T) -> (key: Key)
        requires
            old(self).wf(),
            old(self).slot_count() < u32::MAX,
        ensures
            final(self).wf(),
            key.id < final(self).slot_count(),
            final(self).slots()[key.id as int] == (Entry::Occupied {
                value,
                generation: key.generation,
            }),
            final(self).spec_get(key) == Some(value),
            final(self).spec_len() == old(self).spec_len() + 1,
            // every other pre-existing slot is unchanged
            forall|i: int|
                0 <= i < old(self).slot_count() && i != key.id ==> final(self).slots()[i] == old(
                    self,
                ).slots()[i],
            // generations never decrease
            forall|i: int|
                0 <= i < old(self).slot_count() ==> #[trigger] final(self).gen_of(i) >= old(
                    self,
                ).gen_of(i),
            // a reused slot comes back with a strictly greater generation
            key.id < old(self).slot_count() ==> old(self).slots()[key.id as int] is Free
                && key.generation == old(self).gen_of(key.id as int) + 1,
            key.id == old(self).slot_count() ==> key.generation == 0 && final(self).slot_count()
                == old(self).slot_count() + 1,
            key.id >= old(self).slot_count() ==> key.id == old(self).slot_count(),
            key.id < old(self).slot_count() ==> final(self).slot_count() == old(
                self,
            ).slot_count(),
    {
        proof {
            lemma_occupied_count_bounds(self.vec@);
        }
        if let Some(free_id) = self.free_ids.pop() {
            let idx = free_id as usize;
            let next_gen = match &self.vec[idx] {
                Entry::Free { generation } => *generation + 1,
                Entry::Occupied { .. } => {
                    proof {
                        assert(false);
                    }
                    0
                },
            };
            proof {
                lemma_occupied_count_update(
                    self.vec@,
                    idx as int,
                    Entry::Occupied { value, generation: next_gen },
                );
            }
            self.vec[idx] = Entry::Occupied { value, generation: next_gen };
            self.len = self.len + 1;
            Key { id: free_id, generation: next_gen }
        } else {
            let id = self.vec.len() as u32;
            proof {
                lemma_occupied_count_push(self.vec@, Entry::Occupied { value, generation: 0 });
            }
            self.vec.push(Entry::Occupied { value, generation: 0 });
            self.len = self.len + 1;
            Key { id, generation: 0 }
        }
    }

    /// Read the value a key denotes; `None` for a stale or out-of-range key.
    pub fn get(&self, key: &Key) -> (r: Option<&T>)
        ensures
            match r {
                Some(v) => self.spec_get(*key) == Some(*v),
                None => self.spec_get(*key) is None,
            },
    {
        if (key.id as usize) >= self.vec.len() {
            return None;
        }
        match &self.vec[key.id as usize] {
            Entry::Free { .. } => None,
            Entry::Occupied { value, generation } => {
                if *generation == key.generation {
                    Some(value)
                } else {
                    None
                }
            },
        }
    }

    /// Borrow the value a key denotes mutably; `None` for a stale key.
    /// When `Some` is returned, the map afterwards holds whatever the caller
    /// leaves in the borrow, at the same slot and generation.
    pub fn get_mut(&mut self, key: &Key) -> (r: Option<&mut T>)
        requires
            old(self).wf(),
        ensures
            match r {
                Some(v) => {
                    &&& old(self).spec_get(*key) == Some(*v)
                    &&& final(self).slots() == old(self).slots().update(
                        key.id as int,
                        Entry::Occupied { value: *final(v), generation: key.generation },
                    )
                    &&& final(self).free_list() == old(self).free_list()
                    &&& final(self).spec_len() == old(self).spec_len()
                },
                None => {
                    &&& old(self).spec_get(*key) is None
                    &&& *final(self) == *old(self)
                },
            },
            final(self).wf(),
    {
        broadcast use lemma_occupied_count_update_occupied;

        if (key.id as usize) >= self.vec.len() {
            return None;
        }
        let idx = key.id as usize;
        let is_live = match &self.vec[idx] {
            Entry::Free { .. } => false,
            Entry::Occupied { value: _, generation } => *generation == key.generation,
        };
        if !is_live {
            return None;
        }
        match &mut self.vec[idx] {
            Entry::Occupied { value, .. } => Some(value),
            Entry::Free { .. } => {
                proof {
                    assert(false);
                }
                None
            },
        }
    }

    /// Remove the value a key denotes.  On success the slot's generation is
    /// bumped past the key's, so the same key is stale from now on; the slot
    /// returns to the free list unless its generation is about to run out.
    pub fn remove(&mut self, key: Key) -> (r: Option<T>)
        requires
            old(self).wf(),
        ensures
            final(self).wf(),
            match r {
                Some(v) => {
                    &&& old(self).spec_get(key) == Some(v)
                    &&& final(self).slots() == old(self).slots().update(
                        key.id as int,
                        Entry::Free { generation: (key.generation + 1) as u32 },
                    )
                    &&& final(self).spec_len() == old(self).spec_len() - 1
                    &&& final(self).gen_of(key.id as int) == key.generation + 1
                },
                None => {
                    &&& old(self).spec_get(key) is None
                    &&& *final(self) == *old(self)
                },
            },
            // generations never decrease
            forall|i: int|
                0 <= i < old(self).slot_count() ==> #[trigger] final(self).gen_of(i) >= old(
                    self,
                ).gen_of(i),
            final(self).slot_count() == old(self).slot_count(),
    {
        if (key.id as usize) >= self.vec.len() {
            return None;
        }
        let idx = key.id as usize;
        let is_match = match &self.vec[idx] {
            Entry::Free { .. } => false,
            Entry::Occupied { value: _, generation } => *generation == key.generation,
        };
        if !is_match {
            return None;
        }
        let next_gen = key.generation + 1;
        proof {
            lemma_occupied_count_update(
                self.vec@,
                idx as int,
                Entry::Free { generation: next_gen },
            );
            lemma_occupied_count_at_least_one(self.vec@, idx as int);
        }
        let mut taken = Entry::Free { generation: next_gen };
        core::mem::swap(&mut self.vec[idx], &mut taken);
        self.len = self.len - 1;
        if next_gen <= u32::MAX - 2 {
            self.free_ids.push(key.id);
        }
        match taken {
            Entry::Occupied { value, generation: _ } => Some(value),
            Entry::Free { .. } => {
                proof {
                    assert(false);
                }
                None
            },
        }
    }

    /// Number of occupied slots.
    pub fn len(&self) -> (r: usize)
        ensures
            r == self.spec_len(),
    {
        self.len
    }

    /// Number of slots ever allocated, occupied or free.
    pub fn slot_len(&self) -> (r: usize)
        ensures
            r == self.slot_count(),
    {
        self.vec.len()
    }

    /// The occupied values, in slot order: one entry per occupied slot.
    pub fn values(&self) -> (r: Vec<&T>)
        ensures
            r@.len() == occupied_count(self.slots()),
            r@.len() == values_of(self.slots()).len(),
            forall|j: int|
                0 <= j < r@.len() ==> *(#[trigger] r@[j]) == values_of(self.slots())[j],
    {
        let mut out: Vec<&T> = Vec::new();
        let mut i: usize = 0;
        while i < self.vec.len()
            invariant
                i <= self.vec@.len(),
                out@.len() == occupied_count(self.vec@.subrange(0, i as int)),
                out@.len() == values_of(self.vec@.subrange(0, i as int)).len(),
                forall|j: int|
                    0 <= j < out@.len() ==> *(#[trigger] out@[j]) == values_of(
                        self.vec@.subrange(0, i as int),
                    )[j],
            decreases self.vec@.len() - i,
        {
            proof {
                assert(self.vec@.subrange(0, i + 1 as int).drop_last() =~= self.vec@.subrange(
                    0,
                    i as int,
                ));
                lemma_occupied_count_bounds(self.vec@.subrange(0, i as int));
            }
            match &self.vec[i] {
                Entry::Occupied { value, .. } => {
                    out.push(value);
                },
                Entry::Free { .. } => {},
            }
            i = i + 1;
        }
        proof {
            assert(self.vec@.subrange(0, self.vec@.len() as int) =~= self.vec@);
        }
        out
    }
}

/// Generational-key soundness: an operation that bumped a slot's generation
/// past a key's generation makes that key stale forever.  Every mutating
/// operation above ensures generations never decrease, and a successful
/// `remove` ensures the slot's generation exceeds the removed key's; so by
/// this lemma, a key returned to the caller and then removed is never again
/// accepted by `get`, `get_mut` or `remove`.
pub proof fn lemma_stale_key_rejected<T>(v: GenVec<T>, key: Key)
    requires
        key.id < v.slot_count() ==> v.gen_of(key.id as int) > key.generation,
    ensures
        v.spec_get(key) is None,
{
}

} // verus!
