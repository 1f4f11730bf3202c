//! A map from a type's 64-bit key to a single erased value held as bytes:
//! one value per type, as the world's resource store needs.

use vstd::prelude::*;

verus! {

pub struct AnyMap {
    data: Vec<(u64, Vec<u8>)>,
}

impl AnyMap {
    pub closed spec fn entries(self) -> Seq<(u64, Vec<u8>)> {
        self.data@
    }

    /// Is some value stored under this type key?
    pub open spec fn has_key(self, tk: u64) -> bool {
        exists|i: int| 0 <= i < self.entries().len() && (#[trigger] self.entries()[i]).0 == tk
    }

    /// The bytes stored under this type key.
    pub open spec fn value_of(self, tk: u64) -> Seq<u8> {
        self.entries()[choose|i: int|
            0 <= i < self.entries().len() && (#[trigger] self.entries()[i]).0 == tk].1@
    }

    pub open spec fn wf(self) -> bool {
        forall|i: int, j: int|
            0 <= i < j < self.entries().len() ==> (#[trigger] self.entries()[i]).0 != (
            #[trigger] self.entries()[j]).0
    }

    pub fn new() -> (r: Self)
        ensures
            r.wf(),
            r.entries().len() == 0,
    {
        Self { data: Vec::new() }
    }

    /// The bytes stored for a type, if any.
    #[verifier::loop_isolation(false)]
    pub fn get(&self, tk: u64) -> (r: Option<&Vec<u8>>)
        requires
            self.wf(),
        ensures
            match r {
                Some(v) => self.has_key(tk) && v@ == self.value_of(tk),
                None => !self.has_key(tk),
            },
    {
        let mut i: usize = 0;
        while i < self.data.len()
            invariant
                self.wf(),
                i <= self.entries().len(),
                forall|k: int| 0 <= k < i ==> (#[trigger] self.entries()[k]).0 != tk,
            decreases self.entries().len() - i,
        {
            if self.data[i].0 == tk {
                proof {
                    assert(self.entries()[i as int].0 == tk);
                    let w = choose|w: int|
                        0 <= w < self.entries().len() && (#[trigger] self.entries()[w]).0 == tk;
                    assert(w == i);
                }
                return Some(&self.data[i].1);
            }
            i = i + 1;
        }
        None
    }

    /// Store a value for a type, replacing any earlier one.
    #[verifier::loop_isolation(false)]
    pub fn insert(&mut self, tk: u64, value: Vec<u8>)
        requires
            old(self).wf(),
        ensures
            final(self).wf(),
            final(self).has_key(tk),
            final(self).value_of(tk) == value@,
            forall|tk2: u64|
                tk2 != tk ==> #[trigger] final(self).has_key(tk2) == old(self).has_key(tk2) && (
                old(self).has_key(tk2) ==> final(self).value_of(tk2) == old(self).value_of(tk2)),
    {
        let ghost pre = *self;
        let mut i: usize = 0;
        while i < self.data.len()
            invariant
                *self == pre,
                pre.wf(),
                i <= self.entries().len(),
                forall|k: int| 0 <= k < i ==> (#[trigger] self.entries()[k]).0 != tk,
            decreases self.entries().len() - i,
        {
            if self.data[i].0 == tk {
                self.data[i] = (tk, value);
                proof {
                    lemma_unique_lookup(final(self).entries(), tk, i as int);
                    assert forall|tk2: u64|
                        tk2 != tk implies #[trigger] final(self).has_key(tk2) == pre.has_key(tk2)
                        && (pre.has_key(tk2) ==> final(self).value_of(tk2) == pre.value_of(
                        tk2,
                    )) by {
                        if pre.has_key(tk2) {
                            let w = choose|w: int|
                                0 <= w < pre.entries().len() && (#[trigger] pre.entries()[w]).0
                                    == tk2;
                            assert(final(self).entries()[w].0 == tk2);
                            lemma_unique_lookup(final(self).entries(), tk2, w);
                            lemma_unique_lookup(pre.entries(), tk2, w);
                        }
                        if final(self).has_key(tk2) {
                            let w = choose|w: int|
                                0 <= w < final(self).entries().len() && (#[trigger] final(self).entries()[w]).0 == tk2;
                            assert(pre.entries()[w].0 == tk2);
                        }
                    }
                }
                return ;
            }
            i = i + 1;
        }
        self.data.push((tk, value));
        proof {
            lemma_unique_lookup(final(self).entries(), tk, pre.entries().len() as int);
            assert forall|tk2: u64|
                tk2 != tk implies #[trigger] final(self).has_key(tk2) == pre.has_key(tk2) && (
            pre.has_key(tk2) ==> final(self).value_of(tk2) == pre.value_of(tk2)) by {
                if pre.has_key(tk2) {
                    let w = choose|w: int|
                        0 <= w < pre.entries().len() && (#[trigger] pre.entries()[w]).0 == tk2;
                    assert(final(self).entries()[w].0 == tk2);
                    lemma_unique_lookup(final(self).entries(), tk2, w);
                    lemma_unique_lookup(pre.entries(), tk2, w);
                }
                if final(self).has_key(tk2) {
                    let w = choose|w: int|
                        0 <= w < final(self).entries().len() && (#[trigger] final(self).entries()[w]).0 == tk2;
                    assert(w < pre.entries().len());
                    assert(pre.entries()[w].0 == tk2);
                }
            }
        }
    }

    /// Take the value stored for a type out of the map.
    #[verifier::loop_isolation(false)]
    pub fn remove(&mut self, tk: u64) -> (r: Option<Vec<u8>>)
        requires
            old(self).wf(),
        ensures
            final(self).wf(),
            !final(self).has_key(tk),
            match r {
                Some(v) => old(self).has_key(tk) && v@ == old(self).value_of(tk),
                None => !old(self).has_key(tk) && *final(self) == *old(self),
            },
    {
        let ghost pre = *self;
        let mut i: usize = 0;
        while i < self.data.len()
            invariant
                *self == pre,
                pre.wf(),
                i <= self.entries().len(),
                forall|k: int| 0 <= k < i ==> (#[trigger] self.entries()[k]).0 != tk,
            decreases self.entries().len() - i,
        {
            if self.data[i].0 == tk {
                proof {
                    lemma_unique_lookup(pre.entries(), tk, i as int);
                }
                let entry = self.data.remove(i);
                proof {
                    assert forall|w: int|
                        0 <= w < self.entries().len() implies (#[trigger] self.entries()[w]).0
                        != tk by {
                        if w < i {
                            assert(self.entries()[w] == pre.entries()[w]);
                        } else {
                            assert(self.entries()[w] == pre.entries()[w + 1]);
                        }
                    }
                    assert forall|w1: int, w2: int|
                        0 <= w1 < w2 < self.entries().len() implies (#[trigger] self.entries()[
                        w1
                    ]).0 != (#[trigger] self.entries()[w2]).0 by {
                        let p1 = if w1 < i {
                            w1
                        } else {
                            w1 + 1
                        };
                        let p2 = if w2 < i {
                            w2
                        } else {
                            w2 + 1
                        };
                        assert(self.entries()[w1] == pre.entries()[p1]);
                        assert(self.entries()[w2] == pre.entries()[p2]);
                    }
                }
                return Some(entry.1);
            }
            i = i + 1;
        }
        None
    }

    pub fn len(&self) -> (r: usize)
        ensures
            r == self.entries().len(),
    {
        self.data.len()
    }
}

/// In a duplicate-free entry list, the entry found at a position is the one
/// `choose` picks.
proof fn lemma_unique_lookup(entries: Seq<(u64, Vec<u8>)>, tk: u64, i: int)
    requires
        forall|a: int, b: int|
            0 <= a < b < entries.len() ==> (#[trigger] entries[a]).0 != (#[trigger] entries[b]).0,
        0 <= i < entries.len(),
        entries[i].0 == tk,
    ensures
        (choose|w: int| 0 <= w < entries.len() && (#[trigger] entries[w]).0 == tk) == i,
{
    assert(exists|w: int| 0 <= w < entries.len() && (#[trigger] entries[w]).0 == tk) by {
        assert(entries[i].0 == tk);
    }
    let w = choose|w: int| 0 <= w < entries.len() && (#[trigger] entries[w]).0 == tk;
    if w != i {
        if w < i {
            assert(entries[w].0 != entries[i].0);
        } else {
            assert(entries[i].0 != entries[w].0);
        }
    }
}

} // verus!
