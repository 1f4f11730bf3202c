//! A small association from a type's 64-bit key to one value of `V`.

use vstd::prelude::*;

verus! {

/// The value the most recent entry with this key holds, if any.
pub open spec fn spec_lookup<V>(s: Seq<(u64, V)>, tk: u64) -> Option<V>
    decreases s.len(),
{
    if s.len() == 0 {
        None
    } else if s.last().0 == tk {
        Some(s.last().1)
    } else {
        spec_lookup(s.drop_last(), tk)
    }
}

/// Appending an entry shadows earlier ones with its key and nothing else.
proof fn lemma_lookup_push<V>(s: Seq<(u64, V)>, e: (u64, V), tk: u64)
    ensures
        spec_lookup(s.push(e), tk) == (if e.0 == tk {
            Some(e.1)
        } else {
            spec_lookup(s, tk)
        }),
{
    assert(s.push(e).drop_last() =~= s);
    assert(s.push(e).last() == e);
}

pub struct TypeIdMap<V> {
    map: Vec<(u64, V)>,
}

impl<V> TypeIdMap<V> {
    pub closed spec fn entries(self) -> Seq<(u64, V)> {
        self.map@
    }

    pub open spec fn has_key(self, tk: u64) -> bool {
        exists|i: int| 0 <= i < self.entries().len() && (#[trigger] self.entries()[i]).0 == tk
    }

    pub fn new() -> (r: Self)
        ensures
            r.entries().len() == 0,
    {
        Self { map: Vec::new() }
    }

    /// Store a value under a type key (later entries shadow earlier ones).
    pub fn insert_typed(&mut self, tk: u64, value: V)
        ensures
            final(self).entries() == old(self).entries().push((tk, value)),
            final(self).has_key(tk),
    {
        self.map.push((tk, value));
        proof {
            assert(final(self).entries()[old(self).entries().len() as int].0 == tk);
        }
    }

    /// The most recently stored value under a type key.
    pub fn get_typed(&self, tk: u64) -> (r: Option<&V>)
        ensures
            r is Some <==> self.has_key(tk),
            match r {
                Some(v) => spec_lookup(self.entries(), tk) == Some(*v),
                None => spec_lookup(self.entries(), tk) is None,
            },
    {
        let mut found: Option<usize> = None;
        let mut i: usize = 0;
        while i < self.map.len()
            invariant
                i <= self.entries().len(),
                match found {
                    Some(p) => p < self.entries().len() && self.entries()[p as int].0 == tk
                        && spec_lookup(self.entries().subrange(0, i as int), tk) == Some(
                        self.entries()[p as int].1,
                    ),
                    None => forall|k: int|
                        0 <= k < i ==> (#[trigger] self.entries()[k]).0 != tk,
                },
                found is None ==> spec_lookup(self.entries().subrange(0, i as int), tk) is None,
            decreases self.entries().len() - i,
        {
            proof {
                assert(self.entries().subrange(0, i + 1 as int) =~= self.entries().subrange(
                    0,
                    i as int,
                ).push(self.entries()[i as int]));
                lemma_lookup_push(
                    self.entries().subrange(0, i as int),
                    self.entries()[i as int],
                    tk,
                );
            }
            if self.map[i].0 == tk {
                found = Some(i);
            }
            i = i + 1;
        }
        proof {
            assert(self.entries().subrange(0, self.entries().len() as int) =~= self.entries());
        }
        match found {
            Some(p) => {
                proof {
                    assert(self.entries()[p as int].0 == tk);
                }
                Some(&self.map[p].1)
            },
            None => None,
        }
    }

    /// The whole association, mutably.
    pub fn get_map_mut(&mut self) -> (r: &mut Vec<(u64, V)>)
        ensures
            r@ == old(self).entries(),
            final(self).entries() == final(r)@,
    {
        &mut self.map
    }
}

} // verus!
