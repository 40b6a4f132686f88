//! Looking nodes up by their address.

use crate::octree::OctreeKey;
use std::collections::HashMap;
use vstd::prelude::*;

verus! {

broadcast use vstd::std_specs::hash::group_hash_axioms;

/// An address as one number.
pub open spec fn packed(k: OctreeKey) -> int {
    ((k.level * 0x1_0000_0000 + k.x) * 0x1_0000_0000 + k.y) * 0x1_0000_0000 + k.z
}

/// Two addresses with one number are the same.
pub proof fn packed_is_unique(a: OctreeKey, b: OctreeKey)
    requires
        packed(a) == packed(b),
    ensures
        a == b,
{
}

/// An address as one number.
pub fn pack(k: OctreeKey) -> (n: u128)
    ensures
        n == packed(k),
{
    ((k.level as u128 * 0x1_0000_0000 + k.x as u128) * 0x1_0000_0000 + k.y as u128)
        * 0x1_0000_0000 + k.z as u128
}

/// How many times an address occurs.
pub open spec fn occurrences(keys: Seq<OctreeKey>, k: OctreeKey) -> nat
    decreases keys.len(),
{
    if keys.len() == 0 {
        0
    } else {
        occurrences(keys.drop_last(), k) + if keys.last() == k {
            1nat
        } else {
            0
        }
    }
}

/// Where an address occurs last, or -1.
pub open spec fn last_at(keys: Seq<OctreeKey>, k: OctreeKey) -> int
    decreases keys.len(),
{
    if keys.len() == 0 {
        -1
    } else if keys.last() == k {
        keys.len() - 1
    } else {
        last_at(keys.drop_last(), k)
    }
}

/// An address that occurs, occurs where it occurs last.
pub proof fn last_at_is_there(keys: Seq<OctreeKey>, k: OctreeKey)
    ensures
        -1 <= last_at(keys, k) < keys.len(),
        occurrences(keys, k) <= keys.len(),
        occurrences(keys, k) > 0 <==> last_at(keys, k) >= 0,
        last_at(keys, k) >= 0 ==> keys[last_at(keys, k)] == k,
        occurrences(keys, k) > 0 <==> keys.contains(k),
    decreases keys.len(),
{
    if keys.len() > 0 {
        let shorter = keys.drop_last();
        last_at_is_there(shorter, k);
        if keys.last() == k {
            assert(keys[keys.len() - 1] == k);
        } else if keys.contains(k) {
            let i = choose|i: int| 0 <= i < keys.len() && keys[i] == k;
            assert(shorter[i] == k);
        } else if shorter.contains(k) {
            let i = choose|i: int| 0 <= i < shorter.len() && shorter[i] == k;
            assert(keys[i] == k);
        }
    }
}

/// Among distinct addresses each occurs at most once.
pub proof fn distinct_keys_occur_once(keys: Seq<OctreeKey>, k: OctreeKey)
    requires
        keys.no_duplicates(),
    ensures
        occurrences(keys, k) <= 1,
    decreases keys.len(),
{
    if keys.len() > 0 {
        let shorter = keys.drop_last();
        assert(shorter.no_duplicates());
        distinct_keys_occur_once(shorter, k);
        last_at_is_there(shorter, k);
        if keys.last() == k && occurrences(shorter, k) > 0 {
            let i = last_at(shorter, k);
            assert(keys[i] == keys[keys.len() - 1]);
        }
    }
}

/// How often each address of a list occurs, and where it does so last.
#[derive(Debug)]
pub struct KeyIndex {
    map: HashMap<u128, (usize, usize)>,
}

impl KeyIndex {
    /// Whether this is the index of a list.
    pub closed spec fn of(self, keys: Seq<OctreeKey>) -> bool {
        forall|k: OctreeKey|
            {
                let n = #[trigger] packed(k) as u128;
                if occurrences(keys, k) == 0 {
                    !self.map@.contains_key(n)
                } else {
                    self.map@.contains_key(n) && self.map@[n].0 == occurrences(keys, k)
                        && self.map@[n].1 == last_at(keys, k)
                }
            }
    }

    /// The index of no addresses at all.
    pub fn new() -> (r: Self)
        ensures
            r.of(Seq::empty()),
    {
        KeyIndex { map: HashMap::new() }
    }

    /// Adds an address behind those of the list.
    pub(crate) fn add(&mut self, keys: Ghost<Seq<OctreeKey>>, k: OctreeKey, at: usize)
        requires
            old(self).of(keys@),
            at == keys@.len(),
            at < usize::MAX,
        ensures
            final(self).of(keys@.push(k)),
    {
        let n: u128 = pack(k);
        let ghost more = keys@.push(k);
        proof {
            last_at_is_there(keys@, k);
            assert(packed(k) as u128 == n);
        }
        let before: usize = match self.map.get(&n) {
            Some(e) => e.0,
            None => 0,
        };
        assert(before == occurrences(keys@, k));
        self.map.insert(n, (before + 1, at));
        assert(more.drop_last() =~= keys@);
        proof {
            assert forall|j: OctreeKey|
                {
                    let m = #[trigger] packed(j) as u128;
                    if occurrences(more, j) == 0 {
                        !self.map@.contains_key(m)
                    } else {
                        self.map@.contains_key(m) && self.map@[m].0 == occurrences(more, j)
                            && self.map@[m].1 == last_at(more, j)
                    }
                } by {
                lemma_packed_range(j);
                lemma_packed_range(k);
                if j != k {
                    if packed(j) == packed(k) {
                        packed_is_unique(j, k);
                    }
                    let old_entry = packed(j) as u128;
                    assert(if occurrences(keys@, j) == 0 {
                        !old(self).map@.contains_key(old_entry)
                    } else {
                        old(self).map@.contains_key(old_entry)
                    });
                }
            }
        }
    }

    /// How often an address occurs, and where it does so last.
    pub(crate) fn find(&self, keys: Ghost<Seq<OctreeKey>>, k: OctreeKey) -> (r: Option<(usize, usize)>)
        requires
            self.of(keys@),
        ensures
            match r {
                Some((n, at)) => n == occurrences(keys@, k) && n > 0 && at == last_at(keys@, k),
                None => occurrences(keys@, k) == 0,
            },
    {
        let n: u128 = pack(k);
        assert(packed(k) as u128 == n);
        match self.map.get(&n) {
            Some(e) => Some((e.0, e.1)),
            None => None,
        }
    }
}

/// An address fits in 128 bits.
pub proof fn lemma_packed_range(k: OctreeKey)
    ensures
        0 <= packed(k) <= u128::MAX,
{
    assert(packed(k) <= 0xffff_ffff * 0x1_0000_0000_0000_0000_0000_0000 + 0xffff_ffff
        * 0x1_0000_0000_0000_0000 + 0xffff_ffff * 0x1_0000_0000 + 0xffff_ffff);
}

} // verus!
