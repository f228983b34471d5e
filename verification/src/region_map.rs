//! A small verified association map keyed by region, used for the field
//! store's content cache and for the in-flight set.

use vstd::prelude::*;
use vstd::map::*;
use crate::region::Region;

verus! {

/// The mathematical map held by a sequence of key/value pairs.
pub open spec fn entries_map<V>(s: Seq<(Region, V)>) -> Map<Region, V>
    decreases s.len(),
{
    if s.len() == 0 {
        Map::empty()
    } else {
        entries_map(s.drop_last()).insert(s.last().0, s.last().1)
    }
}

pub proof fn lemma_entries_map_contains<V>(s: Seq<(Region, V)>, k: Region)
    ensures
        entries_map(s).contains_key(k) <==> exists|i: int|
            0 <= i < s.len() && (#[trigger] s[i]).0 == k,
    decreases s.len(),
{
    if s.len() > 0 {
        lemma_entries_map_contains(s.drop_last(), k);
        if entries_map(s).contains_key(k) && s.last().0 != k {
            let i = choose|i: int| 0 <= i < s.drop_last().len() && (#[trigger] s.drop_last()[i]).0
                == k;
            assert(s[i].0 == k);
        }
        if exists|i: int| 0 <= i < s.len() && (#[trigger] s[i]).0 == k {
            let i = choose|i: int| 0 <= i < s.len() && (#[trigger] s[i]).0 == k;
            if i < s.len() - 1 {
                assert(s.drop_last()[i].0 == k);
            }
        }
    }
}

pub proof fn lemma_entries_map_index<V>(s: Seq<(Region, V)>, i: int)
    requires
        forall|a: int, b: int| 0 <= a < b < s.len() ==> (#[trigger] s[a]).0 != (#[trigger] s[b]).0,
        0 <= i < s.len(),
    ensures
        entries_map(s).contains_key(s[i].0),
        entries_map(s)[s[i].0] == s[i].1,
    decreases s.len(),
{
    if i < s.len() - 1 {
        lemma_entries_map_index(s.drop_last(), i);
        assert(s.drop_last()[i] == s[i]);
    }
}

/// Association map from region keys to values; each key appears at most once.
pub struct RegionMap<V> {
    entries: Vec<(Region, V)>,
}

impl<V> View for RegionMap<V> {
    type V = Map<Region, V>;

    closed spec fn view(&self) -> Map<Region, V> {
        entries_map(self.entries@)
    }
}

impl<V: Copy> RegionMap<V> {
    /// Keys are pairwise distinct, so the sequence of entries and the
    /// mathematical map carry the same information.
    pub closed spec fn wf(self) -> bool {
        forall|a: int, b: int|
            0 <= a < b < self.entries@.len() ==> (#[trigger] self.entries@[a]).0 != (
            #[trigger] self.entries@[b]).0
    }

    pub fn new() -> (m: Self)
        ensures
            m.wf(),
            m@ == Map::<Region, V>::empty(),
    {
        RegionMap { entries: Vec::new() }
    }

    pub fn get(&self, k: Region) -> (r: Option<V>)
        requires
            self.wf(),
        ensures
            match r {
                Some(v) => self@.contains_key(k) && self@[k] == v,
                None => !self@.contains_key(k),
            },
    {
        let n = self.entries.len();
        let mut i: usize = 0;
        while i < n
            invariant
                n == self.entries@.len(),
                0 <= i <= n,
                self.wf(),
                forall|j: int| 0 <= j < i ==> (#[trigger] self.entries@[j]).0 != k,
            decreases n - i,
        {
            let (key, value) = self.entries[i];
            if key == k {
                proof {
                    lemma_entries_map_index(self.entries@, i as int);
                }
                return Some(value);
            }
            i = i + 1;
        }
        proof {
            lemma_entries_map_contains(self.entries@, k);
        }
        None
    }

    pub fn contains_key(&self, k: Region) -> (r: bool)
        requires
            self.wf(),
        ensures
            r == self@.contains_key(k),
    {
        match self.get(k) {
            Some(_) => true,
            None => false,
        }
    }

    pub fn insert(&mut self, k: Region, v: V)
        requires
            old(self).wf(),
            !old(self)@.contains_key(k),
        ensures
            final(self).wf(),
            final(self)@ == old(self)@.insert(k, v),
    {
        proof {
            lemma_entries_map_contains(self.entries@, k);
        }
        self.entries.push((k, v));
        proof {
            assert(self.entries@.drop_last() == old(self).entries@);
        }
    }

    pub fn remove(&mut self, k: Region)
        requires
            old(self).wf(),
        ensures
            final(self).wf(),
            final(self)@ == old(self)@.remove(k),
    {
        let n = self.entries.len();
        let mut i: usize = 0;
        while i < n
            invariant
                n == self.entries@.len(),
                0 <= i <= n,
                self.wf(),
                self.entries@ == old(self).entries@,
                forall|j: int| 0 <= j < i ==> (#[trigger] self.entries@[j]).0 != k,
            decreases n - i,
        {
            let (key, _) = self.entries[i];
            if key == k {
                let ghost s = self.entries@;
                self.entries.swap_remove(i);
                proof {
                    let ghost t = self.entries@;
                    assert(t == s.update(i as int, s.last()).drop_last());
                    assert forall|a: int, b: int| 0 <= a < b < t.len() implies (
                    #[trigger] t[a]).0 != (#[trigger] t[b]).0 by {
                        assert(t[a] == if a == i { s[s.len() - 1] } else { s[a] });
                        assert(t[b] == if b == i { s[s.len() - 1] } else { s[b] });
                    }
                    lemma_region_map_remove(s, t, i as int, k);
                }
                return ;
            }
            i = i + 1;
        }
        proof {
            lemma_entries_map_contains(self.entries@, k);
            assert(entries_map(self.entries@) =~= entries_map(self.entries@).remove(k));
        }
    }
}

/// Removing the entry at index `i` (by swapping in the last entry) removes
/// exactly key `k` from the mathematical map.
proof fn lemma_region_map_remove<V>(s: Seq<(Region, V)>, t: Seq<(Region, V)>, i: int, k: Region)
    requires
        forall|a: int, b: int| 0 <= a < b < s.len() ==> (#[trigger] s[a]).0 != (#[trigger] s[b]).0,
        forall|a: int, b: int| 0 <= a < b < t.len() ==> (#[trigger] t[a]).0 != (#[trigger] t[b]).0,
        0 <= i < s.len(),
        s[i].0 == k,
        t == s.update(i, s.last()).drop_last(),
    ensures
        entries_map(t) == entries_map(s).remove(k),
{
    let ms = entries_map(s);
    let mt = entries_map(t);
    assert_maps_equal!(mt, ms.remove(k), k2 => {
        if mt.contains_key(k2) {
            lemma_entries_map_contains(t, k2);
            let a = choose|a: int| 0 <= a < t.len() && (#[trigger] t[a]).0 == k2;
            lemma_entries_map_index(t, a);
            let b: int = if a == i { s.len() - 1 } else { a };
            assert(s[b] == t[a]);
            lemma_entries_map_index(s, b);
            assert(k2 != k) by {
                if b != i {
                    assert(s[i].0 != s[b].0);
                }
            }
        }
        if ms.remove(k).contains_key(k2) {
            lemma_entries_map_contains(s, k2);
            let a = choose|a: int| 0 <= a < s.len() && (#[trigger] s[a]).0 == k2;
            assert(a != i);
            let b: int = if a == s.len() - 1 { i } else { a };
            assert(t[b] == s[a]);
            assert(t[b].0 == k2);
            lemma_entries_map_contains(t, k2);
        }
    });
}

} // verus!
