//! A small association table keyed by 64-bit digests.
//!
//! The index stores its three mappings (node storage, parent link, child set)
//! in this structure.  It is a vector of key/value pairs with unique keys,
//! viewed as a `Map<u64, V>`.

use vstd::prelude::*;

verus! {

pub struct Table<V> {
    pub entries: Vec<(u64, V)>,
}

/// The map denoted by a sequence of key/value pairs (later pairs win).
pub open spec fn map_of<V>(s: Seq<(u64, V)>) -> Map<u64, V>
    decreases s.len(),
{
    if s.len() == 0 {
        Map::empty()
    } else {
        map_of(s.drop_last()).insert(s.last().0, s.last().1)
    }
}

/// No key occurs twice.
pub open spec fn keys_unique<V>(s: Seq<(u64, V)>) -> bool {
    forall|i: int, j: int| 0 <= i < j < s.len() ==> (#[trigger] s[i]).0 != (#[trigger] s[j]).0
}

/// Membership in the denoted map is witnessed by an entry.
pub proof fn lemma_map_of_contains<V>(s: Seq<(u64, V)>, k: u64)
    ensures
        map_of(s).contains_key(k) <==> exists|i: int| 0 <= i < s.len() && (#[trigger] s[i]).0 == k,
    decreases s.len(),
{
    if s.len() > 0 {
        lemma_map_of_contains(s.drop_last(), k);
        if map_of(s).contains_key(k) {
            if s.last().0 == k {
                assert(s[s.len() - 1].0 == k);
            } else {
                let i = choose|i: int| 0 <= i < s.len() - 1 && (#[trigger] s.drop_last()[i]).0
                    == k;
                assert(s[i].0 == k);
            }
        }
        if exists|i: int| 0 <= i < s.len() && (#[trigger] s[i]).0 == k {
            let i = choose|i: int| 0 <= i < s.len() && (#[trigger] s[i]).0 == k;
            if i < s.len() - 1 {
                assert(s.drop_last()[i].0 == k);
            }
        }
    }
}

/// Under unique keys, each entry gives the value of the denoted map.
pub proof fn lemma_map_of_index<V>(s: Seq<(u64, V)>, i: int)
    requires
        keys_unique(s),
        0 <= i < s.len(),
    ensures
        map_of(s).contains_key(s[i].0),
        map_of(s)[s[i].0] == s[i].1,
    decreases s.len(),
{
    if i == s.len() - 1 {
    } else {
        assert(keys_unique(s.drop_last())) by {
            assert(forall|x: int|
                0 <= x < s.len() - 1 ==> #[trigger] s.drop_last()[x] == s[x]);
        }
        lemma_map_of_index(s.drop_last(), i);
        assert(s.drop_last()[i] == s[i]);
        assert(s[i].0 != s.last().0);
    }
}

impl<V> Table<V> {
    /// The mapping this table denotes.
    pub open spec fn view(&self) -> Map<u64, V> {
        map_of(self.entries@)
    }

    /// Well-formed: no key occurs twice.
    pub open spec fn wf(&self) -> bool {
        keys_unique(self.entries@)
    }

    pub fn new() -> (r: Table<V>)
        ensures
            r.wf(),
            r@ == Map::<u64, V>::empty(),
            r.entries@.len() == 0,
    {
        Table { entries: Vec::new() }
    }

    /// The number of entries, which equals the cardinality of the map.
    pub fn len(&self) -> (r: usize)
        ensures
            r == self.entries@.len(),
    {
        self.entries.len()
    }

    /// Position of the entry holding `k`, if any.
    fn index_of(&self, k: u64) -> (r: Option<usize>)
        ensures
            match r {
                Some(i) => 0 <= i < self.entries@.len() && self.entries@[i as int].0 == k,
                None => forall|i: int|
                    0 <= i < self.entries@.len() ==> (#[trigger] self.entries@[i]).0 != k,
            },
    {
        let mut i: usize = 0;
        while i < self.entries.len()
            invariant
                0 <= i <= self.entries@.len(),
                forall|j: int| 0 <= j < i ==> (#[trigger] self.entries@[j]).0 != k,
            decreases self.entries@.len() - i,
        {
            if self.entries[i].0 == k {
                return Some(i);
            }
            i = i + 1;
        }
        None
    }

    pub fn contains_key(&self, k: u64) -> (r: bool)
        ensures
            r == self@.contains_key(k),
    {
        proof {
            lemma_map_of_contains(self.entries@, k);
        }
        match self.index_of(k) {
            Some(_) => true,
            None => false,
        }
    }

    pub fn get(&self, k: u64) -> (r: Option<&V>)
        requires
            self.wf(),
        ensures
            match r {
                Some(v) => self@.contains_key(k) && self@[k] == *v,
                None => !self@.contains_key(k),
            },
    {
        proof {
            lemma_map_of_contains(self.entries@, k);
        }
        match self.index_of(k) {
            Some(i) => {
                proof {
                    lemma_map_of_index(self.entries@, i as int);
                }
                Some(&self.entries[i].1)
            },
            None => None,
        }
    }

    /// Inserts or replaces the value under `k`.
    pub fn insert(&mut self, k: u64, v: V)
        requires
            old(self).wf(),
        ensures
            final (self).wf(),
            final (self)@ == old(self)@.insert(k, v),
            final (self).entries@.len() <= old(self).entries@.len() + 1,
    {
        let ghost before = self.entries@;
        match self.index_of(k) {
            Some(i) => {
                self.entries[i] = (k, v);
                proof {
                    lemma_replace_map_of(before, self.entries@, i as int, k);
                }
            },
            None => {
                self.entries.push((k, v));
                proof {
                    assert(self.entries@.drop_last() =~= before);
                    assert(forall|x: int|
                        0 <= x < before.len() ==> #[trigger] self.entries@[x] == before[x]);
                }
            },
        }
    }

    /// Removes the entry under `k`, if any.
    pub fn remove(&mut self, k: u64)
        requires
            old(self).wf(),
        ensures
            final (self).wf(),
            final (self)@ == old(self)@.remove(k),
            final (self).entries@.len() <= old(self).entries@.len(),
    {
        let ghost before = self.entries@;
        match self.index_of(k) {
            Some(i) => {
                let _ = self.entries.swap_remove(i);
                proof {
                    lemma_swap_remove_map_of(before, self.entries@, i as int, k);
                }
            },
            None => {
                proof {
                    lemma_map_of_contains(before, k);
                    assert(map_of(before).remove(k) =~= map_of(before));
                }
            },
        }
    }
}

/// Replacing the value at an existing key position denotes `insert`.
proof fn lemma_replace_map_of<V>(before: Seq<(u64, V)>, after: Seq<(u64, V)>, i: int, k: u64)
    requires
        keys_unique(before),
        0 <= i < before.len(),
        before[i].0 == k,
        after.len() == before.len(),
        after[i].0 == k,
        forall|j: int| 0 <= j < before.len() && j != i ==> after[j] == before[j],
    ensures
        keys_unique(after),
        map_of(after) == map_of(before).insert(k, after[i].1),
    decreases before.len(),
{
    assert(keys_unique(after)) by {
        assert(forall|x: int, y: int|
            0 <= x < y < after.len() ==> (#[trigger] after[x]).0 == before[x].0 && (
            #[trigger] after[y]).0 == before[y].0);
    }
    if before.len() == 0 {
    } else if i == before.len() - 1 {
        assert(after.drop_last() =~= before.drop_last());
        assert(map_of(after) =~= map_of(before).insert(k, after[i].1));
    } else {
        assert(keys_unique(before.drop_last())) by {
            assert(forall|x: int|
                0 <= x < before.len() - 1 ==> #[trigger] before.drop_last()[x] == before[x]);
        }
        lemma_replace_map_of(before.drop_last(), after.drop_last(), i, k);
        assert(after.drop_last()[i] == after[i]);
        assert(after.last() == before.last());
        assert(before.last().0 != k);
        assert(map_of(after) =~= map_of(before).insert(k, after[i].1));
    }
}

/// `swap_remove` at the key's position denotes `remove`.
proof fn lemma_swap_remove_map_of<V>(before: Seq<(u64, V)>, after: Seq<(u64, V)>, i: int, k: u64)
    requires
        keys_unique(before),
        0 <= i < before.len(),
        before[i].0 == k,
        after =~= before.update(i, before.last()).drop_last(),
    ensures
        keys_unique(after),
        map_of(after) == map_of(before).remove(k),
{
    assert(keys_unique(after)) by {
        assert forall|x: int, y: int| 0 <= x < y < after.len() implies (#[trigger] after[x]).0 != (
        #[trigger] after[y]).0 by {
            if x == i {
                assert(after[x] == before[before.len() - 1]);
            } else {
                assert(after[x] == before[x]);
            }
            if y == i {
                assert(after[y] == before[before.len() - 1]);
            } else {
                assert(after[y] == before[y]);
            }
        }
    }
    assert(map_of(after) =~= map_of(before).remove(k)) by {
        lemma_map_of_permuted_membership(before, after, k, i);
    }
}

/// Pointwise description of the map after a swap-remove.
proof fn lemma_map_of_permuted_membership<V>(
    before: Seq<(u64, V)>,
    after: Seq<(u64, V)>,
    k: u64,
    i: int,
)
    requires
        keys_unique(before),
        0 <= i < before.len(),
        before[i].0 == k,
        after =~= before.update(i, before.last()).drop_last(),
    ensures
        forall|q: u64|
            map_of(after).contains_key(q) <==> (map_of(before).contains_key(q) && q != k),
        forall|q: u64|
            #![auto]
            map_of(after).contains_key(q) ==> map_of(after)[q] == map_of(before)[q],
{
    assert(keys_unique(after)) by {
        assert forall|x: int, y: int| 0 <= x < y < after.len() implies (#[trigger] after[x]).0 != (
        #[trigger] after[y]).0 by {
            if x == i {
                assert(after[x] == before[before.len() - 1]);
            } else {
                assert(after[x] == before[x]);
            }
            if y == i {
                assert(after[y] == before[before.len() - 1]);
            } else {
                assert(after[y] == before[y]);
            }
        }
    }
    assert forall|q: u64| map_of(after).contains_key(q) <==> (map_of(before).contains_key(q) && q
        != k) by {
        lemma_map_of_contains(after, q);
        lemma_map_of_contains(before, q);
        if map_of(after).contains_key(q) {
            let x = choose|x: int| 0 <= x < after.len() && (#[trigger] after[x]).0 == q;
            if x == i {
                assert(before[before.len() - 1].0 == q);
            } else {
                assert(before[x].0 == q);
            }
            assert(q != k) by {
                if x == i {
                    assert(before[before.len() - 1].0 == q);
                    if before.len() - 1 != i {
                        assert(before[i].0 != before[before.len() - 1].0);
                    }
                } else {
                    assert(before[x].0 == q && before[i].0 == k && x != i);
                }
            }
        }
        if map_of(before).contains_key(q) && q != k {
            let x = choose|x: int| 0 <= x < before.len() && (#[trigger] before[x]).0 == q;
            assert(x != i);
            if x == before.len() - 1 {
                assert(after[i].0 == q);
            } else {
                assert(after[x].0 == q);
            }
        }
    }
    assert forall|q: u64| #![auto] map_of(after).contains_key(q) implies map_of(after)[q] == map_of(
        before,
    )[q] by {
        lemma_map_of_contains(after, q);
        let x = choose|x: int| 0 <= x < after.len() && (#[trigger] after[x]).0 == q;
        lemma_map_of_index(after, x);
        if x == i {
            lemma_map_of_index(before, before.len() - 1);
            assert(after[x] == before[before.len() - 1]);
        } else {
            lemma_map_of_index(before, x);
            assert(after[x] == before[x]);
        }
    }
}

} // verus!
