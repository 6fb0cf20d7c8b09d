//! An in-memory snapshot of the live filesystem.
//!
//! The engine never touches the disk itself: every operation takes an `Fs`
//! value describing what the filesystem looks like at that moment.  A host
//! process builds the snapshot by walking the real tree; tests build it
//! directly.  Each entry is a canonical absolute path with the metadata the
//! engine reads: kind, last-modification time in milliseconds, byte size.

use vstd::prelude::*;
use crate::paths::{
    is_canon_path, is_root_path, normalize, normalize_spec, parent_path, bytes_of, under, under_eq,
    is_under, parent_of, lemma_parent_canon, lemma_under_parent, lemma_under_eq_trans, SEP,
};

verus! {

use vstd::string::StringSliceAdditionalSpecFns;

/// What a metadata read reports for one path.
#[derive(PartialEq, Eq, Structural, Clone, Copy, Debug)]
pub struct FsMeta {
    pub is_dir: bool,
    /// Milliseconds since the Unix epoch.
    pub mtime: u64,
    pub size: u64,
}

pub struct FsEntry {
    pub path: Vec<u8>,
    pub meta: FsMeta,
}

pub struct Fs {
    pub entries: Vec<FsEntry>,
}

/// The path-to-metadata mapping denoted by a sequence of entries.
pub open spec fn fs_map_of(s: Seq<FsEntry>) -> Map<Seq<u8>, FsMeta>
    decreases s.len(),
{
    if s.len() == 0 {
        Map::empty()
    } else {
        fs_map_of(s.drop_last()).insert(s.last().path@, s.last().meta)
    }
}

/// No path occurs twice.
pub open spec fn fs_paths_unique(s: Seq<FsEntry>) -> bool {
    forall|i: int, j: int|
        0 <= i < j < s.len() ==> (#[trigger] s[i]).path@ != (#[trigger] s[j]).path@
}

/// The shape every snapshot mapping keeps: canonical keys, a root directory,
/// and a directory parent for every non-root key.
pub open spec fn fs_map_wf(m: Map<Seq<u8>, FsMeta>) -> bool {
    &&& forall|q: Seq<u8>| m.contains_key(q) ==> is_canon_path(q)
    &&& m.contains_key(seq![SEP])
    &&& m[seq![SEP]].is_dir
    &&& forall|q: Seq<u8>|
        #![trigger m.contains_key(q)]
        m.contains_key(q) && !is_root_path(q) ==> m.contains_key(parent_path(q)) && m[parent_path(
            q,
        )].is_dir
}

pub proof fn lemma_fs_map_contains(s: Seq<FsEntry>, q: Seq<u8>)
    ensures
        fs_map_of(s).contains_key(q) <==> exists|i: int|
            0 <= i < s.len() && (#[trigger] s[i]).path@ == q,
    decreases s.len(),
{
    if s.len() > 0 {
        lemma_fs_map_contains(s.drop_last(), q);
        if fs_map_of(s).contains_key(q) {
            if s.last().path@ == q {
                assert(s[s.len() - 1].path@ == q);
            } else {
                let i = choose|i: int|
                    0 <= i < s.len() - 1 && (#[trigger] s.drop_last()[i]).path@ == q;
                assert(s[i].path@ == q);
            }
        }
        if exists|i: int| 0 <= i < s.len() && (#[trigger] s[i]).path@ == q {
            let i = choose|i: int| 0 <= i < s.len() && (#[trigger] s[i]).path@ == q;
            if i < s.len() - 1 {
                assert(s.drop_last()[i].path@ == q);
            }
        }
    }
}

pub proof fn lemma_fs_map_index(s: Seq<FsEntry>, i: int)
    requires
        fs_paths_unique(s),
        0 <= i < s.len(),
    ensures
        fs_map_of(s).contains_key(s[i].path@),
        fs_map_of(s)[s[i].path@] == s[i].meta,
    decreases s.len(),
{
    if i == s.len() - 1 {
    } else {
        assert(fs_paths_unique(s.drop_last())) by {
            assert(forall|x: int|
                0 <= x < s.len() - 1 ==> #[trigger] s.drop_last()[x] == s[x]);
        }
        lemma_fs_map_index(s.drop_last(), i);
        assert(s.drop_last()[i] == s[i]);
        assert(s[i].path@ != s.last().path@);
    }
}

/// A well-formed snapshot contains every ancestor of a contained path.
pub proof fn lemma_fs_ancestor_present(m: Map<Seq<u8>, FsMeta>, a: Seq<u8>, q: Seq<u8>)
    requires
        fs_map_wf(m),
        m.contains_key(q),
        is_canon_path(a),
        is_canon_path(q),
        under(a, q),
    ensures
        m.contains_key(a),
    decreases q.len(),
{
    assert(!is_root_path(q)) by {
        assert(q.len() > a.len() >= 1);
    }
    assert(m.contains_key(parent_path(q)));
    crate::paths::lemma_longest_prefix(a, q);
    if a == parent_path(q) {
    } else {
        lemma_parent_canon(q);
        lemma_fs_ancestor_present(m, a, parent_path(q));
    }
}

/// Inserting a path whose parent is a present directory keeps the mapping
/// well-formed.
proof fn lemma_fs_map_insert_wf(m: Map<Seq<u8>, FsMeta>, p: Seq<u8>, meta: FsMeta)
    requires
        fs_map_wf(m),
        is_canon_path(p),
        !is_root_path(p),
        p.len() > 1,
        m.contains_key(parent_path(p)),
        m[parent_path(p)].is_dir,
        m.contains_key(p) ==> m[p].is_dir == meta.is_dir,
    ensures
        fs_map_wf(m.insert(p, meta)),
{
    let m2 = m.insert(p, meta);
    lemma_parent_canon(p);
    assert(p != seq![SEP]);
    assert(m2.contains_key(seq![SEP]) && m2[seq![SEP]].is_dir);
    assert forall|q: Seq<u8>|
        m2.contains_key(q) && !is_root_path(q) implies m2.contains_key(parent_path(q))
        && m2[parent_path(q)].is_dir by {
        if q == p {
            assert(parent_path(p).len() < p.len());
            assert(parent_path(p) != p);
            assert(m2[parent_path(p)] == m[parent_path(p)]);
        } else {
            assert(m.contains_key(q));
            assert(m.contains_key(parent_path(q)) && m[parent_path(q)].is_dir);
            if parent_path(q) == p {
                assert(m2[p].is_dir == meta.is_dir);
            } else {
                assert(m2[parent_path(q)] == m[parent_path(q)]);
            }
        }
    }
}

/// Removing a whole subtree keeps the mapping well-formed.
proof fn lemma_fs_map_remove_wf(m: Map<Seq<u8>, FsMeta>, m2: Map<Seq<u8>, FsMeta>, p: Seq<u8>)
    requires
        fs_map_wf(m),
        p.len() > 1,
        forall|q: Seq<u8>|
            #![trigger m2.contains_key(q)]
            m2.contains_key(q) <==> (m.contains_key(q) && !under_eq(p, q)),
        forall|q: Seq<u8>| #![auto] m2.contains_key(q) ==> m2[q] == m[q],
    ensures
        fs_map_wf(m2),
{
    assert(!under_eq(p, seq![SEP]));
    assert(m2.contains_key(seq![SEP]) && m2[seq![SEP]].is_dir);
    assert forall|q: Seq<u8>|
        m2.contains_key(q) && !is_root_path(q) implies m2.contains_key(parent_path(q))
        && m2[parent_path(q)].is_dir by {
        assert(m.contains_key(q));
        assert(is_canon_path(q));
        assert(m.contains_key(parent_path(q)) && m[parent_path(q)].is_dir);
        lemma_under_parent(q);
        if under_eq(p, parent_path(q)) {
            lemma_under_eq_trans(p, parent_path(q), q);
            assert(false);
        }
    }
}

/// `swap_remove` of one entry denotes `remove` of its path.
#[verifier::rlimit(100)]
proof fn lemma_fs_swap_remove(before: Seq<FsEntry>, after: Seq<FsEntry>, i: int)
    requires
        fs_paths_unique(before),
        0 <= i < before.len(),
        after =~= before.update(i, before.last()).drop_last(),
    ensures
        fs_paths_unique(after),
        fs_map_of(after) == fs_map_of(before).remove(before[i].path@),
{
    let k = before[i].path@;
    assert(fs_paths_unique(after)) by {
        assert forall|x: int, y: int| 0 <= x < y < after.len() implies (
        #[trigger] after[x]).path@ != (#[trigger] after[y]).path@ by {
            if x == i {
                assert(after[x] == before[before.len() - 1]);
            } else {
                assert(after[x] == before[x]);
            }
            if y == i {
                assert(after[y] == before[before.len() - 1]);
            } else {
                assert(after[y] == before[y]);
            }
        }
    }
    assert forall|q: Seq<u8>| fs_map_of(after).contains_key(q) <==> (#[trigger] fs_map_of(
        before,
    ).remove(k).contains_key(q)) by {
        lemma_fs_map_contains(after, q);
        lemma_fs_map_contains(before, q);
        if fs_map_of(after).contains_key(q) {
            let x = choose|x: int| 0 <= x < after.len() && (#[trigger] after[x]).path@ == q;
            if x == i {
                assert(before[before.len() - 1].path@ == q);
                if before.len() - 1 != i {
                    assert(before[i].path@ != before[before.len() - 1].path@);
                }
            } else {
                assert(before[x].path@ == q);
                assert(q != k ==> true);
                if q == k {
                    assert(before[x].path@ == before[i].path@ && x != i);
                    assert(false);
                }
            }
            if q == k {
                assert(false);
            }
        }
        if fs_map_of(before).contains_key(q) && q != k {
            let y = choose|y: int| 0 <= y < before.len() && (#[trigger] before[y]).path@ == q;
            assert(y != i);
            if y == before.len() - 1 {
                assert(after[i].path@ == q);
            } else {
                assert(after[y].path@ == q);
            }
        }
    }
    assert forall|q: Seq<u8>| #![auto] fs_map_of(after).contains_key(q) implies fs_map_of(after)[q]
        == fs_map_of(before)[q] by {
        lemma_fs_map_contains(after, q);
        let x = choose|x: int| 0 <= x < after.len() && (#[trigger] after[x]).path@ == q;
        lemma_fs_map_index(after, x);
        if x == i {
            lemma_fs_map_index(before, before.len() - 1);
            assert(after[x] == before[before.len() - 1]);
        } else {
            lemma_fs_map_index(before, x);
            assert(after[x] == before[x]);
        }
    }
    assert forall|q: Seq<u8>| #![auto] fs_map_of(after).contains_key(q) implies fs_map_of(
        after,
    )[q] == fs_map_of(before).remove(k)[q] by {
        assert(fs_map_of(before).remove(k).contains_key(q));
        assert(q != k);
        assert(fs_map_of(before).remove(k)[q] == fs_map_of(before)[q]);
    }
    assert(fs_map_of(after) =~= fs_map_of(before).remove(k));
}

impl Fs {
    /// The snapshot as a mapping from canonical paths to metadata.
    pub open spec fn view(&self) -> Map<Seq<u8>, FsMeta> {
        fs_map_of(self.entries@)
    }

    /// Well-formed snapshot: unique entries denoting a well-formed mapping.
    pub open spec fn wf(&self) -> bool {
        &&& fs_paths_unique(self.entries@)
        &&& fs_map_wf(self@)
    }

    /// A fresh snapshot holding only the root directory.
    pub fn new() -> (r: Fs)
        ensures
            r.wf(),
            r@ == Map::<Seq<u8>, FsMeta>::empty().insert(
                seq![SEP],
                FsMeta { is_dir: true, mtime: 0, size: 0 },
            ),
    {
        let mut root: Vec<u8> = Vec::new();
        root.push(SEP);
        let mut entries: Vec<FsEntry> = Vec::new();
        entries.push(FsEntry { path: root, meta: FsMeta { is_dir: true, mtime: 0, size: 0 } });
        let r = Fs { entries };
        proof {
            let s = r.entries@;
            assert(s.len() == 1);
            assert(s.drop_last() =~= Seq::<FsEntry>::empty());
            assert(fs_map_of(s.drop_last()) =~= Map::<Seq<u8>, FsMeta>::empty());
            assert(s[0].path@ =~= seq![SEP]);
            assert(s.last() == s[0]);
            assert(is_canon_path(seq![SEP]));
            assert(r@ =~= Map::<Seq<u8>, FsMeta>::empty().insert(
                seq![SEP],
                FsMeta { is_dir: true, mtime: 0, size: 0 },
            ));
            assert forall|q: Seq<u8>| r@.contains_key(q) implies is_canon_path(q) by {
                assert(q == seq![SEP]);
            }
            assert(!is_root_path(seq![SEP]) == false);
        }
        r
    }

    /// Position of the entry holding path `p`, if any.
    pub(crate) fn index_of(&self, p: &Vec<u8>) -> (r: Option<usize>)
        ensures
            match r {
                Some(i) => 0 <= i < self.entries@.len() && self.entries@[i as int].path@ == p@,
                None => forall|i: int|
                    0 <= i < self.entries@.len() ==> (#[trigger] self.entries@[i]).path@ != p@,
            },
    {
        let mut i: usize = 0;
        while i < self.entries.len()
            invariant
                0 <= i <= self.entries@.len(),
                forall|j: int| 0 <= j < i ==> (#[trigger] self.entries@[j]).path@ != p@,
            decreases self.entries@.len() - i,
        {
            if crate::paths::bytes_eq(self.entries[i].path.as_slice(), p.as_slice()) {
                return Some(i);
            }
            i = i + 1;
        }
        None
    }

    /// Metadata of the entry stored under canonical path `p`.
    pub fn lookup(&self, p: &Vec<u8>) -> (r: Option<FsMeta>)
        requires
            self.wf(),
        ensures
            match r {
                Some(m) => self@.contains_key(p@) && self@[p@] == m,
                None => !self@.contains_key(p@),
            },
    {
        proof {
            lemma_fs_map_contains(self.entries@, p@);
        }
        match self.index_of(p) {
            Some(i) => {
                proof {
                    lemma_fs_map_index(self.entries@, i as int);
                }
                Some(self.entries[i].meta)
            },
            None => None,
        }
    }

    /// Metadata of the path as a caller writes it, after canonicalization.
    pub fn metadata(&self, path: &str) -> (r: Option<FsMeta>)
        requires
            self.wf(),
        ensures
            match r {
                Some(m) => normalize_spec(path.spec_bytes()) is Some && self@.contains_key(
                    normalize_spec(path.spec_bytes()).unwrap(),
                ) && self@[normalize_spec(path.spec_bytes()).unwrap()] == m,
                None => normalize_spec(path.spec_bytes()) is None || !self@.contains_key(
                    normalize_spec(path.spec_bytes()).unwrap(),
                ),
            },
    {
        let raw = bytes_of(path);
        match normalize(&raw) {
            Some(p) => self.lookup(&p),
            None => None,
        }
    }

    /// Records `path` with the given metadata, overwriting any previous
    /// entry of the same kind.  Fails (and changes nothing) when the path is
    /// not absolute, is the root, has no directory entry as its parent, or
    /// changes kind.
    pub fn insert(&mut self, path: &str, is_dir: bool, size: u64, mtime: u64) -> (r: bool)
        requires
            old(self).wf(),
        ensures
            final (self).wf(),
            r ==> normalize_spec(path.spec_bytes()) is Some && final (self)@ == old(self)@.insert(
                normalize_spec(path.spec_bytes()).unwrap(),
                FsMeta { is_dir, mtime, size },
            ),
            !r ==> final (self)@ == old(self)@ && final (self).entries@ == old(self).entries@,
            r ==> !is_root_path(normalize_spec(path.spec_bytes()).unwrap()),
    {
        let raw = bytes_of(path);
        let p = match normalize(&raw) {
            Some(p) => p,
            None => { return false; },
        };
        if p.len() == 1 {
            proof {
                assert(is_root_path(p@));
            }
            return false;
        }
        proof {
            lemma_parent_canon(p@);
        }
        let pp = parent_of(&p);
        let parent_meta = match self.lookup(&pp) {
            Some(m) => m,
            None => { return false; },
        };
        if !parent_meta.is_dir {
            return false;
        }
        let meta = FsMeta { is_dir, mtime, size };
        let ghost m1 = self@;
        match self.index_of(&p) {
            Some(i) => {
                proof {
                    lemma_fs_map_index(self.entries@, i as int);
                }
                if self.entries[i].meta.is_dir != is_dir {
                    return false;
                }
                let ghost before = self.entries@;
                self.entries[i] = FsEntry { path: p, meta };
                proof {
                    lemma_fs_replace(before, self.entries@, i as int);
                    lemma_fs_map_insert_wf(m1, self.entries@[i as int].path@, meta);
                }
                true
            },
            None => {
                proof {
                    lemma_fs_map_contains(self.entries@, p@);
                }
                let ghost before = self.entries@;
                self.entries.push(FsEntry { path: p, meta });
                proof {
                    assert(self.entries@.drop_last() =~= before);
                    assert(forall|x: int, y: int|
                        0 <= x < y < before.len() ==> (#[trigger] self.entries@[x]).path@ != (
                        #[trigger] self.entries@[y]).path@);
                    let q = self.entries@[before.len() as int].path@;
                    assert(forall|x: int|
                        0 <= x < before.len() ==> (#[trigger] self.entries@[x]).path@ != q);
                    lemma_fs_map_insert_wf(m1, q, meta);
                }
                true
            },
        }
    }

    /// Forgets `path` and everything under it.  Returns whether the path was
    /// present; the root cannot be removed.
    pub fn remove(&mut self, path: &str) -> (r: bool)
        requires
            old(self).wf(),
        ensures
            final (self).wf(),
            r ==> normalize_spec(path.spec_bytes()) is Some && {
                let p = normalize_spec(path.spec_bytes()).unwrap();
                &&& old(self)@.contains_key(p)
                &&& !is_root_path(p)
                &&& forall|q: Seq<u8>|
                    #![trigger final (self)@.contains_key(q)]
                    final (self)@.contains_key(q) <==> (old(self)@.contains_key(q) && !under_eq(
                        p,
                        q,
                    ))
                &&& forall|q: Seq<u8>|
                    #![auto]
                    final (self)@.contains_key(q) ==> final (self)@[q] == old(self)@[q]
            },
            !r ==> final (self)@ == old(self)@ && final (self).entries@ == old(self).entries@,
    {
        let raw = bytes_of(path);
        let p = match normalize(&raw) {
            Some(p) => p,
            None => { return false; },
        };
        if p.len() == 1 {
            return false;
        }
        proof {
            lemma_fs_map_contains(self.entries@, p@);
        }
        if self.index_of(&p).is_none() {
            return false;
        }
        let ghost m1 = self@;
        loop
            invariant
                fs_paths_unique(self.entries@),
                p@.len() > 1,
                forall|q: Seq<u8>|
                    #![trigger self@.contains_key(q)]
                    self@.contains_key(q) ==> m1.contains_key(q) && self@[q] == m1[q],
                forall|q: Seq<u8>|
                    #![trigger m1.contains_key(q)]
                    m1.contains_key(q) && !under_eq(p@, q) ==> self@.contains_key(q),
            ensures
                fs_paths_unique(self.entries@),
                forall|q: Seq<u8>|
                    #![trigger self@.contains_key(q)]
                    self@.contains_key(q) ==> m1.contains_key(q) && self@[q] == m1[q],
                forall|q: Seq<u8>|
                    #![trigger m1.contains_key(q)]
                    m1.contains_key(q) && !under_eq(p@, q) ==> self@.contains_key(q),
                forall|q: Seq<u8>|
                    #![trigger self@.contains_key(q)]
                    self@.contains_key(q) ==> !under_eq(p@, q),
            decreases self.entries@.len(),
        {
            let ghost m_top = self@;
            proof {
                assert(forall|q: Seq<u8>|
                    #![trigger m_top.contains_key(q)]
                    m_top.contains_key(q) ==> m1.contains_key(q) && m_top[q] == m1[q]);
            }
            let mut found: usize = 0;
            let mut have: bool = false;
            let mut i: usize = 0;
            while i < self.entries.len() && !have
                invariant
                    0 <= i <= self.entries@.len(),
                    p@.len() >= 1,
                    have ==> 0 <= found < self.entries@.len() && under_eq(
                        p@,
                        self.entries@[found as int].path@,
                    ),
                    !have ==> forall|j: int|
                        0 <= j < i ==> !under_eq(p@, (#[trigger] self.entries@[j]).path@),
                decreases self.entries@.len() - i, (if have { 0int } else { 1int }),
            {
                let e = &self.entries[i];
                if crate::paths::bytes_eq(e.path.as_slice(), p.as_slice()) || is_under(
                    &p,
                    &e.path,
                ) {
                    found = i;
                    have = true;
                } else {
                    i = i + 1;
                }
            }
            if !have {
                proof {
                    assert forall|q: Seq<u8>|
                        #![trigger self@.contains_key(q)]
                        self@.contains_key(q) implies !under_eq(p@, q) by {
                        lemma_fs_map_contains(self.entries@, q);
                    }
                }
                break ;
            }
            let ghost before = self.entries@;
            let ghost k = self.entries@[found as int].path@;
            let _ = self.entries.swap_remove(found);
            proof {
                lemma_fs_swap_remove(before, self.entries@, found as int);
                lemma_fs_map_index(before, found as int);
                assert(m_top == fs_map_of(before));
                assert(self@ =~= m_top.remove(k));
                assert(under_eq(p@, k));
                assert forall|q: Seq<u8>|
                    #![trigger self@.contains_key(q)]
                    self@.contains_key(q) implies m1.contains_key(q) && self@[q] == m1[q] by {
                    assert(q != k);
                    assert(m_top.contains_key(q));
                    assert(m1.contains_key(q));
                    assert(m_top[q] == m1[q]);
                    assert(self@[q] == m_top[q]);
                }
                assert forall|q: Seq<u8>|
                    #![trigger m1.contains_key(q)]
                    m1.contains_key(q) && !under_eq(p@, q) implies self@.contains_key(q) by {
                    assert(q != k);
                    assert(fs_map_of(before).contains_key(q));
                }
            }
        }
        proof {
            assert(!self@.contains_key(p@));
            lemma_fs_map_remove_wf(m1, self@, p@);
        }
        true
    }
}

/// Replacing an entry in place (same path) denotes `insert`.
proof fn lemma_fs_replace(before: Seq<FsEntry>, after: Seq<FsEntry>, i: int)
    requires
        fs_paths_unique(before),
        0 <= i < before.len(),
        after.len() == before.len(),
        after[i].path@ == before[i].path@,
        forall|j: int| 0 <= j < before.len() && j != i ==> after[j] == before[j],
    ensures
        fs_paths_unique(after),
        fs_map_of(after) == fs_map_of(before).insert(after[i].path@, after[i].meta),
    decreases before.len(),
{
    assert(fs_paths_unique(after)) by {
        assert(forall|x: int|
            0 <= x < after.len() ==> (#[trigger] after[x]).path@ == before[x].path@);
    }
    if before.len() == 0 {
    } else if i == before.len() - 1 {
        assert(after.drop_last() =~= before.drop_last());
        assert(fs_map_of(after) =~= fs_map_of(before).insert(after[i].path@, after[i].meta));
    } else {
        assert(fs_paths_unique(before.drop_last())) by {
            assert(forall|x: int|
                0 <= x < before.len() - 1 ==> #[trigger] before.drop_last()[x] == before[x]);
        }
        lemma_fs_replace(before.drop_last(), after.drop_last(), i);
        assert(after.drop_last()[i] == after[i]);
        assert(after.last() == before.last());
        assert(before.last().path@ != before[i].path@);
        assert(fs_map_of(after) =~= fs_map_of(before).insert(after[i].path@, after[i].meta));
    }
}

} // verus!
