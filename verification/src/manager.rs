//! The index: three parallel mappings keyed by the 64-bit path digest.
//!
//! `nodes` stores the node values, `phash` the parent link of every node,
//! `chash` the set of children of every node (and, under the sentinel key,
//! the set of top-level roots).  The two relation maps are kept mutually
//! consistent under every operation: `chash[p]` contains `h` exactly when
//! `phash[h] == p`.

use vstd::prelude::*;
use crate::digest::{digest_of, jhash};
use crate::errors::JError;
use crate::fs::Fs;
use crate::node::{JNode, node_eqv, node_eqv_mod_dirty, is_fresh_node};
use crate::paths::{
    is_canon_path, is_root_path, parent_path, base_name, under, under_eq, normalize,
    normalize_spec, bytes_of, bytes_eq, dup_bytes, parent_of, basename_of, is_under,
    lemma_parent_canon, lemma_under_parent, lemma_longest_prefix, lemma_under_trans,
    lemma_under_eq_trans, SEP,
};
use crate::table::{Table, lemma_map_of_contains, lemma_map_of_index};

verus! {

use vstd::string::StringSliceAdditionalSpecFns;

/// The sentinel handle: "no parent", and the key under which top-level
/// roots are grouped.
pub const ROOT_PARENT: u64 = 0;

/// Directory basenames whose interiors are never indexed.
pub open spec fn is_excluded_name(s: Seq<u8>) -> bool {
    ||| s =~= seq![110u8, 111u8, 100u8, 101u8, 95u8, 109u8, 111u8, 100u8, 117u8, 108u8, 101u8, 115u8]
    ||| s =~= seq![46u8, 103u8, 105u8, 116u8]
    ||| s =~= seq![
        46u8,
        105u8,
        112u8,
        121u8,
        110u8,
        98u8,
        95u8,
        99u8,
        104u8,
        101u8,
        99u8,
        107u8,
        112u8,
        111u8,
        105u8,
        110u8,
        116u8,
        115u8,
    ]
}

/// Whether the path's basename is one of the ignored directory names
/// (`node_modules`, `.git`, `.ipynb_checkpoints`).
pub fn is_excluded(path: &Vec<u8>) -> (r: bool)
    ensures
        r == is_excluded_name(base_name(path@)),
{
    let base = basename_of(path);
    let a = name_node_modules();
    let b = name_git();
    let c = name_checkpoints();
    bytes_eq(base.as_slice(), a.as_slice()) || bytes_eq(base.as_slice(), b.as_slice()) || bytes_eq(
        base.as_slice(),
        c.as_slice(),
    )
}

fn name_node_modules() -> (r: Vec<u8>)
    ensures
        r@ =~= seq![110u8, 111u8, 100u8, 101u8, 95u8, 109u8, 111u8, 100u8, 117u8, 108u8, 101u8, 115u8],
{
    let mut v: Vec<u8> = Vec::new();
    v.push(110);
    v.push(111);
    v.push(100);
    v.push(101);
    v.push(95);
    v.push(109);
    v.push(111);
    v.push(100);
    v.push(117);
    v.push(108);
    v.push(101);
    v.push(115);
    v
}

fn name_git() -> (r: Vec<u8>)
    ensures
        r@ =~= seq![46u8, 103u8, 105u8, 116u8],
{
    let mut v: Vec<u8> = Vec::new();
    v.push(46);
    v.push(103);
    v.push(105);
    v.push(116);
    v
}

fn name_checkpoints() -> (r: Vec<u8>)
    ensures
        r@ =~= seq![
            46u8,
            105u8,
            112u8,
            121u8,
            110u8,
            98u8,
            95u8,
            99u8,
            104u8,
            101u8,
            99u8,
            107u8,
            112u8,
            111u8,
            105u8,
            110u8,
            116u8,
            115u8,
        ],
{
    let mut v: Vec<u8> = Vec::new();
    v.push(46);
    v.push(105);
    v.push(112);
    v.push(121);
    v.push(110);
    v.push(98);
    v.push(95);
    v.push(99);
    v.push(104);
    v.push(101);
    v.push(99);
    v.push(107);
    v.push(112);
    v.push(111);
    v.push(105);
    v.push(110);
    v.push(116);
    v.push(115);
    v
}

/// No handle occurs twice.
pub open spec fn no_dups(s: Seq<u64>) -> bool {
    forall|i: int, j: int| 0 <= i < j < s.len() ==> s[i] != s[j]
}

/// Copies a vector of handles.
fn dup_handles(v: &Vec<u64>) -> (r: Vec<u64>)
    ensures
        r@ == v@,
{
    let mut r: Vec<u64> = Vec::new();
    let mut i: usize = 0;
    while i < v.len()
        invariant
            0 <= i <= v@.len(),
            r@ == v@.take(i as int),
        decreases v@.len() - i,
    {
        r.push(v[i]);
        proof {
            assert(r@ =~= v@.take(i as int + 1));
        }
        i = i + 1;
    }
    proof {
        assert(r@ =~= v@);
    }
    r
}

/// Linear membership test on a handle vector.
fn handles_contain(v: &Vec<u64>, h: u64) -> (r: bool)
    ensures
        r == v@.contains(h),
{
    let mut i: usize = 0;
    while i < v.len()
        invariant
            0 <= i <= v@.len(),
            forall|j: int| 0 <= j < i ==> v@[j] != h,
        decreases v@.len() - i,
    {
        if v[i] == h {
            return true;
        }
        i = i + 1;
    }
    false
}

pub struct JManager {
    pub nodes: Table<JNode>,
    pub chash: Table<Vec<u64>>,
    pub phash: Table<u64>,
}

/// Saturating conversion of a mathematical sum to a stored 64-bit value.
pub open spec fn clip_u64(x: int) -> u64 {
    if x > u64::MAX {
        u64::MAX
    } else if x < 0 {
        0
    } else {
        x as u64
    }
}

/// Sum of the stored sizes of the listed handles (absent handles count 0).
pub open spec fn sum_sizes(m: Map<u64, JNode>, cs: Seq<u64>) -> int
    decreases cs.len(),
{
    if cs.len() == 0 {
        0
    } else {
        sum_sizes(m, cs.drop_last()) + (if m.contains_key(cs.last()) {
            m[cs.last()].spec_size() as int
        } else {
            0
        })
    }
}

/// Recursive file count contributed by the listed handles: a file counts 1,
/// a directory its aggregate file count.
pub open spec fn sum_files(m: Map<u64, JNode>, cs: Seq<u64>) -> int
    decreases cs.len(),
{
    if cs.len() == 0 {
        0
    } else {
        sum_files(m, cs.drop_last()) + (if m.contains_key(cs.last()) {
            if m[cs.last()].spec_is_dir() {
                m[cs.last()].spec_count_file().unwrap() as int
            } else {
                1int
            }
        } else {
            0int
        })
    }
}

/// Recursive directory count contributed by the listed handles: a directory
/// counts itself plus its aggregate directory count.
pub open spec fn sum_dirs(m: Map<u64, JNode>, cs: Seq<u64>) -> int
    decreases cs.len(),
{
    if cs.len() == 0 {
        0
    } else {
        sum_dirs(m, cs.drop_last()) + (if m.contains_key(cs.last()) && m[cs.last()].spec_is_dir() {
            1 + m[cs.last()].spec_count_dir().unwrap() as int
        } else {
            0
        })
    }
}

/// Total byte size of the snapshot entries strictly under `base`.
pub open spec fn raw_size(s: Seq<crate::fs::FsEntry>, base: Seq<u8>) -> int
    decreases s.len(),
{
    if s.len() == 0 {
        0
    } else {
        raw_size(s.drop_last(), base) + (if under(base, s.last().path@) {
            s.last().meta.size as int
        } else {
            0
        })
    }
}

/// Number of file entries strictly under `base`.
pub open spec fn raw_files(s: Seq<crate::fs::FsEntry>, base: Seq<u8>) -> int
    decreases s.len(),
{
    if s.len() == 0 {
        0
    } else {
        raw_files(s.drop_last(), base) + (if under(base, s.last().path@)
            && !s.last().meta.is_dir {
            1int
        } else {
            0int
        })
    }
}

/// Number of directory entries strictly under `base`.
pub open spec fn raw_dirs(s: Seq<crate::fs::FsEntry>, base: Seq<u8>) -> int
    decreases s.len(),
{
    if s.len() == 0 {
        0
    } else {
        raw_dirs(s.drop_last(), base) + (if under(base, s.last().path@) && s.last().meta.is_dir {
            1int
        } else {
            0int
        })
    }
}

/// No excluded directory name stands strictly between `base` and `q`, so a
/// scan rooted at `base` reaches `q` and indexes it.
pub open spec fn visible_spec(base: Seq<u8>, q: Seq<u8>) -> bool {
    forall|a: Seq<u8>|
        under_eq(base, a) && under(a, q) ==> !is_excluded_name(#[trigger] base_name(a))
}

/// Walks the raw-walk totals of the snapshot subtree strictly under `base`:
/// total byte size, file count, directory count, each saturating.
pub fn raw_stats(fs: &Fs, base: &Vec<u8>) -> (r: (u64, u64, u64))
    requires
        base@.len() >= 1,
    ensures
        r.0 == clip_u64(raw_size(fs.entries@, base@)),
        r.1 == clip_u64(raw_files(fs.entries@, base@)),
        r.2 == clip_u64(raw_dirs(fs.entries@, base@)),
{
    let mut size: u128 = 0;
    let mut files: u128 = 0;
    let mut dirs: u128 = 0;
    let mut i: usize = 0;
    while i < fs.entries.len()
        invariant
            0 <= i <= fs.entries@.len(),
            base@.len() >= 1,
            size == raw_size(fs.entries@.take(i as int), base@),
            files == raw_files(fs.entries@.take(i as int), base@),
            dirs == raw_dirs(fs.entries@.take(i as int), base@),
            0 <= size <= i * (u64::MAX as int),
            0 <= files <= i,
            0 <= dirs <= i,
        decreases fs.entries@.len() - i,
    {
        proof {
            assert(fs.entries@.take(i as int + 1).drop_last() =~= fs.entries@.take(i as int));
            assert(fs.entries@.take(i as int + 1).last() == fs.entries@[i as int]);
        }
        let e = &fs.entries[i];
        if is_under(base, &e.path) {
            size = size + (e.meta.size as u128);
            if e.meta.is_dir {
                dirs = dirs + 1;
            } else {
                files = files + 1;
            }
        }
        i = i + 1;
    }
    proof {
        assert(fs.entries@.take(fs.entries@.len() as int) =~= fs.entries@);
        lemma_raw_bounds(fs.entries@, base@);
    }
    let s64: u64 = if size > u64::MAX as u128 {
        u64::MAX
    } else {
        size as u64
    };
    let f64_: u64 = if files > u64::MAX as u128 {
        u64::MAX
    } else {
        files as u64
    };
    let d64: u64 = if dirs > u64::MAX as u128 {
        u64::MAX
    } else {
        dirs as u64
    };
    (s64, f64_, d64)
}

/// The raw totals are nonnegative.
proof fn lemma_raw_bounds(s: Seq<crate::fs::FsEntry>, base: Seq<u8>)
    ensures
        raw_size(s, base) >= 0,
        raw_files(s, base) >= 0,
        raw_dirs(s, base) >= 0,
    decreases s.len(),
{
    if s.len() > 0 {
        lemma_raw_bounds(s.drop_last(), base);
    }
}

/// Decides `visible_spec` by walking the ancestor chain from `q` up to
/// `base`.
pub fn visible_from(base: &Vec<u8>, q: &Vec<u8>) -> (r: bool)
    requires
        is_canon_path(base@),
        is_canon_path(q@),
        under(base@, q@),
    ensures
        r == visible_spec(base@, q@),
{
    proof {
        lemma_under_parent(q@);
        lemma_longest_prefix(base@, q@);
    }
    let mut cur = parent_of(q);
    proof {
        assert forall|a: Seq<u8>|
            under_eq(base@, a) && under(a, q@) && !under_eq(a, cur@) implies !is_excluded_name(
            #[trigger] base_name(a),
        ) by {
            lemma_longest_prefix(a, q@);
        }
    }
    loop
        invariant
            is_canon_path(base@),
            is_canon_path(q@),
            is_canon_path(cur@),
            under(base@, q@),
            under_eq(base@, cur@),
            under(cur@, q@),
            forall|a: Seq<u8>|
                under_eq(base@, a) && under(a, q@) && !under_eq(a, cur@) ==> !is_excluded_name(
                    #[trigger] base_name(a),
                ),
        decreases cur@.len(),
    {
        if is_excluded(&cur) {
            proof {
                assert(under_eq(base@, cur@) && under(cur@, q@) && is_excluded_name(
                    base_name(cur@),
                ));
            }
            return false;
        }
        if bytes_eq(cur.as_slice(), base.as_slice()) {
            proof {
                assert forall|a: Seq<u8>|
                    under_eq(base@, a) && under(a, q@) implies !is_excluded_name(
                    #[trigger] base_name(a),
                ) by {
                    if under_eq(a, cur@) {
                        if a == cur@ {
                        } else {
                            assert(under(a, base@));
                            assert(a.len() < base@.len());
                            assert(under_eq(base@, a));
                            if base@ == a {
                                assert(false);
                            } else {
                                assert(under(base@, a));
                                assert(a.len() > base@.len());
                                assert(false);
                            }
                        }
                    }
                }
            }
            return true;
        }
        proof {
            assert(cur@ != base@);
            assert(under(base@, cur@));
            assert(cur@.len() > base@.len());
            assert(cur@.len() > 1);
            lemma_parent_canon(cur@);
            lemma_under_parent(cur@);
            lemma_longest_prefix(base@, cur@);
        }
        let ghost oldcur = cur@;
        cur = parent_of(&cur);
        proof {
            assert forall|a: Seq<u8>|
                under_eq(base@, a) && under(a, q@) && !under_eq(a, cur@) implies !is_excluded_name(
                #[trigger] base_name(a),
            ) by {
                if under_eq(a, oldcur) {
                    if a == oldcur {
                    } else {
                        assert(under(a, oldcur));
                        lemma_longest_prefix(a, oldcur);
                        assert(false);
                    }
                }
            }
            assert(under(cur@, q@)) by {
                lemma_under_trans(cur@, oldcur, q@);
            }
        }
    }
}

impl JManager {
    /// The children recorded under handle `p` (empty when none).
    pub open spec fn children_seq(&self, p: u64) -> Seq<u64> {
        if self.chash@.contains_key(p) {
            self.chash@[p]@
        } else {
            Seq::empty()
        }
    }

    /// The path stored for handle `h`.
    pub open spec fn path_of(&self, h: u64) -> Seq<u8> {
        self.nodes@[h].spec_path()
    }

    /// The parent link that the invariant requires for a node at `q`.
    pub open spec fn expected_parent(q: Seq<u8>) -> u64 {
        if is_root_path(q) {
            ROOT_PARENT
        } else {
            digest_of(parent_path(q))
        }
    }

    /// Structural well-formedness: every node is stored under the digest of
    /// its canonical path; parent links follow the path structure, the
    /// linked parent is present; and the child map is the exact inverse of
    /// the parent map.
    pub open spec fn wf(&self) -> bool {
        &&& self.nodes.wf()
        &&& self.chash.wf()
        &&& self.phash.wf()
        &&& !self.nodes@.contains_key(ROOT_PARENT)
        &&& forall|h: u64|
            #![trigger self.nodes@.contains_key(h)]
            self.nodes@.contains_key(h) ==> {
                let q = self.nodes@[h].spec_path();
                &&& is_canon_path(q)
                &&& digest_of(q) == h
                &&& self.phash@.contains_key(h)
                &&& self.phash@[h] == Self::expected_parent(q)
                &&& (!is_root_path(q) ==> self.nodes@.contains_key(digest_of(parent_path(q)))
                    && self.nodes@[digest_of(parent_path(q))].spec_path() == parent_path(q))
                &&& self.children_seq(self.phash@[h]).contains(h)
            }
        &&& forall|h: u64|
            #![trigger self.phash@.contains_key(h)]
            self.phash@.contains_key(h) ==> self.nodes@.contains_key(h)
        &&& forall|p: u64|
            #![trigger self.chash@.contains_key(p)]
            self.chash@.contains_key(p) ==> {
                &&& (p == ROOT_PARENT || self.nodes@.contains_key(p))
                &&& no_dups(self.chash@[p]@)
                &&& forall|i: int|
                    0 <= i < self.chash@[p]@.len() ==> {
                        let c = #[trigger] self.chash@[p]@[i];
                        &&& self.nodes@.contains_key(c)
                        &&& self.phash@.contains_key(c)
                        &&& self.phash@[c] == p
                    }
            }
    }

    /// A fresh, empty index.
    pub fn new() -> (r: JManager)
        ensures
            r.wf(),
            r.nodes@ == Map::<u64, JNode>::empty(),
            r.nodes.entries@.len() == 0,
    {
        JManager { nodes: Table::new(), chash: Table::new(), phash: Table::new() }
    }

    /// How many nodes the index holds.
    pub fn get_node_cnt(&self) -> (r: usize)
        ensures
            r == self.nodes.entries@.len(),
    {
        self.nodes.len()
    }

    /// A copy of the node stored under the handle.
    pub fn get_info(&self, node: &u64) -> (r: Result<JNode, JError>)
        requires
            self.wf(),
        ensures
            match r {
                Ok(n) => self.nodes@.contains_key(*node) && node_eqv(self.nodes@[*node], n),
                Err(e) => !self.nodes@.contains_key(*node) && (e matches JError::NotExistingNode(
                    x,
                ) && x == *node),
            },
    {
        match self.nodes.get(*node) {
            Some(n) => Ok(n.dup()),
            None => Err(JError::NotExistingNode(*node)),
        }
    }

    /// The recorded parent handle, or the sentinel when the handle is
    /// unknown.
    pub fn get_parent(&self, node: &u64) -> (r: u64)
        requires
            self.wf(),
        ensures
            self.phash@.contains_key(*node) ==> r == self.phash@[*node],
            !self.phash@.contains_key(*node) ==> r == ROOT_PARENT,
    {
        match self.phash.get(*node) {
            Some(p) => *p,
            None => ROOT_PARENT,
        }
    }

    /// The recorded children handles, empty when none.
    pub fn get_children(&self, node: &u64) -> (r: Vec<u64>)
        requires
            self.wf(),
        ensures
            r@ == self.children_seq(*node),
    {
        match self.chash.get(*node) {
            Some(v) => {
                let mut out: Vec<u64> = Vec::new();
                let mut i: usize = 0;
                while i < v.len()
                    invariant
                        0 <= i <= v@.len(),
                        out@ == v@.take(i as int),
                    decreases v@.len() - i,
                {
                    out.push(v[i]);
                    proof {
                        assert(out@ =~= v@.take(i as int + 1));
                    }
                    i = i + 1;
                }
                proof {
                    assert(out@ =~= v@);
                }
                out
            },
            None => Vec::new(),
        }
    }

    /// Appends `h` to the children of `p` unless already present.
    fn link_child(&mut self, p: u64, h: u64)
        requires
            old(self).chash.wf(),
        ensures
            final (self).chash.wf(),
            final (self).nodes == old(self).nodes,
            final (self).phash == old(self).phash,
            final (self).chash@.contains_key(p),
            final (self).children_seq(p) == (if old(self).children_seq(p).contains(h) {
                old(self).children_seq(p)
            } else {
                old(self).children_seq(p).push(h)
            }),
            forall|q: u64|
                #![trigger final (self).chash@.contains_key(q)]
                q != p ==> final (self).chash@.contains_key(q) == old(self).chash@.contains_key(q)
                    && (old(self).chash@.contains_key(q) ==> final (self).chash@[q]
                    == old(self).chash@[q]),
    {
        let mut v: Vec<u64> = match self.chash.get(p) {
            Some(cv) => dup_handles(cv),
            None => Vec::new(),
        };
        if !handles_contain(&v, h) {
            v.push(h);
        }
        self.chash.insert(p, v);
    }

    /// Removes `h` from the children of `p` if present.
    fn unlink_child(&mut self, p: u64, h: u64)
        requires
            old(self).chash.wf(),
        ensures
            final (self).chash.wf(),
            final (self).nodes == old(self).nodes,
            final (self).phash == old(self).phash,
            final (self).chash@.contains_key(p) == old(self).chash@.contains_key(p),
            !final (self).children_seq(p).contains(h),
            forall|c: u64|
                #[trigger] final (self).children_seq(p).contains(c) <==> (old(
                    self,
                ).children_seq(p).contains(c) && c != h),
            no_dups(old(self).children_seq(p)) ==> no_dups(final (self).children_seq(p)),
            forall|q: u64|
                #![trigger final (self).chash@.contains_key(q)]
                q != p ==> final (self).chash@.contains_key(q) == old(self).chash@.contains_key(q)
                    && (old(self).chash@.contains_key(q) ==> final (self).chash@[q]
                    == old(self).chash@[q]),
    {
        let cur = match self.chash.get(p) {
            Some(cv) => cv,
            None => {
                return ;
            },
        };
        let mut v: Vec<u64> = Vec::new();
        let mut i: usize = 0;
        while i < cur.len()
            invariant
                0 <= i <= cur@.len(),
                forall|c: u64|
                    #[trigger] v@.contains(c) <==> (cur@.take(i as int).contains(c) && c != h),
                no_dups(cur@) ==> no_dups(v@),
                forall|c: u64| v@.contains(c) ==> cur@.contains(c),
            decreases cur@.len() - i,
        {
            let x = cur[i];
            proof {
                assert(cur@.take(i as int + 1).drop_last() =~= cur@.take(i as int));
                assert(cur@.take(i as int + 1).last() == cur@[i as int]);
                assert(forall|c: u64|
                    #[trigger] cur@.take(i as int + 1).contains(c) <==> (cur@.take(
                        i as int,
                    ).contains(c) || c == cur@[i as int]));
            }
            if x != h {
                let ghost vb = v@;
                v.push(x);
                proof {
                    assert forall|c: u64| #[trigger] v@.contains(c) <==> (vb.contains(c) || c
                        == x) by {
                        if vb.contains(c) {
                            let j = choose|j: int| 0 <= j < vb.len() && vb[j] == c;
                            assert(v@[j] == c);
                        }
                        if c == x {
                            assert(v@[vb.len() as int] == c);
                        }
                        if v@.contains(c) {
                            let j = choose|j: int| 0 <= j < v@.len() && v@[j] == c;
                            if j < vb.len() {
                                assert(vb[j] == c);
                            }
                        }
                    }
                    if no_dups(cur@) {
                        assert(no_dups(v@)) by {
                            assert(!vb.contains(x)) by {
                                if vb.contains(x) {
                                    let j = choose|j: int|
                                        0 <= j < i && cur@.take(i as int)[j] == x;
                                    assert(cur@[j] == x && cur@[i as int] == x && j < i);
                                }
                            }
                            assert(forall|a: int, b: int|
                                0 <= a < b < v@.len() && b < v@.len() - 1 ==> v@[a] != v@[b]);
                            assert(forall|a: int|
                                0 <= a < v@.len() - 1 ==> v@[a] == vb[a] && vb.contains(v@[a]));
                        }
                    }
                }
            }
            i = i + 1;
        }
        proof {
            assert(cur@.take(cur@.len() as int) =~= cur@);
        }
        self.chash.insert(p, v);
    }

    /// Sets the dirty flag on the node `start` and every ancestor above it:
    /// their cached aggregates may now disagree with their descendants.
    fn mark_dirty_chain(&mut self, start: u64)
        requires
            old(self).wf(),
            start == ROOT_PARENT || old(self).nodes@.contains_key(start),
        ensures
            final (self).wf(),
            final (self).nodes@.dom() == old(self).nodes@.dom(),
            final (self).chash == old(self).chash,
            final (self).phash == old(self).phash,
            forall|k: u64|
                #![trigger final (self).nodes@.contains_key(k)]
                old(self).nodes@.contains_key(k) ==> node_eqv_mod_dirty(
                    old(self).nodes@[k],
                    final (self).nodes@[k],
                ),
            start == ROOT_PARENT ==> final (self).nodes == old(self).nodes,
            start != ROOT_PARENT ==> forall|k: u64|
                #![trigger final (self).nodes@[k]]
                old(self).nodes@.contains_key(k) && !under_eq(
                    old(self).path_of(k),
                    old(self).path_of(start),
                ) ==> final (self).nodes@[k] == old(self).nodes@[k],
            start != ROOT_PARENT ==> forall|k: u64|
                #![trigger final (self).nodes@[k]]
                old(self).nodes@.contains_key(k) && under_eq(
                    old(self).path_of(k),
                    old(self).path_of(start),
                ) && old(self).nodes@[k].spec_is_dir() ==> final (self).nodes@[k].spec_dirty(),
    {
        if start == ROOT_PARENT {
            return ;
        }
        let ghost m0 = self.nodes@;
        let ghost startpath = self.nodes@[start].spec_path();
        let mut cur: u64 = start;
        loop
            invariant
                self.wf(),
                self.chash == old(self).chash,
                self.phash == old(self).phash,
                self.nodes@.dom() == m0.dom(),
                m0 == old(self).nodes@,
                m0.contains_key(start),
                startpath == m0[start].spec_path(),
                cur == ROOT_PARENT || (self.nodes@.contains_key(cur) && under_eq(
                    self.nodes@[cur].spec_path(),
                    startpath,
                )),
                forall|k: u64|
                    #![trigger self.nodes@.contains_key(k)]
                    m0.contains_key(k) ==> node_eqv_mod_dirty(m0[k], self.nodes@[k]),
                forall|k: u64|
                    #![trigger self.nodes@[k]]
                    m0.contains_key(k) && !under_eq(m0[k].spec_path(), startpath) ==> self.nodes@[k]
                        == m0[k],
                forall|k: u64|
                    #![trigger self.nodes@[k]]
                    m0.contains_key(k) && under_eq(m0[k].spec_path(), startpath)
                        && m0[k].spec_is_dir() && (cur == ROOT_PARENT || !under_eq(
                        m0[k].spec_path(),
                        self.nodes@[cur].spec_path(),
                    )) ==> self.nodes@[k].spec_dirty(),
            ensures
                self.wf(),
                self.chash == old(self).chash,
                self.phash == old(self).phash,
                self.nodes@.dom() == m0.dom(),
                forall|k: u64|
                    #![trigger self.nodes@.contains_key(k)]
                    m0.contains_key(k) ==> node_eqv_mod_dirty(m0[k], self.nodes@[k]),
                forall|k: u64|
                    #![trigger self.nodes@[k]]
                    m0.contains_key(k) && !under_eq(m0[k].spec_path(), startpath) ==> self.nodes@[k]
                        == m0[k],
                forall|k: u64|
                    #![trigger self.nodes@[k]]
                    m0.contains_key(k) && under_eq(m0[k].spec_path(), startpath)
                        && m0[k].spec_is_dir() ==> self.nodes@[k].spec_dirty(),
            decreases (if cur == ROOT_PARENT {
                0int
            } else {
                self.nodes@[cur].spec_path().len() as int + 1
            }),
        {
            if cur == ROOT_PARENT {
                break ;
            }
            let ghost curpath = self.nodes@[cur].spec_path();
            let nxt: u64 = match self.phash.get(cur) {
                Some(p) => *p,
                None => {
                    proof {
                        assert(false);
                    }
                    return ;
                },
            };
            let n = match self.nodes.get(cur) {
                Some(n) => n.dup(),
                None => {
                    proof {
                        assert(false);
                    }
                    return ;
                },
            };
            let mut n2 = n;
            n2.set(None, None, None, None, Some(true));
            self.nodes.insert(cur, n2);
            proof {
                assert(self.nodes@[cur].spec_path() == curpath);
                if !is_root_path(curpath) {
                    let pp = parent_path(curpath);
                    assert(nxt == digest_of(pp));
                    assert(self.nodes@.contains_key(nxt) && self.nodes@[nxt].spec_path() == pp);
                    assert(nxt != ROOT_PARENT);
                    lemma_parent_canon(curpath);
                    lemma_under_parent(curpath);
                    lemma_under_eq_trans(pp, curpath, startpath);
                } else {
                    assert(nxt == ROOT_PARENT);
                }
                assert forall|k: u64|
                    #![trigger self.nodes@[k]]
                    m0.contains_key(k) && under_eq(m0[k].spec_path(), startpath)
                        && m0[k].spec_is_dir() && (nxt == ROOT_PARENT || !under_eq(
                        m0[k].spec_path(),
                        self.nodes@[nxt].spec_path(),
                    )) implies self.nodes@[k].spec_dirty() by {
                    let kp = m0[k].spec_path();
                    if k == cur {
                    } else if under_eq(kp, curpath) {
                        assert(kp != curpath) by {
                            if kp == curpath {
                                assert(digest_of(kp) == k && digest_of(curpath) == cur);
                            }
                        }
                        assert(under(kp, curpath));
                        if is_root_path(curpath) {
                            assert(false);
                        } else {
                            lemma_longest_prefix(kp, curpath);
                            assert(under_eq(kp, parent_path(curpath)));
                            assert(false);
                        }
                    } else {
                    }
                }
            }
            cur = nxt;
        }
    }

    /// Every node of `old` survives into `new`, with at most its dirty flag
    /// raised.
    pub open spec fn preserves_nodes(old_m: Map<u64, JNode>, new_m: Map<u64, JNode>) -> bool {
        forall|k: u64|
            #![trigger old_m.contains_key(k)]
            old_m.contains_key(k) ==> new_m.contains_key(k) && node_eqv_mod_dirty(
                old_m[k],
                new_m[k],
            )
    }

    /// Every node of `new` that `old` lacks is a fresh observation of a
    /// snapshot path that is an ancestor of `target` or `target` itself.
    pub open spec fn grows_fresh_under(
        old_m: Map<u64, JNode>,
        new_m: Map<u64, JNode>,
        fs: Fs,
        target: Seq<u8>,
    ) -> bool {
        forall|k: u64|
            #![trigger new_m.contains_key(k)]
            new_m.contains_key(k) && !old_m.contains_key(k) ==> {
                let q = new_m[k].spec_path();
                &&& under_eq(q, target)
                &&& fs@.contains_key(q)
                &&& is_fresh_node(new_m[k], q, fs@[q])
            }
    }

    /// No digest clash stands in the way: distinct snapshot paths have
    /// distinct digests, no snapshot path collides with a differently-named
    /// node, and none collides with the sentinel.
    pub open spec fn digest_inj(m: Map<u64, JNode>, fs: Fs) -> bool {
        &&& forall|q1: Seq<u8>, q2: Seq<u8>|
            fs@.contains_key(q1) && fs@.contains_key(q2) && digest_of(q1) == digest_of(q2) ==> q1
                == q2
        &&& forall|q: Seq<u8>|
            #![trigger fs@.contains_key(q)]
            fs@.contains_key(q) && m.contains_key(digest_of(q)) ==> m[digest_of(q)].spec_path()
                == q
        &&& forall|q: Seq<u8>| fs@.contains_key(q) ==> digest_of(q) != ROOT_PARENT
    }

    /// Ensures a node for canonical path `p` is present and returns its
    /// handle.  Idempotent: a path already indexed is returned unchanged.
    pub fn locate_canon(&mut self, p: &Vec<u8>, fs: &Fs) -> (r: Result<u64, JError>)
        requires
            old(self).wf(),
            fs.wf(),
            is_canon_path(p@),
        ensures
            final (self).wf(),
            Self::preserves_nodes(old(self).nodes@, final (self).nodes@),
            Self::grows_fresh_under(old(self).nodes@, final (self).nodes@, *fs, p@),
            forall|k: u64|
                #![trigger final (self).nodes@[k]]
                old(self).nodes@.contains_key(k) && !under_eq(old(self).path_of(k), p@) ==> final (
                self).nodes@[k] == old(self).nodes@[k],
            match r {
                Ok(h) => {
                    &&& h == digest_of(p@)
                    &&& h != ROOT_PARENT
                    &&& fs@.contains_key(p@)
                    &&& final (self).nodes@.contains_key(h)
                    &&& final (self).nodes@[h].spec_path() == p@
                    &&& (old(self).nodes@.contains_key(h) && old(self).nodes@[h].spec_path() == p@
                        ==> final (self).nodes == old(self).nodes && final (self).chash == old(
                        self,
                    ).chash && final (self).phash == old(self).phash)
                },
                Err(e) => {
                    &&& (e matches JError::NotExistingPath(_) ==> !fs@.contains_key(p@) && final (
                    self).nodes == old(self).nodes && final (self).chash == old(self).chash
                        && final (self).phash == old(self).phash)
                    &&& (e matches JError::NotExistingPath(_) || e
                        matches JError::NotExistingNode(_))
                },
            },
            fs@.contains_key(p@) && Self::digest_inj(old(self).nodes@, *fs) ==> r is Ok,
            // the dirty protocol: materializing a missing node marks the
            // ancestor chain
            r is Ok && !old(self).nodes@.contains_key(digest_of(p@)) ==> forall|k: u64|
                #![trigger final (self).nodes@[k]]
                old(self).nodes@.contains_key(k) && under(old(self).path_of(k), p@) && old(
                    self,
                ).nodes@[k].spec_is_dir() ==> final (self).nodes@[k].spec_dirty(),
        decreases p@.len(), 1int,
    {
        if fs.lookup(p).is_none() {
            return Err(JError::NotExistingPath(dup_bytes(p)));
        }
        let h = jhash(p);
        let found = match self.nodes.get(h) {
            Some(n) => Some(bytes_eq(n.path().as_slice(), p.as_slice())),
            None => None,
        };
        match found {
            Some(true) => Ok(h),
            Some(false) => {
                proof {
                    if Self::digest_inj(self.nodes@, *fs) {
                        assert(fs@.contains_key(p@));
                        assert(self.nodes@[digest_of(p@)].spec_path() == p@);
                        assert(false);
                    }
                }
                Err(JError::NotExistingNode(h))
            },
            None => self.create_node(p, fs),
        }
    }

    /// Builds a new node for canonical path `p`, wires it to its parent
    /// (materializing the ancestry on demand), and marks the parent chain
    /// dirty.  Calling this for an already-indexed digest is an error.
    #[verifier::rlimit(60)]
    pub fn create_node(&mut self, p: &Vec<u8>, fs: &Fs) -> (r: Result<u64, JError>)
        requires
            old(self).wf(),
            fs.wf(),
            is_canon_path(p@),
        ensures
            final (self).wf(),
            Self::preserves_nodes(old(self).nodes@, final (self).nodes@),
            Self::grows_fresh_under(old(self).nodes@, final (self).nodes@, *fs, p@),
            forall|k: u64|
                #![trigger final (self).nodes@[k]]
                old(self).nodes@.contains_key(k) && !under_eq(old(self).path_of(k), p@) ==> final (
                self).nodes@[k] == old(self).nodes@[k],
            match r {
                Ok(h) => {
                    &&& h == digest_of(p@)
                    &&& h != ROOT_PARENT
                    &&& fs@.contains_key(p@)
                    &&& !old(self).nodes@.contains_key(h)
                    &&& final (self).nodes@.contains_key(h)
                    &&& is_fresh_node(final (self).nodes@[h], p@, fs@[p@])
                },
                Err(e) => {
                    &&& (e matches JError::NotExistingPath(_) ==> !fs@.contains_key(p@) && final (
                    self).nodes == old(self).nodes && final (self).chash == old(self).chash
                        && final (self).phash == old(self).phash)
                    &&& (e matches JError::NotExistingPath(_) || e
                        matches JError::NotExistingNode(_))
                },
            },
            fs@.contains_key(p@) && Self::digest_inj(old(self).nodes@, *fs) && !old(
                self,
            ).nodes@.contains_key(digest_of(p@)) ==> r is Ok,
            // creating an already-indexed digest is refused before anything
            // is touched
            fs@.contains_key(p@) && old(self).nodes@.contains_key(digest_of(p@)) ==> (r
                matches Err(e) && e matches JError::NotExistingNode(_)) && final (self).nodes
                == old(self).nodes && final (self).chash == old(self).chash && final (self).phash
                == old(self).phash,
            // the dirty protocol: a creation marks the ancestor chain
            r is Ok ==> forall|k: u64|
                #![trigger final (self).nodes@[k]]
                old(self).nodes@.contains_key(k) && under(old(self).path_of(k), p@) && old(
                    self,
                ).nodes@[k].spec_is_dir() ==> final (self).nodes@[k].spec_dirty(),
        decreases p@.len(), 0int,
    {
        let meta = match fs.lookup(p) {
            Some(m) => m,
            None => {
                return Err(JError::NotExistingPath(dup_bytes(p)));
            },
        };
        let h = jhash(p);
        if h == ROOT_PARENT {
            proof {
                if Self::digest_inj(self.nodes@, *fs) {
                    assert(false);
                }
            }
            return Err(JError::NotExistingNode(h));
        }
        if self.nodes.contains_key(h) {
            return Err(JError::NotExistingNode(h));
        }
        let ghost mid0 = self.nodes@;
        let ph: u64;
        if p.len() == 1 {
            proof {
                assert(is_root_path(p@));
            }
            ph = ROOT_PARENT;
        } else {
            proof {
                lemma_parent_canon(p@);
                lemma_under_parent(p@);
            }
            let pp = parent_of(&p);
            let located = self.locate_canon(&pp, fs);
            proof {
                if Self::digest_inj(mid0, *fs) && fs@.contains_key(p@) {
                    assert(fs@.contains_key(parent_path(p@)));
                    assert(Self::digest_inj(self.nodes@, *fs) ==> true);
                }
            }
            proof {
                lemma_under_parent(p@);
                assert forall|k: u64|
                    #![trigger self.nodes@.contains_key(k)]
                    self.nodes@.contains_key(k) && !mid0.contains_key(k) implies under_eq(
                    self.nodes@[k].spec_path(),
                    p@,
                ) && fs@.contains_key(self.nodes@[k].spec_path()) && is_fresh_node(
                    self.nodes@[k],
                    self.nodes@[k].spec_path(),
                    fs@[self.nodes@[k].spec_path()],
                ) by {
                    let q = self.nodes@[k].spec_path();
                    assert(under_eq(q, parent_path(p@)));
                    lemma_under_eq_trans(q, parent_path(p@), p@);
                }
                assert forall|k: u64|
                    #![trigger self.nodes@[k]]
                    mid0.contains_key(k) && !under_eq(mid0[k].spec_path(), p@) implies
                self.nodes@[k] == mid0[k] by {
                    let kp = mid0[k].spec_path();
                    if under_eq(kp, parent_path(p@)) {
                        lemma_under_eq_trans(kp, parent_path(p@), p@);
                        assert(false);
                    }
                }
            }
            match located {
                Ok(x) => {
                    ph = x;
                },
                Err(e) => {
                    proof {
                        if fs@.contains_key(p@) && Self::digest_inj(mid0, *fs) {
                            assert(fs@.contains_key(parent_path(p@)));
                            assert(false);
                        }
                    }
                    return Err(e);
                },
            }
        }
        if self.nodes.contains_key(h) {
            proof {
                if fs@.contains_key(p@) && Self::digest_inj(mid0, *fs) && !mid0.contains_key(h) {
                    assert(self.nodes@.contains_key(h));
                    assert(!mid0.contains_key(h));
                    assert(under_eq(self.nodes@[h].spec_path(), parent_path(p@)));
                    assert(fs@.contains_key(self.nodes@[h].spec_path()));
                    assert(digest_of(self.nodes@[h].spec_path()) == h) by {
                        assert(self.wf());
                    }
                    assert(self.nodes@[h].spec_path() == p@);
                    lemma_under_parent(p@);
                    lemma_under_eq_trans(p@, parent_path(p@), p@);
                    assert(under_eq(p@, parent_path(p@)));
                    assert(parent_path(p@).len() < p@.len());
                    assert(false);
                }
            }
            return Err(JError::NotExistingNode(h));
        }
        let node = JNode::new(dup_bytes(p), &meta);
        let ghost pre = *self;
        self.nodes.insert(h, node);
        self.phash.insert(h, ph);
        self.link_child(ph, h);
        proof {
            assert(self.nodes@ == pre.nodes@.insert(h, self.nodes@[h]));
            lemma_create_wf(pre, *self, p@, h, ph);
            if p@.len() > 1 {
                lemma_under_parent(p@);
            }
        }
        let ghost linked = *self;
        self.mark_dirty_chain(ph);
        proof {
            assert forall|k: u64|
                #![trigger final (self).nodes@[k]]
                old(self).nodes@.contains_key(k) && !under_eq(old(self).path_of(k), p@) implies
            self.nodes@[k] == old(self).nodes@[k] by {
                let kp = old(self).nodes@[k].spec_path();
                assert(k != h);
                if p@.len() > 1 {
                    if under_eq(kp, parent_path(p@)) {
                        lemma_under_parent(p@);
                        lemma_under_eq_trans(kp, parent_path(p@), p@);
                        assert(false);
                    }
                    assert(pre.nodes@[k] == old(self).nodes@[k]);
                    assert(linked.nodes@[k] == pre.nodes@[k]);
                    assert(linked.nodes@.contains_key(ph));
                    assert(linked.path_of(ph) == parent_path(p@));
                    assert(linked.path_of(k) == kp);
                } else {
                    assert(ph == ROOT_PARENT);
                    assert(linked.nodes@[k] == old(self).nodes@[k]);
                }
            }
            assert(Self::grows_fresh_under(old(self).nodes@, self.nodes@, *fs, p@)) by {
                assert forall|k: u64|
                    #![trigger self.nodes@.contains_key(k)]
                    self.nodes@.contains_key(k) && !old(self).nodes@.contains_key(k) implies {
                    let q = self.nodes@[k].spec_path();
                    &&& under_eq(q, p@)
                    &&& fs@.contains_key(q)
                    &&& is_fresh_node(self.nodes@[k], q, fs@[q])
                } by {
                    if k == h {
                        if ph != ROOT_PARENT {
                            assert(!under_eq(p@, parent_path(p@)));
                            assert(self.nodes@[h] == linked.nodes@[h]);
                        } else {
                            assert(self.nodes@[h] == linked.nodes@[h]);
                        }
                    } else {
                        assert(pre.nodes@.contains_key(k) && !mid0.contains_key(k));
                        let q = pre.nodes@[k].spec_path();
                        assert(under_eq(q, parent_path(p@)) || p@.len() == 1);
                        if p@.len() > 1 {
                            lemma_under_parent(p@);
                            lemma_under_eq_trans(q, parent_path(p@), p@);
                        }
                        assert(linked.nodes@[k] == pre.nodes@[k]);
                        assert(is_fresh_node(self.nodes@[k], q, fs@[q])) by {
                            assert(node_eqv_mod_dirty(linked.nodes@[k], self.nodes@[k]));
                            assert(linked.nodes@[k].spec_dirty() ==> self.nodes@[k].spec_dirty());
                        }
                    }
                }
            }
            assert forall|k: u64|
                #![trigger self.nodes@[k]]
                old(self).nodes@.contains_key(k) && under(old(self).path_of(k), p@) && old(
                    self,
                ).nodes@[k].spec_is_dir() implies self.nodes@[k].spec_dirty() by {
                let kp = old(self).path_of(k);
                if p@.len() > 1 {
                    lemma_longest_prefix(kp, p@);
                    assert(under_eq(kp, parent_path(p@)));
                    assert(k != h);
                    assert(pre.nodes@.contains_key(k));
                    assert(node_eqv_mod_dirty(old(self).nodes@[k], pre.nodes@[k]));
                    assert(linked.nodes@.contains_key(k));
                    assert(linked.nodes@[k] == pre.nodes@[k]);
                    assert(linked.path_of(k) == kp);
                    assert(linked.nodes@[k].spec_is_dir());
                    assert(ph != ROOT_PARENT);
                    assert(linked.path_of(ph) == parent_path(p@));
                } else {
                    assert(kp.len() < 1);
                    assert(false);
                }
            }
        }
        Ok(h)
    }

    /// A node's cached kind and path agree with the snapshot and the node is
    /// reachable by a scan rooted at `base`.
    pub open spec fn good_under(&self, base: Seq<u8>, k: u64, fs: Fs) -> bool {
        let q = self.nodes@[k].spec_path();
        &&& fs@.contains_key(q)
        &&& fs@[q].is_dir == self.nodes@[k].spec_is_dir()
        &&& visible_spec(base, q)
    }

    /// Deletes every indexed strict descendant of `base` that has vanished
    /// from the snapshot, changed kind, or sits inside an ignored directory.
    fn prune_stale(&mut self, base: &Vec<u8>, fs: &Fs)
        requires
            old(self).wf(),
            fs.wf(),
            is_canon_path(base@),
        ensures
            final (self).wf(),
            forall|k: u64|
                #![trigger final (self).nodes@.contains_key(k)]
                final (self).nodes@.contains_key(k) ==> old(self).nodes@.contains_key(k)
                    && node_eqv_mod_dirty(old(self).nodes@[k], final (self).nodes@[k]),
            forall|k: u64|
                #![trigger old(self).nodes@.contains_key(k)]
                old(self).nodes@.contains_key(k) && !under(base@, old(self).path_of(k)) ==> final (
                self).nodes@.contains_key(k),
            forall|k: u64|
                #![trigger final (self).nodes@[k]]
                old(self).nodes@.contains_key(k) && !under_eq(base@, old(self).path_of(k))
                    && !under(old(self).path_of(k), base@) ==> final (self).nodes@[k] == old(
                    self,
                ).nodes@[k],
            forall|k: u64|
                #![trigger final (self).nodes@[k]]
                final (self).nodes@.contains_key(k) && under(base@, final (self).path_of(k))
                    ==> final (self).good_under(base@, k, *fs),
    {
        let ghost pre = *self;
        let mut stale: Vec<u64> = Vec::new();
        let mut i: usize = 0;
        while i < self.nodes.entries.len()
            invariant
                *self == pre,
                pre.wf(),
                fs.wf(),
                is_canon_path(base@),
                0 <= i <= self.nodes.entries@.len(),
                forall|j: int|
                    0 <= j < stale@.len() ==> pre.nodes@.contains_key(#[trigger] stale@[j])
                        && under(base@, pre.path_of(stale@[j])),
                forall|j: int|
                    0 <= j < i && under(
                        base@,
                        (#[trigger] self.nodes.entries@[j]).1.spec_path(),
                    ) && !pre.good_under(base@, self.nodes.entries@[j].0, *fs) ==> stale@.contains(
                        self.nodes.entries@[j].0,
                    ),
            decreases self.nodes.entries@.len() - i,
        {
            proof {
                lemma_map_of_index(self.nodes.entries@, i as int);
            }
            let key = self.nodes.entries[i].0;
            let mut bad: bool = false;
            {
                let nd = &self.nodes.entries[i].1;
                if is_under(base, nd.path()) {
                    let viz = visible_from(base, nd.path());
                    let ok = match fs.lookup(nd.path()) {
                        Some(m) => m.is_dir == nd.is_dir() && viz,
                        None => false,
                    };
                    if !ok {
                        bad = true;
                    }
                }
            }
            if bad {
                let ghost sb = stale@;
                stale.push(key);
                proof {
                    assert(forall|j: int| 0 <= j < sb.len() ==> #[trigger] stale@[j] == sb[j]);
                    assert(stale@[sb.len() as int] == key);
                    assert forall|j: int|
                        0 <= j < i + 1 && under(
                            base@,
                            (#[trigger] self.nodes.entries@[j]).1.spec_path(),
                        ) && !pre.good_under(base@, self.nodes.entries@[j].0, *fs) implies
                    stale@.contains(self.nodes.entries@[j].0) by {
                        if j < i {
                            let x = choose|x: int|
                                0 <= x < sb.len() && sb[x] == self.nodes.entries@[j].0;
                            assert(stale@[x] == self.nodes.entries@[j].0);
                        } else {
                            assert(stale@[sb.len() as int] == self.nodes.entries@[j].0);
                        }
                    }
                }
            }
            i = i + 1;
        }
        proof {
            assert forall|k: u64|
                pre.nodes@.contains_key(k) && under(base@, pre.path_of(k)) && !pre.good_under(
                    base@,
                    k,
                    *fs,
                ) implies stale@.contains(k) by {
                lemma_map_of_contains(pre.nodes.entries@, k);
                let j = choose|j: int|
                    0 <= j < pre.nodes.entries@.len() && (#[trigger] pre.nodes.entries@[j]).0
                        == k;
                lemma_map_of_index(pre.nodes.entries@, j);
            }
        }
        let mut i2: usize = 0;
        while i2 < stale.len()
            invariant
                0 <= i2 <= stale@.len(),
                fs.wf(),
                is_canon_path(base@),
                pre.wf(),
                self.wf(),
                forall|j: int|
                    0 <= j < stale@.len() ==> pre.nodes@.contains_key(#[trigger] stale@[j])
                        && under(base@, pre.path_of(stale@[j])),
                forall|k: u64|
                    pre.nodes@.contains_key(k) && under(base@, pre.path_of(k))
                        && !pre.good_under(base@, k, *fs) ==> stale@.contains(k),
                forall|k: u64|
                    #![trigger self.nodes@.contains_key(k)]
                    self.nodes@.contains_key(k) ==> pre.nodes@.contains_key(k)
                        && node_eqv_mod_dirty(pre.nodes@[k], self.nodes@[k]),
                forall|k: u64|
                    #![trigger pre.nodes@.contains_key(k)]
                    pre.nodes@.contains_key(k) && !under(base@, pre.path_of(k))
                        ==> self.nodes@.contains_key(k),
                forall|k: u64|
                    #![trigger self.nodes@[k]]
                    pre.nodes@.contains_key(k) && !under_eq(base@, pre.path_of(k)) && !under(
                        pre.path_of(k),
                        base@,
                    ) ==> self.nodes@[k] == pre.nodes@[k],
                forall|j: int|
                    0 <= j < i2 ==> !self.nodes@.contains_key(#[trigger] stale@[j]),
            decreases stale@.len() - i2,
        {
            let k = stale[i2];
            let ghost snap = *self;
            let _ = self.delete_node(&k);
            proof {
                assert forall|k2: u64|
                    #![trigger self.nodes@.contains_key(k2)]
                    self.nodes@.contains_key(k2) implies pre.nodes@.contains_key(k2)
                    && node_eqv_mod_dirty(pre.nodes@[k2], self.nodes@[k2]) by {
                    assert(snap.nodes@.contains_key(k2));
                }
                if snap.nodes@.contains_key(k) {
                    let kb = snap.path_of(k);
                    assert(kb == pre.path_of(k));
                    assert forall|k2: u64|
                        #![trigger pre.nodes@.contains_key(k2)]
                        pre.nodes@.contains_key(k2) && !under(base@, pre.path_of(k2)) implies
                    self.nodes@.contains_key(k2) by {
                        assert(snap.nodes@.contains_key(k2));
                        assert(snap.path_of(k2) == pre.path_of(k2));
                        if under_eq(kb, snap.path_of(k2)) {
                            assert(under(base@, kb));
                            if kb == snap.path_of(k2) {
                                assert(under(base@, pre.path_of(k2)));
                                assert(false);
                            } else {
                                lemma_under_trans(base@, kb, snap.path_of(k2));
                                assert(false);
                            }
                        }
                    }
                    assert forall|k2: u64|
                        #![trigger self.nodes@[k2]]
                        pre.nodes@.contains_key(k2) && !under_eq(base@, pre.path_of(k2)) && !under(
                            pre.path_of(k2),
                            base@,
                        ) implies self.nodes@[k2] == pre.nodes@[k2] by {
                        let pk = pre.path_of(k2);
                        assert(snap.nodes@.contains_key(k2));
                        assert(snap.nodes@[k2] == pre.nodes@[k2]);
                        assert(snap.path_of(k2) == pk);
                        if under(pk, kb) {
                            if pk.len() <= base@.len() {
                                crate::paths::lemma_ancestors_comparable(pk, base@, kb);
                            } else {
                                crate::paths::lemma_ancestors_comparable(base@, pk, kb);
                            }
                            assert(false);
                        }
                        assert(!under_eq(kb, pk));
                    }
                    assert forall|j: int|
                        0 <= j < i2 + 1 implies !self.nodes@.contains_key(
                        #[trigger] stale@[j],
                    ) by {
                        if j < i2 {
                            assert(!snap.nodes@.contains_key(stale@[j]));
                        } else {
                            assert(under_eq(kb, kb));
                        }
                    }
                } else {
                    assert forall|j: int|
                        0 <= j < i2 + 1 implies !self.nodes@.contains_key(
                        #[trigger] stale@[j],
                    ) by {
                        if j < i2 {
                            assert(!snap.nodes@.contains_key(stale@[j]));
                        }
                    }
                }
            }
            i2 = i2 + 1;
        }
        proof {
            assert forall|k: u64|
                #![trigger final (self).nodes@[k]]
                self.nodes@.contains_key(k) && under(base@, self.path_of(k)) implies
            self.good_under(base@, k, *fs) by {
                assert(pre.nodes@.contains_key(k));
                assert(pre.path_of(k) == self.path_of(k));
                if !pre.good_under(base@, k, *fs) {
                    assert(stale@.contains(k));
                    let j = choose|j: int| 0 <= j < stale@.len() && stale@[j] == k;
                    assert(!self.nodes@.contains_key(k));
                }
                assert(pre.nodes@[k].spec_is_dir() == self.nodes@[k].spec_is_dir());
            }
        }
    }

    /// Ensures every visible snapshot entry strictly under `base` has a
    /// node, creating the missing ones.
    fn populate(&mut self, base: &Vec<u8>, fs: &Fs) -> (r: Result<(), JError>)
        requires
            old(self).wf(),
            fs.wf(),
            is_canon_path(base@),
        ensures
            final (self).wf(),
            Self::preserves_nodes(old(self).nodes@, final (self).nodes@),
            forall|k: u64|
                #![trigger final (self).nodes@.contains_key(k)]
                final (self).nodes@.contains_key(k) && !old(self).nodes@.contains_key(k) ==> {
                    let q = final (self).nodes@[k].spec_path();
                    &&& fs@.contains_key(q)
                    &&& is_fresh_node(final (self).nodes@[k], q, fs@[q])
                    &&& (under(base@, q) ==> visible_spec(base@, q))
                },
            forall|k: u64|
                #![trigger final (self).nodes@[k]]
                old(self).nodes@.contains_key(k) && !under_eq(base@, old(self).path_of(k))
                    && !under(old(self).path_of(k), base@) ==> final (self).nodes@[k] == old(
                    self,
                ).nodes@[k],
            r is Ok ==> forall|q: Seq<u8>|
                #![trigger fs@.contains_key(q)]
                fs@.contains_key(q) && under(base@, q) && visible_spec(base@, q) ==> final (
                self).nodes@.contains_key(digest_of(q)) && final (
                self).nodes@[digest_of(q)].spec_path() == q,
            Self::digest_inj(old(self).nodes@, *fs) ==> r is Ok,
            r is Err ==> r.unwrap_err() matches JError::NotExistingNode(_),
            // when the target itself is indexed, adoption stays strictly
            // inside its subtree: the materialized ancestry stops at it
            old(self).nodes@.contains_key(digest_of(base@)) && old(self).nodes@[digest_of(
                base@,
            )].spec_path() == base@ ==> forall|k: u64|
                #![trigger final (self).nodes@.contains_key(k)]
                final (self).nodes@.contains_key(k) && !old(self).nodes@.contains_key(k)
                    ==> under(base@, final (self).nodes@[k].spec_path()),
    {
        let ghost pre = *self;
        let ghost anchored = pre.nodes@.contains_key(digest_of(base@)) && pre.nodes@[digest_of(
            base@,
        )].spec_path() == base@;
        let mut i: usize = 0;
        while i < fs.entries.len()
            invariant
                0 <= i <= fs.entries@.len(),
                fs.wf(),
                is_canon_path(base@),
                pre == *old(self),
                pre.wf(),
                self.wf(),
                anchored == (pre.nodes@.contains_key(digest_of(base@)) && pre.nodes@[digest_of(
                    base@,
                )].spec_path() == base@),
                anchored ==> forall|k: u64|
                    #![trigger self.nodes@.contains_key(k)]
                    self.nodes@.contains_key(k) && !pre.nodes@.contains_key(k) ==> under(
                        base@,
                        self.nodes@[k].spec_path(),
                    ),
                Self::preserves_nodes(pre.nodes@, self.nodes@),
                forall|k: u64|
                    #![trigger self.nodes@.contains_key(k)]
                    self.nodes@.contains_key(k) && !pre.nodes@.contains_key(k) ==> {
                        let q = self.nodes@[k].spec_path();
                        &&& fs@.contains_key(q)
                        &&& is_fresh_node(self.nodes@[k], q, fs@[q])
                        &&& (under(base@, q) ==> visible_spec(base@, q))
                    },
                forall|k: u64|
                    #![trigger self.nodes@[k]]
                    pre.nodes@.contains_key(k) && !under_eq(base@, pre.path_of(k)) && !under(
                        pre.path_of(k),
                        base@,
                    ) ==> self.nodes@[k] == pre.nodes@[k],
                forall|j: int|
                    0 <= j < i && under(base@, (#[trigger] fs.entries@[j]).path@) && visible_spec(
                        base@,
                        fs.entries@[j].path@,
                    ) ==> self.nodes@.contains_key(digest_of(fs.entries@[j].path@))
                        && self.nodes@[digest_of(fs.entries@[j].path@)].spec_path()
                        == fs.entries@[j].path@,
                Self::digest_inj(pre.nodes@, *fs) ==> Self::digest_inj(self.nodes@, *fs),
            decreases fs.entries@.len() - i,
        {
            proof {
                crate::fs::lemma_fs_map_index(fs.entries@, i as int);
            }
            let doit = {
                let e = &fs.entries[i];
                if is_under(base, &e.path) {
                    visible_from(base, &e.path)
                } else {
                    false
                }
            };
            if doit {
                let ghost snap = *self;
                let ep = crate::paths::dup_bytes(&fs.entries[i].path);
                proof {
                    assert(is_canon_path(ep@)) by {
                        assert(fs@.contains_key(ep@));
                    }
                }
                let res = self.locate_canon(&ep, fs);
                proof {
                    let q = fs.entries@[i as int].path@;
                    if anchored {
                        assert forall|k: u64|
                            #![trigger self.nodes@.contains_key(k)]
                            self.nodes@.contains_key(k) && !pre.nodes@.contains_key(k) implies
                        under(base@, self.nodes@[k].spec_path()) by {
                            let kq = self.nodes@[k].spec_path();
                            if snap.nodes@.contains_key(k) {
                                assert(under(base@, snap.nodes@[k].spec_path()));
                                assert(kq == snap.nodes@[k].spec_path());
                            } else {
                                assert(under_eq(kq, q));
                                if kq == q {
                                } else {
                                    assert(under(kq, q));
                                    if kq.len() <= base@.len() {
                                        crate::paths::lemma_ancestors_comparable(kq, base@, q);
                                        if kq == base@ {
                                            assert(digest_of(kq) == k);
                                            assert(false);
                                        } else {
                                            assert(under(kq, base@));
                                            lemma_ancestor_indexed(pre, digest_of(base@), kq);
                                            assert(false);
                                        }
                                    } else {
                                        crate::paths::lemma_ancestors_comparable(base@, kq, q);
                                        assert(base@ != kq);
                                    }
                                }
                            }
                        }
                    }
                    assert forall|k: u64|
                        #![trigger self.nodes@.contains_key(k)]
                        self.nodes@.contains_key(k) && !pre.nodes@.contains_key(k) implies {
                        let kq = self.nodes@[k].spec_path();
                        &&& fs@.contains_key(kq)
                        &&& is_fresh_node(self.nodes@[k], kq, fs@[kq])
                        &&& (under(base@, kq) ==> visible_spec(base@, kq))
                    } by {
                        let kq = self.nodes@[k].spec_path();
                        if snap.nodes@.contains_key(k) {
                            assert(node_eqv_mod_dirty(snap.nodes@[k], self.nodes@[k]));
                            assert(kq == snap.nodes@[k].spec_path());
                            assert(is_fresh_node(self.nodes@[k], kq, fs@[kq])) by {
                                assert(is_fresh_node(snap.nodes@[k], kq, fs@[kq]));
                                assert(snap.nodes@[k].spec_dirty() ==> self.nodes@[k].spec_dirty());
                            }
                        } else {
                            assert(under_eq(kq, q));
                            if under(base@, kq) {
                                assert(visible_spec(base@, kq)) by {
                                    lemma_visible_ancestor(base@, kq, q);
                                }
                            }
                        }
                    }
                    assert forall|k: u64|
                        #![trigger self.nodes@[k]]
                        pre.nodes@.contains_key(k) && !under_eq(base@, pre.path_of(k)) && !under(
                            pre.path_of(k),
                            base@,
                        ) implies self.nodes@[k] == pre.nodes@[k] by {
                        let pk = pre.path_of(k);
                        assert(snap.nodes@.contains_key(k));
                        assert(snap.nodes@[k] == pre.nodes@[k]);
                        if under_eq(pk, q) {
                            if pk == q {
                                assert(under(base@, pk));
                                assert(false);
                            } else {
                                assert(under(pk, q));
                                if pk.len() <= base@.len() {
                                    crate::paths::lemma_ancestors_comparable(pk, base@, q);
                                    assert(under_eq(pk, base@));
                                    assert(false);
                                } else {
                                    crate::paths::lemma_ancestors_comparable(base@, pk, q);
                                    assert(under_eq(base@, pk));
                                    assert(false);
                                }
                            }
                        }
                        assert(snap.path_of(k) == pk);
                    }
                    if Self::digest_inj(pre.nodes@, *fs) {
                        assert(Self::digest_inj(snap.nodes@, *fs));
                        lemma_digest_inj_grow(snap.nodes@, self.nodes@, *fs);
                    }
                    assert(Self::preserves_nodes(pre.nodes@, self.nodes@)) by {
                        assert forall|k: u64|
                            #![trigger pre.nodes@.contains_key(k)]
                            pre.nodes@.contains_key(k) implies self.nodes@.contains_key(k)
                            && node_eqv_mod_dirty(pre.nodes@[k], self.nodes@[k]) by {
                            assert(snap.nodes@.contains_key(k) && node_eqv_mod_dirty(
                                pre.nodes@[k],
                                snap.nodes@[k],
                            ));
                            assert(node_eqv_mod_dirty(snap.nodes@[k], self.nodes@[k]));
                        }
                    }
                }
                match res {
                    Ok(_) => {},
                    Err(e2) => {
                        proof {
                            if Self::digest_inj(pre.nodes@, *fs) {
                                assert(Self::digest_inj(snap.nodes@, *fs));
                                assert(fs@.contains_key(ep@));
                                assert(false);
                            }
                            assert(e2 matches JError::NotExistingNode(_)) by {
                                if e2 matches JError::NotExistingPath(_) {
                                    assert(!fs@.contains_key(ep@));
                                    assert(false);
                                }
                            }
                        }
                        return Err(e2);
                    },
                }
            }
            i = i + 1;
            proof {
                assert forall|j: int|
                    0 <= j < i && under(base@, (#[trigger] fs.entries@[j]).path@) && visible_spec(
                        base@,
                        fs.entries@[j].path@,
                    ) implies self.nodes@.contains_key(digest_of(fs.entries@[j].path@))
                    && self.nodes@[digest_of(fs.entries@[j].path@)].spec_path()
                    == fs.entries@[j].path@ by {
                    if j < i - 1 {
                    }
                }
            }
        }
        proof {
            assert forall|q: Seq<u8>|
                #![trigger fs@.contains_key(q)]
                fs@.contains_key(q) && under(base@, q) && visible_spec(base@, q) implies
            self.nodes@.contains_key(digest_of(q)) && self.nodes@[digest_of(q)].spec_path()
                == q by {
                crate::fs::lemma_fs_map_contains(fs.entries@, q);
                let j = choose|j: int|
                    0 <= j < fs.entries@.len() && (#[trigger] fs.entries@[j]).path@ == q;
            }
        }
        Ok(())
    }

    /// Refreshes the cached metadata of every file node strictly under
    /// `base` from the snapshot.
    fn refresh_files(&mut self, base: &Vec<u8>, fs: &Fs)
        requires
            old(self).wf(),
            fs.wf(),
            is_canon_path(base@),
        ensures
            final (self).wf(),
            final (self).chash == old(self).chash,
            final (self).phash == old(self).phash,
            final (self).nodes@.dom() == old(self).nodes@.dom(),
            forall|k: u64|
                #![trigger final (self).nodes@[k]]
                old(self).nodes@.contains_key(k) && !(under(base@, old(self).path_of(k)) && !old(
                    self,
                ).nodes@[k].spec_is_dir()) ==> final (self).nodes@[k] == old(self).nodes@[k],
            forall|k: u64|
                #![trigger final (self).nodes@[k]]
                old(self).nodes@.contains_key(k) ==> {
                    &&& final (self).nodes@[k].spec_path() == old(self).path_of(k)
                    &&& final (self).nodes@[k].spec_is_dir() == old(self).nodes@[k].spec_is_dir()
                    &&& final (self).nodes@[k].spec_dirty() == old(self).nodes@[k].spec_dirty()
                },
            forall|k: u64|
                #![trigger final (self).nodes@[k]]
                old(self).nodes@.contains_key(k) && under(base@, old(self).path_of(k)) && !old(
                    self,
                ).nodes@[k].spec_is_dir() && fs@.contains_key(old(self).path_of(k)) ==> final (
                self).nodes@[k].spec_size() == fs@[old(self).path_of(k)].size && final (
                self).nodes@[k].spec_lwt() == fs@[old(self).path_of(k)].mtime,
    {
        let ghost pre = *self;
        let mut files: Vec<u64> = Vec::new();
        let mut i: usize = 0;
        while i < self.nodes.entries.len()
            invariant
                *self == pre,
                pre == *old(self),
                pre.wf(),
                fs.wf(),
                is_canon_path(base@),
                0 <= i <= self.nodes.entries@.len(),
                forall|j: int|
                    0 <= j < files@.len() ==> pre.nodes@.contains_key(#[trigger] files@[j])
                        && under(base@, pre.path_of(files@[j]))
                        && !pre.nodes@[files@[j]].spec_is_dir(),
                forall|j: int|
                    0 <= j < i && under(
                        base@,
                        (#[trigger] self.nodes.entries@[j]).1.spec_path(),
                    ) && !self.nodes.entries@[j].1.spec_is_dir() ==> files@.contains(
                        self.nodes.entries@[j].0,
                    ),
            decreases self.nodes.entries@.len() - i,
        {
            proof {
                lemma_map_of_index(self.nodes.entries@, i as int);
            }
            let key = self.nodes.entries[i].0;
            let isfile = {
                let nd = &self.nodes.entries[i].1;
                is_under(base, nd.path()) && !nd.is_dir()
            };
            if isfile {
                let ghost fb = files@;
                files.push(key);
                proof {
                    assert(forall|j: int| 0 <= j < fb.len() ==> #[trigger] files@[j] == fb[j]);
                    assert(files@[fb.len() as int] == key);
                    assert forall|j: int|
                        0 <= j < i + 1 && under(
                            base@,
                            (#[trigger] self.nodes.entries@[j]).1.spec_path(),
                        ) && !self.nodes.entries@[j].1.spec_is_dir() implies files@.contains(
                        self.nodes.entries@[j].0,
                    ) by {
                        if j < i {
                            let x = choose|x: int|
                                0 <= x < fb.len() && fb[x] == self.nodes.entries@[j].0;
                            assert(files@[x] == self.nodes.entries@[j].0);
                        } else {
                            assert(files@[fb.len() as int] == self.nodes.entries@[j].0);
                        }
                    }
                }
            }
            i = i + 1;
        }
        proof {
            assert forall|k: u64|
                pre.nodes@.contains_key(k) && under(base@, pre.path_of(k))
                    && !pre.nodes@[k].spec_is_dir() implies files@.contains(k) by {
                lemma_map_of_contains(pre.nodes.entries@, k);
                let j = choose|j: int|
                    0 <= j < pre.nodes.entries@.len() && (#[trigger] pre.nodes.entries@[j]).0
                        == k;
                lemma_map_of_index(pre.nodes.entries@, j);
            }
        }
        let mut i2: usize = 0;
        while i2 < files.len()
            invariant
                0 <= i2 <= files@.len(),
                pre == *old(self),
                pre.wf(),
                fs.wf(),
                is_canon_path(base@),
                self.wf(),
                self.chash == pre.chash,
                self.phash == pre.phash,
                self.nodes@.dom() == pre.nodes@.dom(),
                forall|j: int|
                    0 <= j < files@.len() ==> pre.nodes@.contains_key(#[trigger] files@[j])
                        && under(base@, pre.path_of(files@[j]))
                        && !pre.nodes@[files@[j]].spec_is_dir(),
                forall|k: u64|
                    pre.nodes@.contains_key(k) && under(base@, pre.path_of(k))
                        && !pre.nodes@[k].spec_is_dir() ==> files@.contains(k),
                forall|k: u64|
                    #![trigger self.nodes@[k]]
                    pre.nodes@.contains_key(k) && !files@.take(i2 as int).contains(k)
                        ==> self.nodes@[k] == pre.nodes@[k],
                forall|k: u64|
                    #![trigger self.nodes@[k]]
                    pre.nodes@.contains_key(k) ==> {
                        &&& self.nodes@[k].spec_path() == pre.path_of(k)
                        &&& self.nodes@[k].spec_is_dir() == pre.nodes@[k].spec_is_dir()
                        &&& self.nodes@[k].spec_dirty() == pre.nodes@[k].spec_dirty()
                    },
                forall|j: int|
                    #![trigger files@[j]]
                    0 <= j < i2 && fs@.contains_key(pre.path_of(files@[j]))
                        ==> self.nodes@[files@[j]].spec_size() == fs@[pre.path_of(
                        files@[j],
                    )].size && self.nodes@[files@[j]].spec_lwt() == fs@[pre.path_of(
                        files@[j],
                    )].mtime,
            decreases files@.len() - i2,
        {
            let k = files[i2];
            let meta = {
                let nd = match self.nodes.get(k) {
                    Some(n) => n,
                    None => {
                        proof {
                            assert(false);
                        }
                        return ;
                    },
                };
                fs.lookup(nd.path())
            };
            if let Some(m) = meta {
                let nd2 = match self.nodes.get(k) {
                    Some(n) => n.dup(),
                    None => {
                        proof {
                            assert(false);
                        }
                        return ;
                    },
                };
                let mut nd3 = nd2;
                nd3.set(Some(m.size), Some(m.mtime), None, None, None);
                self.nodes.insert(k, nd3);
            }
            proof {
                assert(files@.take(i2 as int + 1).drop_last() =~= files@.take(i2 as int));
                assert(files@.take(i2 as int + 1).last() == files@[i2 as int]);
                assert forall|x: u64|
                    #[trigger] files@.take(i2 as int + 1).contains(x) implies (files@.take(
                    i2 as int,
                ).contains(x) || x == k) by {
                    let j = choose|j: int|
                        0 <= j < i2 + 1 && #[trigger] files@.take(i2 as int + 1)[j] == x;
                    if j < i2 {
                        assert(files@.take(i2 as int)[j] == x);
                    }
                }
                assert forall|j: int|
                    #![trigger files@[j]]
                    0 <= j < i2 + 1 && fs@.contains_key(pre.path_of(files@[j])) implies
                self.nodes@[files@[j]].spec_size() == fs@[pre.path_of(files@[j])].size
                    && self.nodes@[files@[j]].spec_lwt() == fs@[pre.path_of(files@[j])].mtime by {
                    if j < i2 && files@[j] != k {
                    }
                }
            }
            i2 = i2 + 1;
        }
        proof {
            assert(files@.take(files@.len() as int) =~= files@);
            assert forall|k: u64|
                #![trigger final (self).nodes@[k]]
                pre.nodes@.contains_key(k) && under(base@, pre.path_of(k))
                    && !pre.nodes@[k].spec_is_dir() && fs@.contains_key(pre.path_of(k)) implies
            self.nodes@[k].spec_size() == fs@[pre.path_of(k)].size
                && self.nodes@[k].spec_lwt() == fs@[pre.path_of(k)].mtime by {
                assert(files@.contains(k));
                let j = choose|j: int| 0 <= j < files@.len() && #[trigger] files@[j] == k;
                assert(fs@.contains_key(pre.path_of(files@[j])));
                assert(self.nodes@[files@[j]].spec_size() == fs@[pre.path_of(files@[j])].size);
            }
        }
    }

    /// Clipped sums of the stored attributes of the listed handles, as a
    /// parent directory aggregates them: total size, recursive file count,
    /// recursive directory count.
    fn sum_children(&self, cs: &Vec<u64>) -> (r: (u64, u64, u64))
        requires
            self.nodes.wf(),
        ensures
            r.0 == clip_u64(sum_sizes(self.nodes@, cs@)),
            r.1 == clip_u64(sum_files(self.nodes@, cs@)),
            r.2 == clip_u64(sum_dirs(self.nodes@, cs@)),
    {
        let mut size: u128 = 0;
        let mut files: u128 = 0;
        let mut dirs: u128 = 0;
        let mut i: usize = 0;
        while i < cs.len()
            invariant
                self.nodes.wf(),
                0 <= i <= cs@.len(),
                size == sum_sizes(self.nodes@, cs@.take(i as int)),
                files == sum_files(self.nodes@, cs@.take(i as int)),
                dirs == sum_dirs(self.nodes@, cs@.take(i as int)),
                0 <= size <= i * (u64::MAX as int),
                0 <= files <= i * (u64::MAX as int),
                0 <= dirs <= i * (u64::MAX as int + 1),
            decreases cs@.len() - i,
        {
            proof {
                assert(cs@.take(i as int + 1).drop_last() =~= cs@.take(i as int));
                assert(cs@.take(i as int + 1).last() == cs@[i as int]);
            }
            match self.nodes.get(cs[i]) {
                Some(n) => {
                    size = size + (n.size() as u128);
                    if n.is_dir() {
                        files = files + (match n.count_file() {
                            Some(c) => c,
                            None => 0,
                        } as u128);
                        dirs = dirs + 1 + (match n.count_dir() {
                            Some(c) => c,
                            None => 0,
                        } as u128);
                    } else {
                        files = files + 1;
                    }
                },
                None => {},
            }
            i = i + 1;
        }
        proof {
            assert(cs@.take(cs@.len() as int) =~= cs@);
            lemma_sum_bounds(self.nodes@, cs@);
        }
        let s64: u64 = if size > u64::MAX as u128 {
            u64::MAX
        } else {
            size as u64
        };
        let f64_: u64 = if files > u64::MAX as u128 {
            u64::MAX
        } else {
            files as u64
        };
        let d64: u64 = if dirs > u64::MAX as u128 {
            u64::MAX
        } else {
            dirs as u64
        };
        (s64, f64_, d64)
    }

    /// Recomputes every subtree directory whose path has exactly length `l`.
    #[verifier::rlimit(100)]
    fn settle_level(&mut self, base: &Vec<u8>, fs: &Fs, l: usize, Ghost(pre): Ghost<JManager>)
        requires
            pre.wf(),
            fs.wf(),
            is_canon_path(base@),
            fs@.contains_key(base@),
            base@.len() <= l,
            forall|k: u64|
                #![trigger pre.nodes@.contains_key(k)]
                pre.nodes@.contains_key(k) && under(base@, pre.path_of(k)) ==> fs@.contains_key(
                    pre.path_of(k),
                ),
            old(self).wf(),
            old(self).chash == pre.chash,
            old(self).phash == pre.phash,
            old(self).nodes@.dom() == pre.nodes@.dom(),
            forall|k: u64|
                #![trigger old(self).nodes@[k]]
                pre.nodes@.contains_key(k) ==> old(self).nodes@[k].spec_path() == pre.path_of(k)
                    && old(self).nodes@[k].spec_is_dir() == pre.nodes@[k].spec_is_dir(),
            forall|k: u64|
                #![trigger old(self).nodes@[k]]
                pre.nodes@.contains_key(k) && !(under_eq(base@, pre.path_of(k))
                    && pre.nodes@[k].spec_is_dir()) ==> old(self).nodes@[k] == pre.nodes@[k],
            forall|k: u64|
                #![trigger old(self).nodes@[k]]
                pre.nodes@.contains_key(k) && under_eq(base@, pre.path_of(k))
                    && pre.nodes@[k].spec_is_dir() && pre.path_of(k).len() > l ==> dir_settled(
                    *fs,
                    *old(self),
                    base@,
                    k,
                ),
            forall|k: u64|
                #![trigger old(self).nodes@[k]]
                pre.nodes@.contains_key(k) && under_eq(base@, pre.path_of(k))
                    && pre.nodes@[k].spec_is_dir() && pre.path_of(k).len() <= l ==> old(
                    self,
                ).nodes@[k] == pre.nodes@[k],
        ensures
            final (self).wf(),
            final (self).chash == pre.chash,
            final (self).phash == pre.phash,
            final (self).nodes@.dom() == pre.nodes@.dom(),
            forall|k: u64|
                #![trigger final (self).nodes@[k]]
                pre.nodes@.contains_key(k) ==> final (self).nodes@[k].spec_path() == pre.path_of(k)
                    && final (self).nodes@[k].spec_is_dir() == pre.nodes@[k].spec_is_dir(),
            forall|k: u64|
                #![trigger final (self).nodes@[k]]
                pre.nodes@.contains_key(k) && !(under_eq(base@, pre.path_of(k))
                    && pre.nodes@[k].spec_is_dir()) ==> final (self).nodes@[k] == pre.nodes@[k],
            forall|k: u64|
                #![trigger final (self).nodes@[k]]
                pre.nodes@.contains_key(k) && under_eq(base@, pre.path_of(k))
                    && pre.nodes@[k].spec_is_dir() && pre.path_of(k).len() >= l ==> dir_settled(
                    *fs,
                    *final (self),
                    base@,
                    k,
                ),
            forall|k: u64|
                #![trigger final (self).nodes@[k]]
                pre.nodes@.contains_key(k) && under_eq(base@, pre.path_of(k))
                    && pre.nodes@[k].spec_is_dir() && pre.path_of(k).len() < l ==> final (
                self).nodes@[k] == pre.nodes@[k],
    {
        let ghost at_entry = *self;
        let mut level: Vec<u64> = Vec::new();
        let mut i: usize = 0;
        while i < self.nodes.entries.len()
            invariant
                *self == at_entry,
                at_entry.wf(),
                pre.nodes@.dom() == at_entry.nodes@.dom(),
                forall|k: u64|
                    #![trigger at_entry.nodes@[k]]
                    pre.nodes@.contains_key(k) ==> at_entry.nodes@[k].spec_path() == pre.path_of(
                        k,
                    ) && at_entry.nodes@[k].spec_is_dir() == pre.nodes@[k].spec_is_dir(),
                is_canon_path(base@),
                0 <= i <= self.nodes.entries@.len(),
                forall|j: int|
                    0 <= j < level@.len() ==> pre.nodes@.contains_key(#[trigger] level@[j])
                        && under_eq(base@, pre.path_of(level@[j]))
                        && pre.nodes@[level@[j]].spec_is_dir() && pre.path_of(level@[j]).len()
                        == l,
                no_dups(level@),
                forall|j: int|
                    0 <= j < i && under_eq(
                        base@,
                        (#[trigger] self.nodes.entries@[j]).1.spec_path(),
                    ) && self.nodes.entries@[j].1.spec_is_dir()
                        && self.nodes.entries@[j].1.spec_path().len() == l ==> level@.contains(
                        self.nodes.entries@[j].0,
                    ),
                forall|j: int|
                    0 <= j < level@.len() ==> exists|x: int|
                        0 <= x < i && (#[trigger] self.nodes.entries@[x]).0 == #[trigger] level@[j],
            decreases self.nodes.entries@.len() - i,
        {
            proof {
                lemma_map_of_index(self.nodes.entries@, i as int);
            }
            let key = self.nodes.entries[i].0;
            let pick = {
                let nd = &self.nodes.entries[i].1;
                (bytes_eq(nd.path().as_slice(), base.as_slice()) || is_under(base, nd.path()))
                    && nd.is_dir() && nd.path().len() == l
            };
            if pick {
                let ghost lb = level@;
                proof {
                    assert(!lb.contains(key)) by {
                        if lb.contains(key) {
                            let j = choose|j: int| 0 <= j < lb.len() && lb[j] == key;
                            let x = choose|x: int|
                                0 <= x < i && (#[trigger] self.nodes.entries@[x]).0 == lb[j];
                            assert(self.nodes.entries@[x].0 == self.nodes.entries@[i as int].0);
                        }
                    }
                }
                level.push(key);
                proof {
                    assert(forall|j: int| 0 <= j < lb.len() ==> #[trigger] level@[j] == lb[j]);
                    assert(level@[lb.len() as int] == key);
                    assert(no_dups(level@)) by {
                        assert(forall|a: int, b: int|
                            0 <= a < b < level@.len() && b < level@.len() - 1 ==> level@[a]
                                != level@[b]);
                        assert(forall|a: int|
                            0 <= a < level@.len() - 1 ==> level@[a] == lb[a] && lb.contains(
                                lb[a],
                            ));
                    }
                    assert(under_eq(base@, pre.path_of(key)));
                    assert forall|j: int|
                        0 <= j < i + 1 && under_eq(
                            base@,
                            (#[trigger] self.nodes.entries@[j]).1.spec_path(),
                        ) && self.nodes.entries@[j].1.spec_is_dir()
                            && self.nodes.entries@[j].1.spec_path().len() == l implies
                    level@.contains(self.nodes.entries@[j].0) by {
                        if j < i {
                            let x = choose|x: int|
                                0 <= x < lb.len() && lb[x] == self.nodes.entries@[j].0;
                            assert(level@[x] == self.nodes.entries@[j].0);
                        } else {
                            assert(level@[lb.len() as int] == self.nodes.entries@[j].0);
                        }
                    }
                }
            }
            i = i + 1;
        }
        proof {
            assert forall|k: u64|
                pre.nodes@.contains_key(k) && under_eq(base@, pre.path_of(k))
                    && pre.nodes@[k].spec_is_dir() && pre.path_of(k).len() == l implies
            level@.contains(k) by {
                lemma_map_of_contains(at_entry.nodes.entries@, k);
                let j = choose|j: int|
                    0 <= j < at_entry.nodes.entries@.len() && (
                    #[trigger] at_entry.nodes.entries@[j]).0 == k;
                lemma_map_of_index(at_entry.nodes.entries@, j);
            }
        }
        let mut i2: usize = 0;
        while i2 < level.len()
            invariant
                0 <= i2 <= level@.len(),
                pre.wf(),
                fs.wf(),
                is_canon_path(base@),
                fs@.contains_key(base@),
                base@.len() <= l,
                forall|k: u64|
                    #![trigger pre.nodes@.contains_key(k)]
                    pre.nodes@.contains_key(k) && under(base@, pre.path_of(k)) ==> fs@.contains_key(
                        pre.path_of(k),
                    ),
                forall|j: int|
                    0 <= j < level@.len() ==> pre.nodes@.contains_key(#[trigger] level@[j])
                        && under_eq(base@, pre.path_of(level@[j]))
                        && pre.nodes@[level@[j]].spec_is_dir() && pre.path_of(level@[j]).len()
                        == l,
                no_dups(level@),
                forall|k: u64|
                    pre.nodes@.contains_key(k) && under_eq(base@, pre.path_of(k))
                        && pre.nodes@[k].spec_is_dir() && pre.path_of(k).len() == l
                        ==> level@.contains(k),
                self.wf(),
                self.chash == pre.chash,
                self.phash == pre.phash,
                self.nodes@.dom() == pre.nodes@.dom(),
                forall|k: u64|
                    #![trigger self.nodes@[k]]
                    pre.nodes@.contains_key(k) ==> self.nodes@[k].spec_path() == pre.path_of(k)
                        && self.nodes@[k].spec_is_dir() == pre.nodes@[k].spec_is_dir(),
                forall|k: u64|
                    #![trigger self.nodes@[k]]
                    pre.nodes@.contains_key(k) && !(under_eq(base@, pre.path_of(k))
                        && pre.nodes@[k].spec_is_dir()) ==> self.nodes@[k] == pre.nodes@[k],
                forall|k: u64|
                    #![trigger self.nodes@[k]]
                    pre.nodes@.contains_key(k) && under_eq(base@, pre.path_of(k))
                        && pre.nodes@[k].spec_is_dir() && pre.path_of(k).len() > l ==> dir_settled(
                        *fs,
                        *self,
                        base@,
                        k,
                    ),
                forall|j: int|
                    0 <= j < i2 ==> dir_settled(*fs, *self, base@, #[trigger] level@[j]),
                forall|k: u64|
                    #![trigger self.nodes@[k]]
                    pre.nodes@.contains_key(k) && under_eq(base@, pre.path_of(k))
                        && pre.nodes@[k].spec_is_dir() && pre.path_of(k).len() <= l
                        && !level@.take(i2 as int).contains(k) ==> self.nodes@[k] == pre.nodes@[k],
            decreases level@.len() - i2,
        {
            let d = level[i2];
            let ghost snap = *self;
            let pd = match self.nodes.get(d) {
                Some(n) => dup_bytes(n.path()),
                None => {
                    proof {
                        assert(false);
                    }
                    return ;
                },
            };
            proof {
                assert(pd@ == pre.path_of(d));
                if under(base@, pd@) {
                    assert(fs@.contains_key(pd@));
                }
            }
            let m = match fs.lookup(&pd) {
                Some(m) => m,
                None => {
                    proof {
                        assert(false);
                    }
                    return ;
                },
            };
            let stats = if is_excluded(&pd) {
                raw_stats(fs, &pd)
            } else {
                let cs = self.get_children(&d);
                self.sum_children(&cs)
            };
            let nd2 = match self.nodes.get(d) {
                Some(n) => n.dup(),
                None => {
                    proof {
                        assert(false);
                    }
                    return ;
                },
            };
            let mut nd3 = nd2;
            nd3.set(Some(stats.0), Some(m.mtime), Some(stats.2), Some(stats.1), Some(false));
            self.nodes.insert(d, nd3);
            proof {
                assert(self.nodes@.dom() =~= pre.nodes@.dom());
                let ghost cs_d = snap.children_seq(d);
                assert(self.children_seq(d) == cs_d);
                assert forall|j: int|
                    0 <= j < cs_d.len() implies snap.nodes@.contains_key(#[trigger] cs_d[j])
                    == self.nodes@.contains_key(cs_d[j]) && (snap.nodes@.contains_key(cs_d[j])
                    ==> snap.nodes@[cs_d[j]] == self.nodes@[cs_d[j]]) by {
                    lemma_child_longer(snap, d, cs_d[j]);
                    assert(cs_d[j] != d);
                }
                lemma_sum_agree(snap.nodes@, self.nodes@, cs_d);
                assert(dir_settled(*fs, *self, base@, d));
                assert forall|k: u64|
                    #![trigger self.nodes@[k]]
                    pre.nodes@.contains_key(k) && under_eq(base@, pre.path_of(k))
                        && pre.nodes@[k].spec_is_dir() && pre.path_of(k).len() > l implies
                dir_settled(*fs, *self, base@, k) by {
                    assert(k != d);
                    assert(dir_settled(*fs, snap, base@, k));
                    let ghost cs_k = snap.children_seq(k);
                    assert(self.children_seq(k) == cs_k);
                    assert forall|j: int|
                        0 <= j < cs_k.len() implies snap.nodes@.contains_key(#[trigger] cs_k[j])
                        == self.nodes@.contains_key(cs_k[j]) && (snap.nodes@.contains_key(
                        cs_k[j],
                    ) ==> snap.nodes@[cs_k[j]] == self.nodes@[cs_k[j]]) by {
                        lemma_child_longer(snap, k, cs_k[j]);
                        assert(snap.path_of(cs_k[j]).len() > snap.path_of(k).len());
                        assert(cs_k[j] != d);
                    }
                    lemma_sum_agree(snap.nodes@, self.nodes@, cs_k);
                }
                assert forall|j: int|
                    0 <= j < i2 + 1 implies dir_settled(*fs, *self, base@, #[trigger] level@[j]) by {
                    if j < i2 {
                        let k = level@[j];
                        assert(dir_settled(*fs, snap, base@, k));
                        assert(k != d) by {
                            assert(level@[j] != level@[i2 as int]);
                        }
                        let ghost cs_k = snap.children_seq(k);
                        assert(self.children_seq(k) == cs_k);
                        assert forall|x: int|
                            0 <= x < cs_k.len() implies snap.nodes@.contains_key(
                            #[trigger] cs_k[x],
                        ) == self.nodes@.contains_key(cs_k[x]) && (snap.nodes@.contains_key(
                            cs_k[x],
                        ) ==> snap.nodes@[cs_k[x]] == self.nodes@[cs_k[x]]) by {
                            lemma_child_longer(snap, k, cs_k[x]);
                            assert(cs_k[x] != d);
                        }
                        lemma_sum_agree(snap.nodes@, self.nodes@, cs_k);
                    }
                }
                assert(level@.take(i2 as int + 1).drop_last() =~= level@.take(i2 as int));
                assert(level@.take(i2 as int + 1).last() == level@[i2 as int]);
                assert forall|x: u64|
                    #[trigger] level@.take(i2 as int + 1).contains(x) implies (level@.take(
                    i2 as int,
                ).contains(x) || x == d) by {
                    let j = choose|j: int|
                        0 <= j < i2 + 1 && #[trigger] level@.take(i2 as int + 1)[j] == x;
                    if j < i2 {
                        assert(level@.take(i2 as int)[j] == x);
                    }
                }
            }
            i2 = i2 + 1;
        }
        proof {
            assert forall|k: u64|
                #![trigger final (self).nodes@[k]]
                pre.nodes@.contains_key(k) && under_eq(base@, pre.path_of(k))
                    && pre.nodes@[k].spec_is_dir() && pre.path_of(k).len() >= l implies
            dir_settled(*fs, *self, base@, k) by {
                if pre.path_of(k).len() == l {
                    assert(level@.contains(k));
                    let j = choose|j: int| 0 <= j < level@.len() && #[trigger] level@[j] == k;
                }
            }
            assert forall|k: u64|
                #![trigger final (self).nodes@[k]]
                pre.nodes@.contains_key(k) && under_eq(base@, pre.path_of(k))
                    && pre.nodes@[k].spec_is_dir() && pre.path_of(k).len() < l implies
            self.nodes@[k] == pre.nodes@[k] by {
                assert(level@.take(level@.len() as int) =~= level@);
                if level@.contains(k) {
                    let j = choose|j: int| 0 <= j < level@.len() && #[trigger] level@[j] == k;
                    assert(pre.path_of(k).len() == l);
                }
            }
        }
    }

    /// Recomputes the aggregates of every directory node at or under `base`,
    /// deepest paths first, so that each parent sums over settled children:
    /// ordinary directories sum their direct children as stored in the
    /// index; ignored directories take the raw-walk totals of the snapshot.
    /// Every recomputed directory gets the snapshot mtime and a clear dirty
    /// flag.
    #[verifier::rlimit(100)]
    fn aggregate_subtree(&mut self, base: &Vec<u8>, fs: &Fs)
        requires
            old(self).wf(),
            fs.wf(),
            is_canon_path(base@),
            fs@.contains_key(base@),
            forall|k: u64|
                #![trigger old(self).nodes@.contains_key(k)]
                old(self).nodes@.contains_key(k) && under(base@, old(self).path_of(k))
                    ==> fs@.contains_key(old(self).path_of(k)),
        ensures
            final (self).wf(),
            final (self).chash == old(self).chash,
            final (self).phash == old(self).phash,
            final (self).nodes@.dom() == old(self).nodes@.dom(),
            forall|k: u64|
                #![trigger final (self).nodes@[k]]
                old(self).nodes@.contains_key(k) ==> final (self).nodes@[k].spec_path() == old(
                    self,
                ).path_of(k) && final (self).nodes@[k].spec_is_dir() == old(
                    self,
                ).nodes@[k].spec_is_dir(),
            forall|k: u64|
                #![trigger final (self).nodes@[k]]
                old(self).nodes@.contains_key(k) && !(under_eq(base@, old(self).path_of(k)) && old(
                    self,
                ).nodes@[k].spec_is_dir()) ==> final (self).nodes@[k] == old(self).nodes@[k],
            forall|k: u64|
                #![trigger final (self).nodes@[k]]
                old(self).nodes@.contains_key(k) && under_eq(base@, old(self).path_of(k)) && old(
                    self,
                ).nodes@[k].spec_is_dir() ==> dir_settled(*fs, *final (self), base@, k),
    {
        let ghost pre = *self;
        let mut maxlen: usize = 0;
        let mut i: usize = 0;
        while i < self.nodes.entries.len()
            invariant
                *self == pre,
                0 <= i <= self.nodes.entries@.len(),
                forall|j: int|
                    0 <= j < i ==> (#[trigger] self.nodes.entries@[j]).1.spec_path().len()
                        <= maxlen,
            decreases self.nodes.entries@.len() - i,
        {
            let pl = self.nodes.entries[i].1.path().len();
            if pl > maxlen {
                maxlen = pl;
            }
            i = i + 1;
        }
        proof {
            assert forall|k: u64|
                pre.nodes@.contains_key(k) implies pre.path_of(k).len() <= maxlen by {
                lemma_map_of_contains(pre.nodes.entries@, k);
                let j = choose|j: int|
                    0 <= j < pre.nodes.entries@.len() && (#[trigger] pre.nodes.entries@[j]).0
                        == k;
                lemma_map_of_index(pre.nodes.entries@, j);
            }
        }
        if maxlen < base.len() {
            proof {
                assert forall|k: u64|
                    #![trigger final (self).nodes@[k]]
                    pre.nodes@.contains_key(k) && under_eq(base@, pre.path_of(k))
                        && pre.nodes@[k].spec_is_dir() implies dir_settled(
                    *fs,
                    *self,
                    base@,
                    k,
                ) by {
                    assert(pre.path_of(k).len() >= base@.len());
                    assert(false);
                }
            }
            return ;
        }
        let mut l: usize = maxlen;
        loop
            invariant_except_break
                forall|k: u64|
                    #![trigger self.nodes@[k]]
                    pre.nodes@.contains_key(k) && under_eq(base@, pre.path_of(k))
                        && pre.nodes@[k].spec_is_dir() && pre.path_of(k).len() <= l
                        ==> self.nodes@[k] == pre.nodes@[k],
            invariant
                base@.len() <= l <= maxlen,
                pre == *old(self),
                pre.wf(),
                fs.wf(),
                is_canon_path(base@),
                fs@.contains_key(base@),
                forall|k: u64|
                    #![trigger pre.nodes@.contains_key(k)]
                    pre.nodes@.contains_key(k) && under(base@, pre.path_of(k)) ==> fs@.contains_key(
                        pre.path_of(k),
                    ),
                self.wf(),
                self.chash == pre.chash,
                self.phash == pre.phash,
                self.nodes@.dom() == pre.nodes@.dom(),
                forall|k: u64|
                    #![trigger self.nodes@[k]]
                    pre.nodes@.contains_key(k) ==> self.nodes@[k].spec_path() == pre.path_of(k)
                        && self.nodes@[k].spec_is_dir() == pre.nodes@[k].spec_is_dir(),
                forall|k: u64|
                    #![trigger self.nodes@[k]]
                    pre.nodes@.contains_key(k) && !(under_eq(base@, pre.path_of(k))
                        && pre.nodes@[k].spec_is_dir()) ==> self.nodes@[k] == pre.nodes@[k],
                forall|k: u64|
                    #![trigger self.nodes@[k]]
                    pre.nodes@.contains_key(k) && under_eq(base@, pre.path_of(k))
                        && pre.nodes@[k].spec_is_dir() && pre.path_of(k).len() > l ==> dir_settled(
                        *fs,
                        *self,
                        base@,
                        k,
                    ),
            ensures
                self.wf(),
                self.chash == pre.chash,
                self.phash == pre.phash,
                self.nodes@.dom() == pre.nodes@.dom(),
                forall|k: u64|
                    #![trigger self.nodes@[k]]
                    pre.nodes@.contains_key(k) ==> self.nodes@[k].spec_path() == pre.path_of(k)
                        && self.nodes@[k].spec_is_dir() == pre.nodes@[k].spec_is_dir(),
                forall|k: u64|
                    #![trigger self.nodes@[k]]
                    pre.nodes@.contains_key(k) && !(under_eq(base@, pre.path_of(k))
                        && pre.nodes@[k].spec_is_dir()) ==> self.nodes@[k] == pre.nodes@[k],
                forall|k: u64|
                    #![trigger self.nodes@[k]]
                    pre.nodes@.contains_key(k) && under_eq(base@, pre.path_of(k))
                        && pre.nodes@[k].spec_is_dir() ==> dir_settled(*fs, *self, base@, k),
            decreases l,
        {
            self.settle_level(base, fs, l, Ghost(pre));
            if l == base.len() {
                proof {
                    assert forall|k: u64|
                        #![trigger self.nodes@[k]]
                        pre.nodes@.contains_key(k) && under_eq(base@, pre.path_of(k))
                            && pre.nodes@[k].spec_is_dir() implies dir_settled(
                        *fs,
                        *self,
                        base@,
                        k,
                    ) by {
                        assert(pre.path_of(k).len() >= base@.len());
                    }
                }
                break ;
            }
            l = l - 1;
        }
    }

    /// Raw walk of an ignored directory: writes the snapshot subtree totals
    /// into the node without indexing any descendant, and clears dirty.
    pub fn scan_folder_raw(&mut self, node_h: &u64, fs: &Fs) -> (r: Result<(), JError>)
        requires
            old(self).wf(),
            fs.wf(),
        ensures
            final (self).wf(),
            final (self).chash == old(self).chash,
            final (self).phash == old(self).phash,
            match r {
                Ok(_) => {
                    let base = old(self).path_of(*node_h);
                    &&& old(self).nodes@.contains_key(*node_h)
                    &&& final (self).nodes@.dom() == old(self).nodes@.dom()
                    &&& forall|k: u64|
                        #![trigger final (self).nodes@[k]]
                        k != *node_h && old(self).nodes@.contains_key(k) ==> final (
                        self).nodes@[k] == old(self).nodes@[k]
                    &&& final (self).nodes@[*node_h].spec_path() == base
                    &&& final (self).nodes@[*node_h].spec_is_dir() == old(
                        self,
                    ).nodes@[*node_h].spec_is_dir()
                    &&& final (self).nodes@[*node_h].spec_lwt() == old(
                        self,
                    ).nodes@[*node_h].spec_lwt()
                    &&& final (self).nodes@[*node_h].spec_size() == clip_u64(
                        raw_size(fs.entries@, base),
                    )
                    &&& (old(self).nodes@[*node_h].spec_is_dir() ==> final (
                    self).nodes@[*node_h].spec_count_file() == Some(
                        clip_u64(raw_files(fs.entries@, base)),
                    ) && final (self).nodes@[*node_h].spec_count_dir() == Some(
                        clip_u64(raw_dirs(fs.entries@, base)),
                    ) && !final (self).nodes@[*node_h].spec_dirty())
                },
                Err(e) => e matches JError::NotExistingNode(x) && x == *node_h && !old(
                    self,
                ).nodes@.contains_key(*node_h) && final (self).nodes == old(self).nodes,
            },
    {
        let h = *node_h;
        let base = match self.nodes.get(h) {
            Some(n) => dup_bytes(n.path()),
            None => {
                return Err(JError::NotExistingNode(h));
            },
        };
        let stats = raw_stats(fs, &base);
        let nd2 = match self.nodes.get(h) {
            Some(n) => n.dup(),
            None => {
                proof {
                    assert(false);
                }
                return Err(JError::NotExistingNode(h));
            },
        };
        let mut nd3 = nd2;
        nd3.set(Some(stats.0), None, Some(stats.2), Some(stats.1), Some(false));
        self.nodes.insert(h, nd3);
        proof {
            assert(self.nodes@.dom() =~= old(self).nodes@.dom());
        }
        Ok(())
    }

    /// One reconciliation level: adopts every direct snapshot child of the
    /// node's path into the index and deletes every direct child whose path
    /// has vanished from the snapshot.  An ignored directory is raw-walked
    /// instead.
    #[verifier::rlimit(100)]
    pub fn scan_folder_once(&mut self, node_h: &u64, fs: &Fs) -> (r: Result<(), JError>)
        requires
            old(self).wf(),
            fs.wf(),
        ensures
            final (self).wf(),
            !old(self).nodes@.contains_key(*node_h) ==> (r matches Err(e) && e
                matches JError::NotExistingNode(x) && x == *node_h) && final (self).nodes == old(
                self,
            ).nodes && final (self).chash == old(self).chash && final (self).phash == old(
                self,
            ).phash,
            old(self).nodes@.contains_key(*node_h) && Self::digest_inj(old(self).nodes@, *fs)
                ==> r is Ok,
            r is Ok ==> old(self).nodes@.contains_key(*node_h),
            r is Ok && is_excluded_name(base_name(old(self).path_of(*node_h))) ==> {
                let base = old(self).path_of(*node_h);
                &&& final (self).nodes@.dom() == old(self).nodes@.dom()
                &&& final (self).chash == old(self).chash
                &&& forall|k: u64|
                    #![trigger final (self).nodes@[k]]
                    k != *node_h && old(self).nodes@.contains_key(k) ==> final (self).nodes@[k]
                        == old(self).nodes@[k]
                &&& final (self).nodes@[*node_h].spec_path() == base
                &&& final (self).nodes@[*node_h].spec_size() == clip_u64(
                    raw_size(fs.entries@, base),
                )
                &&& (old(self).nodes@[*node_h].spec_is_dir() ==> final (
                self).nodes@[*node_h].spec_count_file() == Some(
                    clip_u64(raw_files(fs.entries@, base)),
                ) && final (self).nodes@[*node_h].spec_count_dir() == Some(
                    clip_u64(raw_dirs(fs.entries@, base)),
                ) && !final (self).nodes@[*node_h].spec_dirty())
            },
            r is Ok && !is_excluded_name(base_name(old(self).path_of(*node_h))) ==> {
                let base = old(self).path_of(*node_h);
                // every direct snapshot child is indexed
                &&& forall|q: Seq<u8>|
                    #![trigger fs@.contains_key(q)]
                    fs@.contains_key(q) && !is_root_path(q) && parent_path(q) == base ==> final (
                    self).nodes@.contains_key(digest_of(q)) && final (
                    self).nodes@[digest_of(q)].spec_path() == q
                // every direct child whose path vanished was deleted
                &&& forall|k: u64|
                    #![trigger final (self).nodes@[k]]
                    final (self).nodes@.contains_key(k) && !is_root_path(
                        final (self).nodes@[k].spec_path(),
                    ) && parent_path(final (self).nodes@[k].spec_path()) == base
                        ==> fs@.contains_key(final (self).nodes@[k].spec_path())
                // nothing beyond fresh direct children was adopted
                &&& forall|k: u64|
                    #![trigger final (self).nodes@.contains_key(k)]
                    final (self).nodes@.contains_key(k) && !old(self).nodes@.contains_key(k)
                        ==> {
                        let q = final (self).nodes@[k].spec_path();
                        &&& !is_root_path(q)
                        &&& parent_path(q) == base
                        &&& fs@.contains_key(q)
                        &&& is_fresh_node(final (self).nodes@[k], q, fs@[q])
                    }
                // a surviving node keeps its attributes, with at most its
                // dirty flag raised
                &&& forall|k: u64|
                    #![trigger final (self).nodes@[k]]
                    final (self).nodes@.contains_key(k) && old(self).nodes@.contains_key(k)
                        ==> node_eqv_mod_dirty(old(self).nodes@[k], final (self).nodes@[k])
            },
    {
        let h = *node_h;
        let base = match self.nodes.get(h) {
            Some(n) => dup_bytes(n.path()),
            None => {
                return Err(JError::NotExistingNode(h));
            },
        };
        if is_excluded(&base) {
            return self.scan_folder_raw(node_h, fs);
        }
        let ghost pre = *self;
        let mut i: usize = 0;
        while i < fs.entries.len()
            invariant
                0 <= i <= fs.entries@.len(),
                fs.wf(),
                pre.wf(),
                pre == *old(self),
                self.wf(),
                is_canon_path(base@),
                h == *node_h,
                base@ == pre.path_of(h),
                pre.nodes@.contains_key(h),
                !is_excluded_name(base_name(base@)),
                Self::preserves_nodes(pre.nodes@, self.nodes@),
                forall|k: u64|
                    #![trigger self.nodes@.contains_key(k)]
                    self.nodes@.contains_key(k) && !pre.nodes@.contains_key(k) ==> {
                        let q = self.nodes@[k].spec_path();
                        &&& !is_root_path(q)
                        &&& parent_path(q) == base@
                        &&& fs@.contains_key(q)
                        &&& is_fresh_node(self.nodes@[k], q, fs@[q])
                    },
                forall|j: int|
                    0 <= j < i && !is_root_path((#[trigger] fs.entries@[j]).path@) && parent_path(
                        fs.entries@[j].path@,
                    ) == base@ ==> self.nodes@.contains_key(digest_of(fs.entries@[j].path@))
                        && self.nodes@[digest_of(fs.entries@[j].path@)].spec_path()
                        == fs.entries@[j].path@,
                Self::digest_inj(pre.nodes@, *fs) ==> Self::digest_inj(self.nodes@, *fs),
            decreases fs.entries@.len() - i,
        {
            proof {
                crate::fs::lemma_fs_map_index(fs.entries@, i as int);
            }
            let pick = {
                let e = &fs.entries[i];
                if e.path.len() > 1 {
                    proof {
                        lemma_parent_canon(fs.entries@[i as int].path@);
                    }
                    let pp = parent_of(&e.path);
                    bytes_eq(pp.as_slice(), base.as_slice())
                } else {
                    false
                }
            };
            if pick {
                let ghost snap = *self;
                let ep = crate::paths::dup_bytes(&fs.entries[i].path);
                let res = self.locate_canon(&ep, fs);
                proof {
                    let cp = fs.entries@[i as int].path@;
                    assert(is_canon_path(cp));
                    lemma_under_parent(cp);
                    assert forall|k: u64|
                        #![trigger self.nodes@.contains_key(k)]
                        self.nodes@.contains_key(k) && !pre.nodes@.contains_key(k) implies {
                        let q = self.nodes@[k].spec_path();
                        &&& !is_root_path(q)
                        &&& parent_path(q) == base@
                        &&& fs@.contains_key(q)
                        &&& is_fresh_node(self.nodes@[k], q, fs@[q])
                    } by {
                        let q = self.nodes@[k].spec_path();
                        if snap.nodes@.contains_key(k) {
                            assert(node_eqv_mod_dirty(snap.nodes@[k], self.nodes@[k]));
                            assert(q == snap.nodes@[k].spec_path());
                            assert(is_fresh_node(self.nodes@[k], q, fs@[q])) by {
                                assert(is_fresh_node(snap.nodes@[k], q, fs@[q]));
                                assert(snap.nodes@[k].spec_dirty() ==> self.nodes@[k].spec_dirty());
                            }
                        } else {
                            assert(under_eq(q, cp));
                            if q == cp {
                                assert(q.len() > 1);
                            } else {
                                assert(under(q, cp));
                                lemma_longest_prefix(q, cp);
                                assert(under_eq(q, base@));
                                if q == base@ {
                                    assert(digest_of(q) == h);
                                    assert(false);
                                } else {
                                    assert(under(q, base@));
                                    lemma_ancestor_indexed(pre, h, q);
                                    assert(false);
                                }
                            }
                        }
                    }
                    assert(Self::preserves_nodes(pre.nodes@, self.nodes@)) by {
                        assert forall|k: u64|
                            #![trigger pre.nodes@.contains_key(k)]
                            pre.nodes@.contains_key(k) implies self.nodes@.contains_key(k)
                            && node_eqv_mod_dirty(pre.nodes@[k], self.nodes@[k]) by {
                            assert(snap.nodes@.contains_key(k) && node_eqv_mod_dirty(
                                pre.nodes@[k],
                                snap.nodes@[k],
                            ));
                            assert(node_eqv_mod_dirty(snap.nodes@[k], self.nodes@[k]));
                        }
                    }
                    if Self::digest_inj(pre.nodes@, *fs) {
                        assert(Self::digest_inj(snap.nodes@, *fs));
                        lemma_digest_inj_grow(snap.nodes@, self.nodes@, *fs);
                    }
                }
                match res {
                    Ok(_) => {},
                    Err(e2) => {
                        proof {
                            if Self::digest_inj(pre.nodes@, *fs) {
                                assert(Self::digest_inj(snap.nodes@, *fs));
                                assert(fs@.contains_key(ep@));
                                assert(false);
                            }
                        }
                        return Err(e2);
                    },
                }
            } else {
                proof {
                    let q = fs.entries@[i as int].path@;
                    assert(fs@.contains_key(q));
                    assert(is_canon_path(q));
                    if !is_root_path(q) && parent_path(q) == base@ {
                        assert(q.len() > 1) by {
                            if q.len() == 1 {
                                assert(q =~= seq![SEP]);
                            }
                        }
                        assert(false);
                    }
                }
            }
            i = i + 1;
        }
        proof {
            assert forall|q: Seq<u8>|
                #![trigger fs@.contains_key(q)]
                fs@.contains_key(q) && !is_root_path(q) && parent_path(q) == base@ implies
            self.nodes@.contains_key(digest_of(q)) && self.nodes@[digest_of(q)].spec_path()
                == q by {
                crate::fs::lemma_fs_map_contains(fs.entries@, q);
                let j = choose|j: int|
                    0 <= j < fs.entries@.len() && (#[trigger] fs.entries@[j]).path@ == q;
            }
        }
        // spec level four of the reconciliation: delete every currently
        // linked direct child whose path no longer exists in the snapshot
        let ghost mid = *self;
        let kids = self.get_children(&h);
        let mut stale: Vec<u64> = Vec::new();
        let mut i2: usize = 0;
        while i2 < kids.len()
            invariant
                *self == mid,
                mid.wf(),
                fs.wf(),
                mid.nodes@.contains_key(h),
                base@ == mid.path_of(h),
                0 <= i2 <= kids@.len(),
                kids@ == mid.children_seq(h),
                forall|j: int|
                    0 <= j < stale@.len() ==> mid.nodes@.contains_key(#[trigger] stale@[j])
                        && !fs@.contains_key(mid.path_of(stale@[j])) && parent_path(
                        mid.path_of(stale@[j]),
                    ) == base@ && mid.path_of(stale@[j]).len() > base@.len(),
                forall|j: int|
                    0 <= j < i2 && !fs@.contains_key(mid.path_of(#[trigger] kids@[j]))
                        ==> stale@.contains(kids@[j]),
            decreases kids@.len() - i2,
        {
            let c = kids[i2];
            proof {
                lemma_child_longer(mid, h, kids@[i2 as int]);
            }
            let gone = match self.nodes.get(c) {
                Some(n) => fs.lookup(n.path()).is_none(),
                None => {
                    proof {
                        assert(false);
                    }
                    false
                },
            };
            if gone {
                let ghost sb = stale@;
                stale.push(c);
                proof {
                    assert(forall|j: int| 0 <= j < sb.len() ==> #[trigger] stale@[j] == sb[j]);
                    assert(stale@[sb.len() as int] == c);
                    assert forall|j: int|
                        0 <= j < i2 + 1 && !fs@.contains_key(mid.path_of(#[trigger] kids@[j]))
                    implies stale@.contains(kids@[j]) by {
                        if j < i2 {
                            let x = choose|x: int| 0 <= x < sb.len() && sb[x] == kids@[j];
                            assert(stale@[x] == kids@[j]);
                        } else {
                            assert(stale@[sb.len() as int] == kids@[j]);
                        }
                    }
                }
            }
            i2 = i2 + 1;
        }
        let mut i3: usize = 0;
        while i3 < stale.len()
            invariant
                0 <= i3 <= stale@.len(),
                fs.wf(),
                mid.wf(),
                self.wf(),
                is_canon_path(base@),
                mid.nodes@.contains_key(h),
                base@ == mid.path_of(h),
                forall|j: int|
                    0 <= j < stale@.len() ==> mid.nodes@.contains_key(#[trigger] stale@[j])
                        && !fs@.contains_key(mid.path_of(stale@[j])) && parent_path(
                        mid.path_of(stale@[j]),
                    ) == base@ && mid.path_of(stale@[j]).len() > base@.len(),
                forall|k: u64|
                    #![trigger self.nodes@.contains_key(k)]
                    self.nodes@.contains_key(k) ==> mid.nodes@.contains_key(k)
                        && node_eqv_mod_dirty(mid.nodes@[k], self.nodes@[k]),
                forall|k: u64|
                    #![trigger mid.nodes@.contains_key(k)]
                    mid.nodes@.contains_key(k) && fs@.contains_key(mid.path_of(k))
                        ==> self.nodes@.contains_key(k),
                forall|j: int|
                    0 <= j < i3 ==> !self.nodes@.contains_key(#[trigger] stale@[j]),
            decreases stale@.len() - i3,
        {
            let c = stale[i3];
            let ghost snap3 = *self;
            let _ = self.delete_node(&c);
            proof {
                assert forall|k: u64|
                    #![trigger self.nodes@.contains_key(k)]
                    self.nodes@.contains_key(k) implies mid.nodes@.contains_key(k)
                    && node_eqv_mod_dirty(mid.nodes@[k], self.nodes@[k]) by {
                    assert(snap3.nodes@.contains_key(k));
                }
                if snap3.nodes@.contains_key(c) {
                    let cb = snap3.path_of(c);
                    assert(cb == mid.path_of(c));
                    assert(!fs@.contains_key(cb));
                    assert forall|k: u64|
                        #![trigger mid.nodes@.contains_key(k)]
                        mid.nodes@.contains_key(k) && fs@.contains_key(mid.path_of(k)) implies
                    self.nodes@.contains_key(k) by {
                        assert(snap3.nodes@.contains_key(k));
                        assert(snap3.path_of(k) == mid.path_of(k));
                        if under_eq(cb, snap3.path_of(k)) {
                            if cb == snap3.path_of(k) {
                                assert(false);
                            } else {
                                assert(under(cb, snap3.path_of(k)));
                                assert(is_canon_path(cb));
                                crate::fs::lemma_fs_ancestor_present(
                                    fs@,
                                    cb,
                                    snap3.path_of(k),
                                );
                                assert(false);
                            }
                        }
                    }
                    assert forall|j: int|
                        0 <= j < i3 + 1 implies !self.nodes@.contains_key(
                        #[trigger] stale@[j],
                    ) by {
                        if j < i3 {
                            assert(!snap3.nodes@.contains_key(stale@[j]));
                        } else {
                            assert(under_eq(cb, cb));
                        }
                    }
                } else {
                    assert forall|j: int|
                        0 <= j < i3 + 1 implies !self.nodes@.contains_key(
                        #[trigger] stale@[j],
                    ) by {
                        if j < i3 {
                            assert(!snap3.nodes@.contains_key(stale@[j]));
                        }
                    }
                }
            }
            i3 = i3 + 1;
        }
        proof {
            // vanished direct children are gone
            assert forall|k: u64|
                #![trigger self.nodes@[k]]
                self.nodes@.contains_key(k) && !is_root_path(self.nodes@[k].spec_path())
                    && parent_path(self.nodes@[k].spec_path()) == base@ implies fs@.contains_key(
                self.nodes@[k].spec_path(),
            ) by {
                let q = self.nodes@[k].spec_path();
                assert(mid.nodes@.contains_key(k));
                assert(mid.path_of(k) == q);
                if !fs@.contains_key(q) {
                    assert(mid.phash@[k] == digest_of(parent_path(q)));
                    assert(mid.phash@[k] == digest_of(base@));
                    assert(digest_of(base@) == h);
                    assert(mid.children_seq(h).contains(k));
                    let j = choose|j: int|
                        0 <= j < mid.children_seq(h).len() && mid.children_seq(h)[j] == k;
                    assert(stale@.contains(k));
                    let x = choose|x: int| 0 <= x < stale@.len() && stale@[x] == k;
                    assert(!self.nodes@.contains_key(k));
                }
            }
            // adopted direct children survive the pruning
            assert forall|q: Seq<u8>|
                #![trigger fs@.contains_key(q)]
                fs@.contains_key(q) && !is_root_path(q) && parent_path(q) == base@ implies
            self.nodes@.contains_key(digest_of(q)) && self.nodes@[digest_of(q)].spec_path()
                == q by {
                assert(mid.nodes@.contains_key(digest_of(q)));
                assert(mid.path_of(digest_of(q)) == q);
            }
            // nothing beyond fresh direct children was adopted
            assert forall|k: u64|
                #![trigger self.nodes@.contains_key(k)]
                self.nodes@.contains_key(k) && !pre.nodes@.contains_key(k) implies {
                let q = self.nodes@[k].spec_path();
                &&& !is_root_path(q)
                &&& parent_path(q) == base@
                &&& fs@.contains_key(q)
                &&& is_fresh_node(self.nodes@[k], q, fs@[q])
            } by {
                assert(mid.nodes@.contains_key(k));
                let q = mid.path_of(k);
                assert(self.nodes@[k].spec_path() == q);
                assert(is_fresh_node(self.nodes@[k], q, fs@[q])) by {
                    assert(is_fresh_node(mid.nodes@[k], q, fs@[q]));
                    assert(mid.nodes@[k].spec_dirty() ==> self.nodes@[k].spec_dirty());
                }
            }
            // intersection with the old index is preserved up to dirty
            assert forall|k: u64|
                #![trigger self.nodes@[k]]
                self.nodes@.contains_key(k) && pre.nodes@.contains_key(k) implies
            node_eqv_mod_dirty(pre.nodes@[k], self.nodes@[k]) by {
                assert(mid.nodes@.contains_key(k));
                assert(node_eqv_mod_dirty(pre.nodes@[k], mid.nodes@[k]));
                assert(node_eqv_mod_dirty(mid.nodes@[k], self.nodes@[k]));
            }
        }
        Ok(())
    }

    /// Walks downward from the handle: prunes every stale descendant
    /// (vanished, kind-changed or inside an ignored directory) and adopts
    /// every visible snapshot descendant into the index.  An ignored
    /// directory is raw-walked instead.
    #[verifier::rlimit(100)]
    pub fn scan_folder(&mut self, node_h: &u64, fs: &Fs) -> (r: Result<(), JError>)
        requires
            old(self).wf(),
            fs.wf(),
        ensures
            final (self).wf(),
            !old(self).nodes@.contains_key(*node_h) ==> (r matches Err(e) && e
                matches JError::NotExistingNode(x) && x == *node_h) && final (self).nodes == old(
                self,
            ).nodes && final (self).chash == old(self).chash && final (self).phash == old(
                self,
            ).phash,
            old(self).nodes@.contains_key(*node_h) && Self::digest_inj(old(self).nodes@, *fs)
                ==> r is Ok,
            r is Ok ==> old(self).nodes@.contains_key(*node_h),
            r is Ok && is_excluded_name(base_name(old(self).path_of(*node_h))) ==> {
                let base = old(self).path_of(*node_h);
                &&& final (self).nodes@.dom() == old(self).nodes@.dom()
                &&& final (self).chash == old(self).chash
                &&& forall|k: u64|
                    #![trigger final (self).nodes@[k]]
                    k != *node_h && old(self).nodes@.contains_key(k) ==> final (self).nodes@[k]
                        == old(self).nodes@[k]
                &&& final (self).nodes@[*node_h].spec_path() == base
                &&& final (self).nodes@[*node_h].spec_size() == clip_u64(
                    raw_size(fs.entries@, base),
                )
                &&& (old(self).nodes@[*node_h].spec_is_dir() ==> final (
                self).nodes@[*node_h].spec_count_file() == Some(
                    clip_u64(raw_files(fs.entries@, base)),
                ) && final (self).nodes@[*node_h].spec_count_dir() == Some(
                    clip_u64(raw_dirs(fs.entries@, base)),
                ) && !final (self).nodes@[*node_h].spec_dirty())
            },
            r is Ok && !is_excluded_name(base_name(old(self).path_of(*node_h))) ==> {
                let base = old(self).path_of(*node_h);
                // every visible snapshot entry under the target is indexed
                &&& forall|q: Seq<u8>|
                    #![trigger fs@.contains_key(q)]
                    fs@.contains_key(q) && under(base, q) && visible_spec(base, q) ==> final (
                    self).nodes@.contains_key(digest_of(q)) && final (
                    self).nodes@[digest_of(q)].spec_path() == q
                // no stale descendant survives: in particular, nothing sits
                // inside an ignored directory of the subtree
                &&& forall|k: u64|
                    #![trigger final (self).nodes@[k]]
                    final (self).nodes@.contains_key(k) && under(
                        base,
                        final (self).nodes@[k].spec_path(),
                    ) ==> {
                        let q = final (self).nodes@[k].spec_path();
                        &&& fs@.contains_key(q)
                        &&& fs@[q].is_dir == final (self).nodes@[k].spec_is_dir()
                        &&& visible_spec(base, q)
                    }
                // new nodes are fresh observations of visible snapshot
                // paths strictly under the target
                &&& forall|k: u64|
                    #![trigger final (self).nodes@.contains_key(k)]
                    final (self).nodes@.contains_key(k) && !old(self).nodes@.contains_key(k)
                        ==> {
                        let q = final (self).nodes@[k].spec_path();
                        &&& fs@.contains_key(q)
                        &&& is_fresh_node(final (self).nodes@[k], q, fs@[q])
                        &&& under(base, q)
                        &&& visible_spec(base, q)
                    }
                // nodes outside the subtree survive, untouched unless they
                // are ancestors (whose dirty flag may rise)
                &&& forall|k: u64|
                    #![trigger old(self).nodes@.contains_key(k)]
                    old(self).nodes@.contains_key(k) && !under_eq(
                        base,
                        old(self).nodes@[k].spec_path(),
                    ) ==> final (self).nodes@.contains_key(k) && node_eqv_mod_dirty(
                        old(self).nodes@[k],
                        final (self).nodes@[k],
                    ) && (!under(old(self).nodes@[k].spec_path(), base) ==> final (
                    self).nodes@[k] == old(self).nodes@[k])
                // the target itself survives
                &&& final (self).nodes@.contains_key(digest_of(base))
                &&& final (self).nodes@[digest_of(base)].spec_path() == base
            },
    {
        let h = *node_h;
        let base = match self.nodes.get(h) {
            Some(n) => dup_bytes(n.path()),
            None => {
                return Err(JError::NotExistingNode(h));
            },
        };
        if is_excluded(&base) {
            return self.scan_folder_raw(node_h, fs);
        }
        let ghost s0 = *self;
        self.prune_stale(&base, fs);
        let ghost s1 = *self;
        let pop = self.populate(&base, fs);
        let ghost s2 = *self;
        proof {
            if Self::digest_inj(s0.nodes@, *fs) {
                assert(Self::digest_inj(s1.nodes@, *fs)) by {
                    assert forall|q: Seq<u8>|
                        #![trigger fs@.contains_key(q)]
                        fs@.contains_key(q) && s1.nodes@.contains_key(digest_of(q)) implies
                    s1.nodes@[digest_of(q)].spec_path() == q by {
                        assert(s0.nodes@.contains_key(digest_of(q)));
                        assert(s1.nodes@[digest_of(q)].spec_path() == s0.path_of(digest_of(q)));
                    }
                }
            }
        }
        match pop {
            Ok(_) => {},
            Err(e) => {
                proof {
                    if Self::digest_inj(s0.nodes@, *fs) {
                        assert(false);
                    }
                }
                return Err(e);
            },
        }
        proof {
            // no stale descendant survives
            assert forall|k: u64|
                #![trigger s2.nodes@[k]]
                s2.nodes@.contains_key(k) && under(base@, s2.nodes@[k].spec_path()) implies {
                let q = s2.nodes@[k].spec_path();
                &&& fs@.contains_key(q)
                &&& fs@[q].is_dir == s2.nodes@[k].spec_is_dir()
                &&& visible_spec(base@, q)
            } by {
                let q = s2.nodes@[k].spec_path();
                if s1.nodes@.contains_key(k) {
                    assert(q == s1.path_of(k));
                    assert(s1.good_under(base@, k, *fs));
                    assert(s2.nodes@[k].spec_is_dir() == s1.nodes@[k].spec_is_dir());
                } else {
                    assert(fs@.contains_key(q));
                    assert(is_fresh_node(s2.nodes@[k], q, fs@[q]));
                }
            }
            // new nodes are fresh: pruning never adds, so a node the old
            // index lacks was created by the adoption pass, strictly under
            // the (still indexed) target
            assert forall|k: u64|
                #![trigger s2.nodes@.contains_key(k)]
                s2.nodes@.contains_key(k) && !s0.nodes@.contains_key(k) implies {
                let q = s2.nodes@[k].spec_path();
                &&& fs@.contains_key(q)
                &&& is_fresh_node(s2.nodes@[k], q, fs@[q])
                &&& under(base@, q)
                &&& visible_spec(base@, q)
            } by {
                assert(!s1.nodes@.contains_key(k));
                assert(digest_of(base@) == h);
                assert(s1.nodes@.contains_key(h) && s1.path_of(h) == base@);
                assert(under(base@, s2.path_of(k)));
            }
            // outside frame
            assert forall|k: u64|
                #![trigger s0.nodes@.contains_key(k)]
                s0.nodes@.contains_key(k) && !under_eq(base@, s0.nodes@[k].spec_path()) implies
            s2.nodes@.contains_key(k) && node_eqv_mod_dirty(s0.nodes@[k], s2.nodes@[k]) && (
            !under(s0.nodes@[k].spec_path(), base@) ==> s2.nodes@[k] == s0.nodes@[k]) by {
                let q = s0.path_of(k);
                assert(s1.nodes@.contains_key(k));
                assert(node_eqv_mod_dirty(s0.nodes@[k], s1.nodes@[k]));
                assert(s1.path_of(k) == q);
                assert(s2.nodes@.contains_key(k));
                assert(node_eqv_mod_dirty(s1.nodes@[k], s2.nodes@[k]));
                if !under(q, base@) {
                    assert(s1.nodes@[k] == s0.nodes@[k]);
                    assert(s2.nodes@[k] == s1.nodes@[k]);
                }
            }
            // the target survives the pruning and the adoption
            assert(s1.nodes@.contains_key(h));
            assert(s2.nodes@.contains_key(h));
            assert(s2.nodes@[h].spec_path() == base@);
            assert(digest_of(base@) == h);
        }
        Ok(())
    }

    /// What a successful directory update establishes, relative to the
    /// state before the call.
    pub open spec fn updated_dir(old_m: JManager, new_m: JManager, fs: Fs, base: Seq<u8>) -> bool {
        // every visible snapshot entry under the target is indexed
        &&& forall|q: Seq<u8>|
            #![trigger fs@.contains_key(q)]
            fs@.contains_key(q) && under(base, q) && visible_spec(base, q)
                ==> new_m.nodes@.contains_key(digest_of(q)) && new_m.nodes@[digest_of(
                q,
            )].spec_path() == q
        // every indexed strict descendant is backed by a visible snapshot
        // entry of the same kind
        &&& forall|k: u64|
            #![trigger new_m.nodes@.contains_key(k)]
            new_m.nodes@.contains_key(k) && under(base, new_m.nodes@[k].spec_path()) ==> {
                let q = new_m.nodes@[k].spec_path();
                &&& fs@.contains_key(q)
                &&& fs@[q].is_dir == new_m.nodes@[k].spec_is_dir()
                &&& visible_spec(base, q)
            }
        // every subtree directory has freshly recomputed aggregates
        &&& forall|k: u64|
            #![trigger new_m.nodes@[k]]
            new_m.nodes@.contains_key(k) && under_eq(base, new_m.nodes@[k].spec_path())
                && new_m.nodes@[k].spec_is_dir() ==> dir_settled(fs, new_m, base, k)
        // every subtree file carries the snapshot's metadata
        &&& forall|k: u64|
            #![trigger new_m.nodes@[k]]
            new_m.nodes@.contains_key(k) && under(base, new_m.nodes@[k].spec_path())
                && !new_m.nodes@[k].spec_is_dir() ==> new_m.nodes@[k].spec_size() == fs@[new_m.nodes@[k].spec_path()].size
                && new_m.nodes@[k].spec_lwt() == fs@[new_m.nodes@[k].spec_path()].mtime
        // the target itself is still present, and is still the directory
        // the snapshot reports, so the settled-directory clause above pins
        // its own aggregates, dirty flag and mtime as well
        &&& new_m.nodes@.contains_key(digest_of(base))
        &&& new_m.nodes@[digest_of(base)].spec_path() == base
        &&& new_m.nodes@[digest_of(base)].spec_is_dir()
        &&& fs@.contains_key(base)
        &&& fs@[base].is_dir
        // nothing was created outside the subtree
        &&& forall|k: u64|
            #![trigger new_m.nodes@.contains_key(k)]
            new_m.nodes@.contains_key(k) && !old_m.nodes@.contains_key(k) ==> under(
                base,
                new_m.nodes@[k].spec_path(),
            )
        // nodes outside the subtree survive, with at most dirty raised, and
        // non-ancestors are untouched
        &&& forall|k: u64|
            #![trigger old_m.nodes@.contains_key(k)]
            old_m.nodes@.contains_key(k) && !under_eq(base, old_m.nodes@[k].spec_path())
                ==> new_m.nodes@.contains_key(k) && node_eqv_mod_dirty(
                old_m.nodes@[k],
                new_m.nodes@[k],
            ) && (!under(old_m.nodes@[k].spec_path(), base) ==> new_m.nodes@[k] == old_m.nodes@[k])
        // ancestors are marked dirty
        &&& forall|k: u64|
            #![trigger new_m.nodes@[k]]
            old_m.nodes@.contains_key(k) && under(old_m.nodes@[k].spec_path(), base)
                && old_m.nodes@[k].spec_is_dir() ==> new_m.nodes@[k].spec_dirty()
    }

    /// Reconciles the subtree rooted at the handle with the snapshot and
    /// recomputes aggregates: a file handle is refreshed in place; for a
    /// directory, vanished descendants are pruned, new ones adopted, files
    /// refreshed, aggregates recomputed bottom-up, and the ancestor chain
    /// marked dirty.
    #[verifier::rlimit(100)]
    pub fn update_node(&mut self, node_h: &u64, fs: &Fs) -> (r: Result<(), JError>)
        requires
            old(self).wf(),
            fs.wf(),
        ensures
            final (self).wf(),
            !old(self).nodes@.contains_key(*node_h) ==> (r matches Err(e) && e
                matches JError::NotExistingNode(x) && x == *node_h) && final (self).nodes == old(
                self,
            ).nodes && final (self).chash == old(self).chash && final (self).phash == old(
                self,
            ).phash,
            old(self).nodes@.contains_key(*node_h) && !old(self).nodes@[*node_h].spec_is_dir()
                ==> match r {
                Ok(_) => {
                    let base = old(self).path_of(*node_h);
                    &&& fs@.contains_key(base)
                    &&& final (self).nodes@.contains_key(*node_h)
                    &&& final (self).nodes@[*node_h].spec_path() == base
                    &&& !final (self).nodes@[*node_h].spec_is_dir()
                    &&& final (self).nodes@[*node_h].spec_size() == fs@[base].size
                    &&& final (self).nodes@[*node_h].spec_lwt() == fs@[base].mtime
                    &&& forall|k: u64|
                        #![trigger final (self).nodes@[k]]
                        k != *node_h && old(self).nodes@.contains_key(k) ==> final (self).nodes@[k]
                            == old(self).nodes@[k]
                    &&& final (self).nodes@.dom() == old(self).nodes@.dom()
                    &&& final (self).chash == old(self).chash
                    &&& final (self).phash == old(self).phash
                },
                Err(e) => e matches JError::NotExistingPath(_) && !fs@.contains_key(
                    old(self).path_of(*node_h),
                ) && final (self).nodes == old(self).nodes && final (self).chash == old(
                    self,
                ).chash && final (self).phash == old(self).phash,
            },
            old(self).nodes@.contains_key(*node_h) && old(self).nodes@[*node_h].spec_is_dir()
                ==> match r {
                Ok(_) => Self::updated_dir(*old(self), *final (self), *fs, old(self).path_of(*node_h)),
                Err(e) => {
                    &&& (e matches JError::NotExistingPath(_) ==> !fs@.contains_key(
                        old(self).path_of(*node_h),
                    ) && final (self).nodes == old(self).nodes && final (self).chash == old(
                        self,
                    ).chash && final (self).phash == old(self).phash)
                    &&& (e matches JError::NotDirectory(_) ==> fs@.contains_key(
                        old(self).path_of(*node_h),
                    ) && !fs@[old(self).path_of(*node_h)].is_dir && final (self).nodes == old(
                        self,
                    ).nodes && final (self).chash == old(self).chash && final (self).phash == old(
                        self,
                    ).phash)
                    &&& (e matches JError::NotExistingPath(_) || e matches JError::NotDirectory(_)
                        || e matches JError::NotExistingNode(_))
                },
            },
            old(self).nodes@.contains_key(*node_h) && fs@.contains_key(old(self).path_of(*node_h))
                && (old(self).nodes@[*node_h].spec_is_dir() ==> fs@[old(self).path_of(
                *node_h,
            )].is_dir && Self::digest_inj(old(self).nodes@, *fs)) ==> r is Ok,
            // a duplicate-digest report happens only for an unknown handle
            // or an actual collision
            (r matches Err(e) && e matches JError::NotExistingNode(_)) ==> !old(
                self,
            ).nodes@.contains_key(*node_h) || !Self::digest_inj(old(self).nodes@, *fs),
    {
        let h = *node_h;
        let info = match self.nodes.get(h) {
            Some(n) => Some((n.is_dir(), dup_bytes(n.path()))),
            None => None,
        };
        let (isdir, base) = match info {
            Some(x) => x,
            None => {
                return Err(JError::NotExistingNode(h));
            },
        };
        let meta = match fs.lookup(&base) {
            Some(m) => m,
            None => {
                return Err(JError::NotExistingPath(base));
            },
        };
        if !isdir {
            let nd2 = match self.nodes.get(h) {
                Some(n) => n.dup(),
                None => {
                    proof {
                        assert(false);
                    }
                    return Err(JError::NotExistingNode(h));
                },
            };
            let mut nd3 = nd2;
            nd3.set(Some(meta.size), Some(meta.mtime), None, None, None);
            self.nodes.insert(h, nd3);
            proof {
                assert(self.nodes@.dom() =~= old(self).nodes@.dom());
            }
            return Ok(());
        }
        if !meta.is_dir {
            return Err(JError::NotDirectory(base));
        }
        let ghost s0 = *self;
        proof {
            assert(is_canon_path(base@));
        }
        self.prune_stale(&base, fs);
        let ghost s1 = *self;
        let pop = self.populate(&base, fs);
        let ghost s2 = *self;
        proof {
            if Self::digest_inj(s0.nodes@, *fs) {
                assert(Self::digest_inj(s1.nodes@, *fs)) by {
                    assert forall|q: Seq<u8>|
                        #![trigger fs@.contains_key(q)]
                        fs@.contains_key(q) && s1.nodes@.contains_key(digest_of(q)) implies
                    s1.nodes@[digest_of(q)].spec_path() == q by {
                        assert(s0.nodes@.contains_key(digest_of(q)));
                        assert(s1.nodes@[digest_of(q)].spec_path() == s0.path_of(digest_of(q)));
                    }
                }
            }
        }
        match pop {
            Ok(_) => {},
            Err(e) => {
                proof {
                    if Self::digest_inj(s0.nodes@, *fs) {
                        assert(false);
                    }
                }
                return Err(e);
            },
        }
        proof {
            assert forall|k: u64|
                #![trigger self.nodes@.contains_key(k)]
                self.nodes@.contains_key(k) && under(base@, self.path_of(k)) implies
            fs@.contains_key(self.path_of(k)) by {
                if s1.nodes@.contains_key(k) {
                    assert(self.path_of(k) == s1.path_of(k));
                }
            }
        }
        self.refresh_files(&base, fs);
        let ghost s3 = *self;
        proof {
            assert forall|k: u64|
                #![trigger self.nodes@.contains_key(k)]
                self.nodes@.contains_key(k) && under(base@, self.path_of(k)) implies
            fs@.contains_key(self.path_of(k)) by {
                assert(s2.nodes@.contains_key(k));
                assert(self.path_of(k) == s2.path_of(k));
            }
        }
        self.aggregate_subtree(&base, fs);
        let ghost s4 = *self;
        let ph = match self.phash.get(h) {
            Some(p) => *p,
            None => {
                proof {
                    assert(false);
                }
                return Err(JError::NotExistingNode(h));
            },
        };
        proof {
            assert(self.nodes@.contains_key(h)) by {
                assert(s1.nodes@.contains_key(h));
                assert(s2.nodes@.contains_key(h));
            }
            if ph != ROOT_PARENT {
                assert(self.nodes@.contains_key(ph));
            }
        }
        self.mark_dirty_chain(ph);
        proof {
            let s5 = *self;
            let pb = (if is_root_path(base@) {
                seq![SEP]
            } else {
                parent_path(base@)
            });
            if ph != ROOT_PARENT {
                assert(!is_root_path(base@));
                assert(s4.path_of(ph) == parent_path(base@));
                lemma_under_parent(base@);
            }
            // paths and kinds are stable from the populated state onward
            assert forall|k: u64|
                #![trigger s2.nodes@.contains_key(k)]
                s2.nodes@.contains_key(k) implies s5.nodes@.contains_key(k) && s5.path_of(k)
                == s2.path_of(k) && s5.nodes@[k].spec_is_dir() == s2.nodes@[k].spec_is_dir() by {
                assert(s3.nodes@.contains_key(k));
                assert(s4.nodes@.contains_key(k));
                assert(node_eqv_mod_dirty(s4.nodes@[k], s5.nodes@[k]));
            }
            // a subtree node is untouched by the final ancestor marking
            assert forall|k: u64|
                #![trigger s4.nodes@.contains_key(k)]
                s4.nodes@.contains_key(k) && under_eq(base@, s4.path_of(k)) implies s5.nodes@[k]
                == s4.nodes@[k] by {
                if ph != ROOT_PARENT {
                    if under_eq(s4.path_of(k), parent_path(base@)) {
                        lemma_parent_canon(base@);
                        assert(s4.path_of(k).len() <= parent_path(base@).len() < base@.len()
                            <= s4.path_of(k).len());
                    }
                }
            }
            // C1: visible snapshot entries are indexed
            assert forall|q: Seq<u8>|
                #![trigger fs@.contains_key(q)]
                fs@.contains_key(q) && under(base@, q) && visible_spec(base@, q) implies
            s5.nodes@.contains_key(digest_of(q)) && s5.nodes@[digest_of(q)].spec_path() == q by {
                assert(s2.nodes@.contains_key(digest_of(q)));
                assert(s2.nodes@[digest_of(q)].spec_path() == q);
            }
            // C2: indexed strict descendants are visible and kind-true
            assert forall|k: u64|
                #![trigger s5.nodes@.contains_key(k)]
                s5.nodes@.contains_key(k) && under(base@, s5.nodes@[k].spec_path()) implies {
                let q = s5.nodes@[k].spec_path();
                &&& fs@.contains_key(q)
                &&& fs@[q].is_dir == s5.nodes@[k].spec_is_dir()
                &&& visible_spec(base@, q)
            } by {
                assert(s4.nodes@.contains_key(k));
                assert(s3.nodes@.contains_key(k));
                assert(s2.nodes@.contains_key(k));
                let q = s2.path_of(k);
                assert(s5.nodes@[k].spec_path() == q);
                if s1.nodes@.contains_key(k) {
                    assert(q == s1.path_of(k));
                    assert(s1.good_under(base@, k, *fs));
                    assert(s2.nodes@[k].spec_is_dir() == s1.nodes@[k].spec_is_dir());
                } else {
                    assert(fs@.contains_key(q));
                    assert(is_fresh_node(s2.nodes@[k], q, fs@[q]));
                }
            }
            // C3: subtree directories are settled
            assert forall|k: u64|
                #![trigger s5.nodes@[k]]
                s5.nodes@.contains_key(k) && under_eq(base@, s5.nodes@[k].spec_path())
                    && s5.nodes@[k].spec_is_dir() implies dir_settled(*fs, s5, base@, k) by {
                assert(s4.nodes@.contains_key(k));
                assert(s3.nodes@.contains_key(k));
                assert(s4.path_of(k) == s5.nodes@[k].spec_path());
                assert(s3.path_of(k) == s4.path_of(k));
                assert(s3.nodes@[k].spec_is_dir());
                assert(dir_settled(*fs, s4, base@, k));
                assert(s5.nodes@[k] == s4.nodes@[k]);
                let cs = s4.children_seq(k);
                assert(s5.children_seq(k) == cs);
                assert forall|j: int|
                    0 <= j < cs.len() implies s4.nodes@.contains_key(#[trigger] cs[j])
                    == s5.nodes@.contains_key(cs[j]) && (s4.nodes@.contains_key(cs[j])
                    ==> s4.nodes@[cs[j]] == s5.nodes@[cs[j]]) by {
                    lemma_child_longer(s4, k, cs[j]);
                    assert(under_eq(base@, s4.path_of(cs[j]))) by {
                        lemma_under_parent(s4.path_of(cs[j]));
                        lemma_under_eq_trans(
                            base@,
                            s4.path_of(k),
                            s4.path_of(cs[j]),
                        );
                    }
                }
                lemma_sum_agree(s4.nodes@, s5.nodes@, cs);
            }
            // C4: subtree files carry the snapshot metadata
            assert forall|k: u64|
                #![trigger s5.nodes@[k]]
                s5.nodes@.contains_key(k) && under(base@, s5.nodes@[k].spec_path())
                    && !s5.nodes@[k].spec_is_dir() implies s5.nodes@[k].spec_size()
                == fs@[s5.nodes@[k].spec_path()].size && s5.nodes@[k].spec_lwt()
                == fs@[s5.nodes@[k].spec_path()].mtime by {
                assert(s4.nodes@.contains_key(k));
                assert(s3.nodes@.contains_key(k));
                assert(s2.nodes@.contains_key(k));
                let q = s2.path_of(k);
                assert(s5.nodes@[k].spec_path() == q);
                assert(!s2.nodes@[k].spec_is_dir());
                assert(fs@.contains_key(q)) by {
                    if s1.nodes@.contains_key(k) {
                        assert(s1.good_under(base@, k, *fs));
                    }
                }
                assert(s3.nodes@[k].spec_size() == fs@[q].size && s3.nodes@[k].spec_lwt()
                    == fs@[q].mtime);
                assert(s4.nodes@[k] == s3.nodes@[k]) by {
                    assert(!(under_eq(base@, s3.path_of(k)) && s3.nodes@[k].spec_is_dir()));
                }
                assert(s5.nodes@[k] == s4.nodes@[k]);
            }
            // new nodes lie strictly under the target
            assert forall|k: u64|
                #![trigger s5.nodes@.contains_key(k)]
                s5.nodes@.contains_key(k) && !s0.nodes@.contains_key(k) implies under(
                base@,
                s5.nodes@[k].spec_path(),
            ) by {
                assert(s2.nodes@.contains_key(k));
                assert(!s1.nodes@.contains_key(k));
                assert(digest_of(base@) == h);
                assert(s1.nodes@.contains_key(h) && s1.path_of(h) == base@);
                assert(under(base@, s2.path_of(k)));
                assert(s5.nodes@[k].spec_path() == s2.path_of(k));
            }
            // C5: the target survives, still a directory
            assert(s1.nodes@.contains_key(h));
            assert(node_eqv_mod_dirty(s0.nodes@[h], s1.nodes@[h]));
            assert(s2.nodes@.contains_key(h));
            assert(node_eqv_mod_dirty(s1.nodes@[h], s2.nodes@[h]));
            assert(s2.nodes@[h].spec_is_dir());
            assert(s5.nodes@.contains_key(h) && s5.nodes@[h].spec_path() == base@);
            assert(s5.nodes@[h].spec_is_dir());
            assert(digest_of(base@) == h);
            // C6: nodes outside the subtree
            assert forall|k: u64|
                #![trigger s0.nodes@.contains_key(k)]
                s0.nodes@.contains_key(k) && !under_eq(base@, s0.nodes@[k].spec_path()) implies
            s5.nodes@.contains_key(k) && node_eqv_mod_dirty(s0.nodes@[k], s5.nodes@[k]) && (!under(
                s0.nodes@[k].spec_path(),
                base@,
            ) ==> s5.nodes@[k] == s0.nodes@[k]) by {
                let q = s0.path_of(k);
                assert(s1.nodes@.contains_key(k));
                assert(node_eqv_mod_dirty(s0.nodes@[k], s1.nodes@[k]));
                assert(s2.nodes@.contains_key(k));
                assert(node_eqv_mod_dirty(s1.nodes@[k], s2.nodes@[k]));
                assert(s1.path_of(k) == q && s2.path_of(k) == q);
                assert(s3.nodes@[k] == s2.nodes@[k]) by {
                    assert(!(under(base@, s2.path_of(k)) && !s2.nodes@[k].spec_is_dir()));
                }
                assert(s4.nodes@[k] == s3.nodes@[k]) by {
                    assert(!(under_eq(base@, s3.path_of(k)) && s3.nodes@[k].spec_is_dir()));
                }
                assert(node_eqv_mod_dirty(s4.nodes@[k], s5.nodes@[k]));
                if !under(q, base@) {
                    assert(s1.nodes@[k] == s0.nodes@[k]);
                    assert(s2.nodes@[k] == s1.nodes@[k]);
                    assert(s5.nodes@[k] == s4.nodes@[k]) by {
                        if ph != ROOT_PARENT {
                            if under_eq(s4.path_of(k), parent_path(base@)) {
                                crate::paths::lemma_under_eq_then_under(s4.path_of(k), parent_path(base@), base@);
                                assert(false);
                            }
                        }
                    }
                }
            }
            // C7: ancestors are dirty
            assert forall|k: u64|
                #![trigger s5.nodes@[k]]
                s0.nodes@.contains_key(k) && under(s0.nodes@[k].spec_path(), base@)
                    && s0.nodes@[k].spec_is_dir() implies s5.nodes@[k].spec_dirty() by {
                let q = s0.path_of(k);
                assert(!under_eq(base@, q));
                assert(s1.nodes@.contains_key(k) && s1.path_of(k) == q);
                assert(s2.nodes@.contains_key(k) && s2.path_of(k) == q);
                assert(s4.nodes@.contains_key(k) && s4.path_of(k) == q);
                assert(s4.nodes@[k].spec_is_dir());
                if is_root_path(base@) {
                    assert(q.len() < 1);
                    assert(false);
                } else {
                    assert(ph != ROOT_PARENT) by {
                        assert(s4.phash@[h] == JManager::expected_parent(base@));
                        assert(s4.nodes@.contains_key(digest_of(parent_path(base@))));
                    }
                    lemma_longest_prefix(q, base@);
                    assert(under_eq(q, parent_path(base@)));
                }
            }
        }
        Ok(())
    }

    /// Canonicalizes a caller-supplied path and ensures a node for it,
    /// creating it (and its ancestry) on demand.  Idempotent.
    pub fn locate_node(&mut self, path: &str, fs: &Fs) -> (r: Result<u64, JError>)
        requires
            old(self).wf(),
            fs.wf(),
        ensures
            final (self).wf(),
            Self::preserves_nodes(old(self).nodes@, final (self).nodes@),
            match r {
                Ok(h) => {
                    let np = normalize_spec(path.spec_bytes());
                    &&& np is Some
                    &&& h == digest_of(np.unwrap())
                    &&& h != ROOT_PARENT
                    &&& fs@.contains_key(np.unwrap())
                    &&& final (self).nodes@.contains_key(h)
                    &&& final (self).nodes@[h].spec_path() == np.unwrap()
                    &&& Self::grows_fresh_under(
                        old(self).nodes@,
                        final (self).nodes@,
                        *fs,
                        np.unwrap(),
                    )
                    &&& (old(self).nodes@.contains_key(h) && old(self).nodes@[h].spec_path()
                        == np.unwrap() ==> final (self).nodes == old(self).nodes && final (
                    self).chash == old(self).chash && final (self).phash == old(self).phash)
                },
                Err(e) => {
                    &&& (e matches JError::NotExistingPath(_) ==> (normalize_spec(
                        path.spec_bytes(),
                    ) is None || !fs@.contains_key(normalize_spec(path.spec_bytes()).unwrap()))
                        && final (self).nodes == old(self).nodes && final (self).chash == old(
                        self,
                    ).chash && final (self).phash == old(self).phash)
                    &&& (e matches JError::NotExistingPath(_) || e
                        matches JError::NotExistingNode(_))
                },
            },
            normalize_spec(path.spec_bytes()) is Some && fs@.contains_key(
                normalize_spec(path.spec_bytes()).unwrap(),
            ) && Self::digest_inj(old(self).nodes@, *fs) ==> r is Ok,
            // the dirty protocol: materializing a missing node marks the
            // ancestor chain
            r is Ok && normalize_spec(path.spec_bytes()) is Some && !old(
                self,
            ).nodes@.contains_key(digest_of(normalize_spec(path.spec_bytes()).unwrap()))
                ==> forall|k: u64|
                #![trigger final (self).nodes@[k]]
                old(self).nodes@.contains_key(k) && under(
                    old(self).path_of(k),
                    normalize_spec(path.spec_bytes()).unwrap(),
                ) && old(self).nodes@[k].spec_is_dir() ==> final (self).nodes@[k].spec_dirty(),
    {
        let raw = bytes_of(path);
        match normalize(&raw) {
            Some(pv) => self.locate_canon(&pv, fs),
            None => Err(JError::NotExistingPath(raw)),
        }
    }

    /// Removes the node and every descendant, removes it from its parent's
    /// child set, and marks the former parent chain dirty.  A handle that is
    /// not in the index is a no-op reported as success.
    #[verifier::rlimit(100)]
    pub fn delete_node(&mut self, node_h: &u64) -> (r: Result<(), JError>)
        requires
            old(self).wf(),
        ensures
            final (self).wf(),
            r is Ok,
            !old(self).nodes@.contains_key(*node_h) ==> final (self).nodes == old(self).nodes
                && final (self).chash == old(self).chash && final (self).phash == old(self).phash,
            forall|k: u64|
                #![trigger final (self).nodes@.contains_key(k)]
                final (self).nodes@.contains_key(k) ==> old(self).nodes@.contains_key(k)
                    && node_eqv_mod_dirty(old(self).nodes@[k], final (self).nodes@[k]),
            old(self).nodes@.contains_key(*node_h) ==> {
                let base = old(self).path_of(*node_h);
                &&& forall|k: u64|
                    #![trigger old(self).nodes@.contains_key(k)]
                    old(self).nodes@.contains_key(k) ==> (final (self).nodes@.contains_key(k)
                        <==> !under_eq(base, old(self).path_of(k)))
                &&& forall|k: u64|
                    #![trigger final (self).nodes@[k]]
                    old(self).nodes@.contains_key(k) && !under_eq(base, old(self).path_of(k))
                        && !under(old(self).path_of(k), base) ==> final (self).nodes@[k] == old(
                        self,
                    ).nodes@[k]
                &&& forall|k: u64|
                    #![trigger final (self).nodes@[k]]
                    old(self).nodes@.contains_key(k) && under(old(self).path_of(k), base) && old(
                        self,
                    ).nodes@[k].spec_is_dir() ==> final (self).nodes@[k].spec_dirty()
            },
    {
        let h = *node_h;
        if !self.nodes.contains_key(h) {
            return Ok(());
        }
        let base = match self.nodes.get(h) {
            Some(n) => dup_bytes(n.path()),
            None => {
                proof {
                    assert(false);
                }
                return Ok(());
            },
        };
        let ph = match self.phash.get(h) {
            Some(p) => *p,
            None => {
                proof {
                    assert(false);
                }
                return Ok(());
            },
        };
        let ghost pre = *self;
        // Collect the handle of every node whose path lies at or under the
        // target's path: by the invariant these are exactly the nodes the
        // cascade must remove.
        let mut doomed: Vec<u64> = Vec::new();
        let mut i: usize = 0;
        while i < self.nodes.entries.len()
            invariant
                *self == pre,
                pre.wf(),
                is_canon_path(base@),
                0 <= i <= self.nodes.entries@.len(),
                forall|j: int|
                    0 <= j < doomed@.len() ==> pre.nodes@.contains_key(#[trigger] doomed@[j])
                        && under_eq(base@, pre.path_of(doomed@[j])),
                forall|j: int|
                    0 <= j < doomed@.len() ==> exists|x: int|
                        0 <= x < i && (#[trigger] self.nodes.entries@[x]).0 == #[trigger] doomed@[j],
                no_dups(doomed@),
                forall|j: int|
                    0 <= j < i && under_eq(
                        base@,
                        (#[trigger] self.nodes.entries@[j]).1.spec_path(),
                    ) ==> doomed@.contains(self.nodes.entries@[j].0),
            decreases self.nodes.entries@.len() - i,
        {
            let key = self.nodes.entries[i].0;
            let keep = {
                let nd = &self.nodes.entries[i].1;
                bytes_eq(nd.path().as_slice(), base.as_slice()) || is_under(&base, nd.path())
            };
            proof {
                lemma_map_of_index(self.nodes.entries@, i as int);
            }
            if keep {
                let ghost db = doomed@;
                proof {
                    assert(!db.contains(key)) by {
                        if db.contains(key) {
                            let j = choose|j: int| 0 <= j < db.len() && db[j] == key;
                            let x = choose|x: int|
                                0 <= x < i && (#[trigger] self.nodes.entries@[x]).0 == db[j];
                            assert(self.nodes.entries@[x].0 == self.nodes.entries@[i as int].0);
                        }
                    }
                }
                doomed.push(key);
                proof {
                    assert(forall|j: int| 0 <= j < db.len() ==> #[trigger] doomed@[j] == db[j]);
                    assert(doomed@[db.len() as int] == key);
                    assert(no_dups(doomed@)) by {
                        assert(forall|a: int, b: int|
                            0 <= a < b < doomed@.len() && b < doomed@.len() - 1 ==> doomed@[a]
                                != doomed@[b]);
                        assert(forall|a: int|
                            0 <= a < doomed@.len() - 1 ==> doomed@[a] == db[a] && db.contains(
                                db[a],
                            ));
                        assert(forall|a: int|
                            0 <= a < doomed@.len() - 1 ==> doomed@[a] != key);
                    }
                    assert(pre.nodes@[key].spec_path() == self.nodes.entries@[i as int].1.spec_path());
                    assert forall|j: int|
                        0 <= j < i + 1 && under_eq(
                            base@,
                            (#[trigger] self.nodes.entries@[j]).1.spec_path(),
                        ) implies doomed@.contains(self.nodes.entries@[j].0) by {
                        if j < i {
                            assert(db.contains(self.nodes.entries@[j].0));
                            let x = choose|x: int|
                                0 <= x < db.len() && db[x] == self.nodes.entries@[j].0;
                            assert(doomed@[x] == self.nodes.entries@[j].0);
                        } else {
                            assert(doomed@[db.len() as int] == key);
                        }
                    }
                }
            }
            i = i + 1;
        }
        proof {
            assert forall|k: u64|
                pre.nodes@.contains_key(k) && under_eq(base@, pre.path_of(k)) implies
            doomed@.contains(k) by {
                lemma_map_of_contains(pre.nodes.entries@, k);
                let j = choose|j: int|
                    0 <= j < pre.nodes.entries@.len() && (#[trigger] pre.nodes.entries@[j]).0
                        == k;
                lemma_map_of_index(pre.nodes.entries@, j);
            }
            assert(doomed@.contains(h)) by {
                assert(under_eq(base@, pre.path_of(h)));
            }
        }
        self.unlink_child(ph, h);
        let ghost unlinked = *self;
        let mut i2: usize = 0;
        while i2 < doomed.len()
            invariant
                0 <= i2 <= doomed@.len(),
                pre.wf(),
                is_canon_path(base@),
                self.nodes.wf(),
                self.chash.wf(),
                self.phash.wf(),
                unlinked.nodes == pre.nodes,
                unlinked.phash == pre.phash,
                forall|j: int|
                    0 <= j < doomed@.len() ==> pre.nodes@.contains_key(#[trigger] doomed@[j])
                        && under_eq(base@, pre.path_of(doomed@[j])),
                forall|k: u64|
                    pre.nodes@.contains_key(k) && under_eq(base@, pre.path_of(k))
                        ==> doomed@.contains(k),
                doomed@.contains(h),
                forall|k: u64|
                    #![trigger self.nodes@.contains_key(k)]
                    self.nodes@.contains_key(k) <==> (pre.nodes@.contains_key(k)
                        && !doomed@.take(i2 as int).contains(k)),
                forall|k: u64|
                    #![trigger self.nodes@[k]]
                    self.nodes@.contains_key(k) ==> self.nodes@[k] == pre.nodes@[k],
                forall|k: u64|
                    #![trigger self.phash@.contains_key(k)]
                    self.phash@.contains_key(k) <==> (pre.phash@.contains_key(k)
                        && !doomed@.take(i2 as int).contains(k)),
                forall|k: u64|
                    #![trigger self.phash@[k]]
                    self.phash@.contains_key(k) ==> self.phash@[k] == pre.phash@[k],
                forall|q: u64|
                    #![trigger self.chash@.contains_key(q)]
                    self.chash@.contains_key(q) <==> (unlinked.chash@.contains_key(q)
                        && !doomed@.take(i2 as int).contains(q)),
                forall|q: u64|
                    #![trigger self.chash@[q]]
                    self.chash@.contains_key(q) ==> self.chash@[q] == unlinked.chash@[q],
            decreases doomed@.len() - i2,
        {
            let k = doomed[i2];
            self.nodes.remove(k);
            self.phash.remove(k);
            self.chash.remove(k);
            proof {
                assert(doomed@.take(i2 as int + 1).drop_last() =~= doomed@.take(i2 as int));
                assert(doomed@.take(i2 as int + 1).last() == doomed@[i2 as int]);
                assert forall|x: u64|
                    #[trigger] doomed@.take(i2 as int + 1).contains(x) implies (doomed@.take(
                    i2 as int,
                ).contains(x) || x == k) by {
                    let j = choose|j: int|
                        0 <= j < i2 + 1 && #[trigger] doomed@.take(i2 as int + 1)[j] == x;
                    if j < i2 {
                        assert(doomed@.take(i2 as int)[j] == x);
                    }
                }
                assert forall|x: u64|
                    doomed@.take(i2 as int).contains(x) || x == k implies #[trigger] doomed@.take(
                    i2 as int + 1,
                ).contains(x) by {
                    if doomed@.take(i2 as int).contains(x) {
                        let j = choose|j: int| 0 <= j < i2 && doomed@.take(i2 as int)[j] == x;
                        assert(doomed@.take(i2 as int + 1)[j] == x);
                    } else {
                        assert(doomed@.take(i2 as int + 1)[i2 as int] == x);
                    }
                }
            }
            i2 = i2 + 1;
        }
        proof {
            assert(doomed@.take(doomed@.len() as int) =~= doomed@);
            lemma_delete_wf(pre, unlinked, *self, base@, h, ph, doomed@);
        }
        self.mark_dirty_chain(ph);
        proof {
            if ph != ROOT_PARENT {
                assert(pre.nodes@.contains_key(ph));
                assert(pre.path_of(ph) == parent_path(base@));
                assert forall|k: u64|
                    #![trigger final (self).nodes@[k]]
                    pre.nodes@.contains_key(k) && !under_eq(base@, pre.path_of(k)) && !under(
                        pre.path_of(k),
                        base@,
                    ) implies self.nodes@[k] == pre.nodes@[k] by {
                    let kp = pre.path_of(k);
                    if under_eq(kp, parent_path(base@)) {
                        lemma_under_parent(base@);
                        lemma_under_eq_trans(kp, parent_path(base@), base@);
                        assert(under_eq(kp, base@));
                        assert(false);
                    }
                }
                assert forall|k: u64|
                    #![trigger final (self).nodes@[k]]
                    pre.nodes@.contains_key(k) && under(pre.path_of(k), base@)
                        && pre.nodes@[k].spec_is_dir() implies self.nodes@[k].spec_dirty() by {
                    let kp = pre.path_of(k);
                    lemma_longest_prefix(kp, base@);
                    assert(under_eq(kp, parent_path(base@)));
                }
            } else {
                assert(is_root_path(base@));
                assert forall|k: u64|
                    pre.nodes@.contains_key(k) && under(pre.path_of(k), base@) implies false by {
                    assert(pre.path_of(k).len() < 1);
                }
            }
        }
        Ok(())
    }

    /// Copies of the children nodes, each with its handle.
    #[verifier::rlimit(30)]
    pub fn get_children_node(&self, node: &u64) -> (r: Vec<(JNode, u64)>)
        requires
            self.wf(),
        ensures
            r@.len() == self.children_seq(*node).len(),
            forall|i: int|
                0 <= i < r@.len() ==> {
                    let (n, h) = #[trigger] r@[i];
                    &&& h == self.children_seq(*node)[i]
                    &&& self.nodes@.contains_key(h)
                    &&& node_eqv(self.nodes@[h], n)
                },
    {
        let hs = self.get_children(node);
        let mut out: Vec<(JNode, u64)> = Vec::new();
        let mut i: usize = 0;
        while i < hs.len()
            invariant
                self.wf(),
                0 <= i <= hs@.len(),
                hs@ == self.children_seq(*node),
                out@.len() == i,
                forall|j: int|
                    0 <= j < i ==> {
                        let (n, h) = #[trigger] out@[j];
                        &&& h == hs@[j]
                        &&& self.nodes@.contains_key(h)
                        &&& node_eqv(self.nodes@[h], n)
                    },
            decreases hs@.len() - i,
        {
            let h = hs[i];
            proof {
                if self.chash@.contains_key(*node) {
                    assert(self.chash@[*node]@[i as int] == h);
                }
            }
            match self.nodes.get(h) {
                Some(n) => {
                    out.push((n.dup(), h));
                },
                None => {
                    proof {
                        assert(false);
                    }
                },
            }
            i = i + 1;
        }
        out
    }
}

/// A directory node whose aggregates have been recomputed for this
/// snapshot: dirty cleared, mtime taken from the snapshot, and totals equal
/// to the raw walk (for ignored names) or to the sums over its direct
/// children as stored in the index.
pub open spec fn dir_settled(fs: Fs, m: JManager, base: Seq<u8>, k: u64) -> bool {
    let pk = m.nodes@[k].spec_path();
    &&& !m.nodes@[k].spec_dirty()
    &&& fs@.contains_key(pk)
    &&& m.nodes@[k].spec_lwt() == fs@[pk].mtime
    &&& (if is_excluded_name(base_name(pk)) {
        &&& m.nodes@[k].spec_size() == clip_u64(raw_size(fs.entries@, pk))
        &&& m.nodes@[k].spec_count_file() == Some(clip_u64(raw_files(fs.entries@, pk)))
        &&& m.nodes@[k].spec_count_dir() == Some(clip_u64(raw_dirs(fs.entries@, pk)))
    } else {
        &&& m.nodes@[k].spec_size() == clip_u64(sum_sizes(m.nodes@, m.children_seq(k)))
        &&& m.nodes@[k].spec_count_file() == Some(clip_u64(sum_files(m.nodes@, m.children_seq(k))))
        &&& m.nodes@[k].spec_count_dir() == Some(clip_u64(sum_dirs(m.nodes@, m.children_seq(k))))
    })
}

/// The stored sums are nonnegative.
proof fn lemma_sum_bounds(m: Map<u64, JNode>, cs: Seq<u64>)
    ensures
        sum_sizes(m, cs) >= 0,
        sum_files(m, cs) >= 0,
        sum_dirs(m, cs) >= 0,
    decreases cs.len(),
{
    if cs.len() > 0 {
        lemma_sum_bounds(m, cs.drop_last());
    }
}

/// The sums only look at the listed handles.
proof fn lemma_sum_agree(m1: Map<u64, JNode>, m2: Map<u64, JNode>, cs: Seq<u64>)
    requires
        forall|j: int|
            0 <= j < cs.len() ==> m1.contains_key(#[trigger] cs[j]) == m2.contains_key(cs[j]) && (
            m1.contains_key(cs[j]) ==> m1[cs[j]] == m2[cs[j]]),
    ensures
        sum_sizes(m1, cs) == sum_sizes(m2, cs),
        sum_files(m1, cs) == sum_files(m2, cs),
        sum_dirs(m1, cs) == sum_dirs(m2, cs),
    decreases cs.len(),
{
    if cs.len() > 0 {
        assert(forall|j: int| 0 <= j < cs.len() - 1 ==> #[trigger] cs.drop_last()[j] == cs[j]);
        lemma_sum_agree(m1, m2, cs.drop_last());
        assert(cs[cs.len() - 1] == cs.last());
    }
}

/// A recorded child is a node one level deeper: its path extends the
/// parent's path by one segment.
proof fn lemma_child_longer(m: JManager, k: u64, c: u64)
    requires
        m.wf(),
        m.nodes@.contains_key(k),
        m.children_seq(k).contains(c),
    ensures
        m.nodes@.contains_key(c),
        m.path_of(c).len() > m.path_of(k).len(),
        parent_path(m.path_of(c)) == m.path_of(k),
{
    assert(m.chash@.contains_key(k)) by {
        if !m.chash@.contains_key(k) {
            assert(m.children_seq(k) =~= Seq::<u64>::empty());
        }
    }
    let j = choose|j: int| 0 <= j < m.chash@[k]@.len() && m.chash@[k]@[j] == c;
    assert(m.nodes@.contains_key(c) && m.phash@[c] == k);
    let pc = m.path_of(c);
    if is_root_path(pc) {
        assert(m.phash@[c] == ROOT_PARENT);
        assert(false);
    }
    assert(m.phash@[c] == digest_of(parent_path(pc)));
    assert(m.nodes@.contains_key(digest_of(parent_path(pc))));
    assert(m.nodes@[k].spec_path() == parent_path(pc));
    lemma_parent_canon(pc);
}

/// The index contains every ancestor of a contained path, stored under its
/// own digest: the ancestry is materialized on creation and removed only in
/// whole subtrees.
pub proof fn lemma_ancestor_indexed(m: JManager, h: u64, a: Seq<u8>)
    requires
        m.wf(),
        m.nodes@.contains_key(h),
        is_canon_path(a),
        under(a, m.path_of(h)),
    ensures
        m.nodes@.contains_key(digest_of(a)),
        m.nodes@[digest_of(a)].spec_path() == a,
    decreases m.path_of(h).len(),
{
    let q = m.path_of(h);
    assert(!is_root_path(q)) by {
        assert(q.len() > a.len() >= 1);
    }
    let pd = digest_of(parent_path(q));
    assert(m.nodes@.contains_key(pd) && m.nodes@[pd].spec_path() == parent_path(q));
    lemma_longest_prefix(a, q);
    if a == parent_path(q) {
    } else {
        lemma_parent_canon(q);
        lemma_ancestor_indexed(m, pd, a);
    }
}

/// An ancestor (at or below `base`) of a visible path is itself visible.
proof fn lemma_visible_ancestor(base: Seq<u8>, a: Seq<u8>, q: Seq<u8>)
    requires
        visible_spec(base, q),
        under_eq(a, q),
    ensures
        visible_spec(base, a),
{
    assert forall|x: Seq<u8>|
        under_eq(base, x) && under(x, a) implies !is_excluded_name(#[trigger] base_name(x)) by {
        if a == q {
        } else {
            lemma_under_trans(x, a, q);
        }
    }
}

/// Digest injectivity survives adding nodes whose paths come from the
/// snapshot and are stored under their own digest.
proof fn lemma_digest_inj_grow(m1: Map<u64, JNode>, m2: Map<u64, JNode>, fs: Fs)
    requires
        JManager::digest_inj(m1, fs),
        forall|k: u64|
            #![trigger m2.contains_key(k)]
            m2.contains_key(k) && !m1.contains_key(k) ==> fs@.contains_key(m2[k].spec_path())
                && digest_of(m2[k].spec_path()) == k,
        forall|k: u64|
            #![trigger m1.contains_key(k)]
            m1.contains_key(k) ==> m2.contains_key(k) && m2[k].spec_path() == m1[k].spec_path(),
    ensures
        JManager::digest_inj(m2, fs),
{
    assert forall|q: Seq<u8>|
        #![trigger fs@.contains_key(q)]
        fs@.contains_key(q) && m2.contains_key(digest_of(q)) implies m2[digest_of(
        q,
    )].spec_path() == q by {
        let k = digest_of(q);
        if m1.contains_key(k) {
            assert(m1[k].spec_path() == q);
        } else {
            let p2 = m2[k].spec_path();
            assert(fs@.contains_key(p2) && digest_of(p2) == k);
        }
    }
}

/// Removing the subtree closure of a node (plus its parent-set entry)
/// re-establishes the structural invariant.
#[verifier::rlimit(100)]
proof fn lemma_delete_wf(
    pre: JManager,
    unlinked: JManager,
    post: JManager,
    base: Seq<u8>,
    h: u64,
    ph: u64,
    doomed: Seq<u64>,
)
    requires
        pre.wf(),
        is_canon_path(base),
        pre.nodes@.contains_key(h),
        pre.path_of(h) == base,
        ph == pre.phash@[h],
        forall|j: int|
            0 <= j < doomed.len() ==> pre.nodes@.contains_key(#[trigger] doomed[j]) && under_eq(
                base,
                pre.path_of(doomed[j]),
            ),
        forall|k: u64|
            pre.nodes@.contains_key(k) && under_eq(base, pre.path_of(k)) ==> doomed.contains(k),
        doomed.contains(h),
        unlinked.chash@.contains_key(ph) == pre.chash@.contains_key(ph) || unlinked.chash@.contains_key(ph),
        forall|c: u64|
            #[trigger] unlinked.children_seq(ph).contains(c) <==> (pre.children_seq(ph).contains(
                c,
            ) && c != h),
        no_dups(unlinked.children_seq(ph)),
        forall|q: u64|
            #![trigger unlinked.chash@.contains_key(q)]
            q != ph ==> unlinked.chash@.contains_key(q) == pre.chash@.contains_key(q) && (
            pre.chash@.contains_key(q) ==> unlinked.chash@[q] == pre.chash@[q]),
        post.nodes.wf(),
        post.chash.wf(),
        post.phash.wf(),
        forall|k: u64|
            #![trigger post.nodes@.contains_key(k)]
            post.nodes@.contains_key(k) <==> (pre.nodes@.contains_key(k) && !doomed.contains(k)),
        forall|k: u64|
            #![trigger post.nodes@[k]]
            post.nodes@.contains_key(k) ==> post.nodes@[k] == pre.nodes@[k],
        forall|k: u64|
            #![trigger post.phash@.contains_key(k)]
            post.phash@.contains_key(k) <==> (pre.phash@.contains_key(k) && !doomed.contains(k)),
        forall|k: u64|
            #![trigger post.phash@[k]]
            post.phash@.contains_key(k) ==> post.phash@[k] == pre.phash@[k],
        forall|q: u64|
            #![trigger post.chash@.contains_key(q)]
            post.chash@.contains_key(q) <==> (unlinked.chash@.contains_key(q) && !doomed.contains(
                q,
            )),
        forall|q: u64|
            #![trigger post.chash@[q]]
            post.chash@.contains_key(q) ==> post.chash@[q] == unlinked.chash@[q],
    ensures
        post.wf(),
        ph == ROOT_PARENT || post.nodes@.contains_key(ph),
        ph == ROOT_PARENT || post.path_of(ph) == parent_path(base),
{
    assert(!doomed.contains(ROOT_PARENT)) by {
        if doomed.contains(ROOT_PARENT) {
            let j = choose|j: int| 0 <= j < doomed.len() && doomed[j] == ROOT_PARENT;
            assert(pre.nodes@.contains_key(ROOT_PARENT));
        }
    }
    if ph != ROOT_PARENT {
        assert(!is_root_path(base));
        assert(ph == digest_of(parent_path(base)));
        assert(pre.nodes@.contains_key(ph) && pre.path_of(ph) == parent_path(base));
        assert(!doomed.contains(ph)) by {
            if doomed.contains(ph) {
                let j = choose|j: int| 0 <= j < doomed.len() && doomed[j] == ph;
                assert(under_eq(base, parent_path(base)));
                lemma_parent_canon(base);
                assert(parent_path(base).len() < base.len());
                if base == parent_path(base) {
                    assert(false);
                } else {
                    assert(under(base, parent_path(base)));
                    assert(false);
                }
            }
        }
        assert(post.nodes@.contains_key(ph));
    }
    assert forall|k: u64|
        #![trigger post.nodes@.contains_key(k)]
        post.nodes@.contains_key(k) implies {
        let q = post.nodes@[k].spec_path();
        &&& is_canon_path(q)
        &&& digest_of(q) == k
        &&& post.phash@.contains_key(k)
        &&& post.phash@[k] == JManager::expected_parent(q)
        &&& (!is_root_path(q) ==> post.nodes@.contains_key(digest_of(parent_path(q)))
            && post.nodes@[digest_of(parent_path(q))].spec_path() == parent_path(q))
        &&& post.children_seq(post.phash@[k]).contains(k)
    } by {
        assert(pre.nodes@.contains_key(k) && !doomed.contains(k));
        let q = pre.path_of(k);
        assert(post.nodes@[k] == pre.nodes@[k]);
        assert(!under_eq(base, q));
        if !is_root_path(q) {
            let pd = digest_of(parent_path(q));
            assert(pre.nodes@.contains_key(pd) && pre.nodes@[pd].spec_path() == parent_path(q));
            assert(!doomed.contains(pd)) by {
                if doomed.contains(pd) {
                    let j = choose|j: int| 0 <= j < doomed.len() && doomed[j] == pd;
                    assert(under_eq(base, parent_path(q)));
                    lemma_under_parent(q);
                    lemma_under_eq_trans(base, parent_path(q), q);
                    assert(false);
                }
            }
            assert(post.nodes@.contains_key(pd));
        }
        let pk2 = pre.phash@[k];
        assert(pre.children_seq(pk2).contains(k));
        assert(pre.chash@.contains_key(pk2)) by {
            if !pre.chash@.contains_key(pk2) {
                assert(pre.children_seq(pk2) =~= Seq::<u64>::empty());
            }
        }
        assert(!doomed.contains(pk2)) by {
            if is_root_path(q) {
                assert(pk2 == ROOT_PARENT);
            } else {
                assert(pk2 == digest_of(parent_path(q)));
            }
        }
        assert(post.chash@.contains_key(pk2)) by {
            if pk2 == ph {
            } else {
                assert(unlinked.chash@.contains_key(pk2) == pre.chash@.contains_key(pk2));
            }
        }
        assert(post.children_seq(pk2).contains(k)) by {
            assert(post.chash@[pk2] == unlinked.chash@[pk2]);
            if pk2 == ph {
                assert(k != h) by {
                    assert(!under_eq(base, q));
                }
                assert(unlinked.children_seq(ph).contains(k));
            } else {
                assert(unlinked.chash@[pk2] == pre.chash@[pk2]);
            }
        }
    }
    assert forall|p2: u64|
        #![trigger post.chash@.contains_key(p2)]
        post.chash@.contains_key(p2) implies {
        &&& (p2 == ROOT_PARENT || post.nodes@.contains_key(p2))
        &&& no_dups(post.chash@[p2]@)
        &&& forall|i: int|
            0 <= i < post.chash@[p2]@.len() ==> {
                let c = #[trigger] post.chash@[p2]@[i];
                &&& post.nodes@.contains_key(c)
                &&& post.phash@.contains_key(c)
                &&& post.phash@[c] == p2
            }
    } by {
        assert(unlinked.chash@.contains_key(p2) && !doomed.contains(p2));
        assert(post.chash@[p2] == unlinked.chash@[p2]);
        let precontains = pre.chash@.contains_key(p2);
        if p2 != ph {
            assert(precontains);
            assert(unlinked.chash@[p2] == pre.chash@[p2]);
        }
        if p2 != ROOT_PARENT {
            if p2 == ph {
                assert(post.nodes@.contains_key(p2));
            } else {
                assert(pre.nodes@.contains_key(p2));
                assert(post.nodes@.contains_key(p2));
            }
        }
        assert(no_dups(post.chash@[p2]@)) by {
            if p2 == ph {
                assert(post.chash@[p2]@ == unlinked.children_seq(ph));
            } else {
                assert(post.chash@[p2]@ == pre.chash@[p2]@);
            }
        }
        assert forall|i: int| 0 <= i < post.chash@[p2]@.len() implies {
            let c = #[trigger] post.chash@[p2]@[i];
            &&& post.nodes@.contains_key(c)
            &&& post.phash@.contains_key(c)
            &&& post.phash@[c] == p2
        } by {
            let c = post.chash@[p2]@[i];
            assert(pre.children_seq(p2).contains(c) && (p2 == ph ==> c != h)) by {
                if p2 == ph {
                    assert(unlinked.children_seq(ph)[i] == c);
                    assert(unlinked.children_seq(ph).contains(c));
                } else {
                    assert(pre.children_seq(p2)[i] == c);
                }
            }
            assert(pre.chash@.contains_key(p2)) by {
                if !pre.chash@.contains_key(p2) {
                    assert(pre.children_seq(p2) =~= Seq::<u64>::empty());
                }
            }
            let j = choose|j: int|
                0 <= j < pre.chash@[p2]@.len() && pre.chash@[p2]@[j] == c;
            assert(pre.nodes@.contains_key(c) && pre.phash@[c] == p2);
            let pc = pre.path_of(c);
            assert(!doomed.contains(c)) by {
                if doomed.contains(c) {
                    let x = choose|x: int| 0 <= x < doomed.len() && doomed[x] == c;
                    assert(under_eq(base, pc));
                    if pc == base {
                        assert(digest_of(pc) == c);
                        assert(c == h);
                        assert(pre.phash@[h] == ph);
                        assert(p2 == ph);
                        assert(false);
                    } else {
                        assert(under(base, pc));
                        assert(!is_root_path(pc)) by {
                            assert(pc.len() > base.len());
                        }
                        lemma_longest_prefix(base, pc);
                        assert(under_eq(base, parent_path(pc)));
                        assert(p2 == digest_of(parent_path(pc)));
                        assert(pre.nodes@.contains_key(p2) && pre.path_of(p2) == parent_path(
                            pc,
                        ));
                        assert(doomed.contains(p2));
                        assert(false);
                    }
                }
            }
            assert(post.nodes@.contains_key(c));
            assert(post.phash@.contains_key(c));
            assert(post.phash@[c] == p2);
        }
    }
}

/// Inserting a fresh node with its two links re-establishes the structural
/// invariant.
#[verifier::rlimit(60)]
proof fn lemma_create_wf(pre: JManager, post: JManager, p: Seq<u8>, h: u64, ph: u64)
    requires
        pre.wf(),
        is_canon_path(p),
        digest_of(p) == h,
        h != ROOT_PARENT,
        !pre.nodes@.contains_key(h),
        post.nodes.wf(),
        post.chash.wf(),
        post.phash.wf(),
        post.nodes@ == pre.nodes@.insert(h, post.nodes@[h]),
        post.nodes@.contains_key(h),
        post.nodes@[h].spec_path() == p,
        post.phash@ == pre.phash@.insert(h, ph),
        is_root_path(p) ==> ph == ROOT_PARENT,
        !is_root_path(p) ==> ph == digest_of(parent_path(p)) && pre.nodes@.contains_key(ph)
            && pre.nodes@[ph].spec_path() == parent_path(p),
        post.chash@.contains_key(ph),
        post.children_seq(ph) == (if pre.children_seq(ph).contains(h) {
            pre.children_seq(ph)
        } else {
            pre.children_seq(ph).push(h)
        }),
        forall|q: u64|
            #![trigger post.chash@.contains_key(q)]
            q != ph ==> post.chash@.contains_key(q) == pre.chash@.contains_key(q) && (
            pre.chash@.contains_key(q) ==> post.chash@[q] == pre.chash@[q]),
    ensures
        post.wf(),
{
    assert(post.children_seq(ph).contains(h)) by {
        let oldseq = pre.children_seq(ph);
        if oldseq.contains(h) {
        } else {
            assert(post.children_seq(ph) == oldseq.push(h));
            assert(post.children_seq(ph)[oldseq.len() as int] == h);
        }
    }
    assert(!pre.children_seq(ph).contains(h)) by {
        if pre.children_seq(ph).contains(h) {
            assert(pre.chash@.contains_key(ph));
            let j = choose|j: int|
                0 <= j < pre.chash@[ph]@.len() && pre.chash@[ph]@[j] == h;
            assert(pre.nodes@.contains_key(h));
        }
    }
    assert forall|k: u64|
        #![trigger post.nodes@.contains_key(k)]
        post.nodes@.contains_key(k) implies {
        let q = post.nodes@[k].spec_path();
        &&& is_canon_path(q)
        &&& digest_of(q) == k
        &&& post.phash@.contains_key(k)
        &&& post.phash@[k] == JManager::expected_parent(q)
        &&& (!is_root_path(q) ==> post.nodes@.contains_key(digest_of(parent_path(q)))
            && post.nodes@[digest_of(parent_path(q))].spec_path() == parent_path(q))
        &&& post.children_seq(post.phash@[k]).contains(k)
    } by {
        if k == h {
            let q = post.nodes@[h].spec_path();
            assert(q == p);
            if !is_root_path(p) {
                assert(ph != h);
                assert(post.nodes@[ph] == pre.nodes@[ph]);
            }
        } else {
            assert(pre.nodes@.contains_key(k));
            assert(post.nodes@[k] == pre.nodes@[k]);
            let q = pre.nodes@[k].spec_path();
            assert(pre.phash@.contains_key(k));
            assert(post.phash@[k] == pre.phash@[k]);
            if !is_root_path(q) {
                assert(pre.nodes@.contains_key(digest_of(parent_path(q))));
                assert(digest_of(parent_path(q)) != h);
                assert(post.nodes@[digest_of(parent_path(q))] == pre.nodes@[digest_of(
                    parent_path(q),
                )]);
            }
            let pk = pre.phash@[k];
            assert(pre.children_seq(pk).contains(k));
            if pk == ph {
                let oldseq = pre.children_seq(ph);
                let j = choose|j: int| 0 <= j < oldseq.len() && oldseq[j] == k;
                assert(post.children_seq(ph)[j] == k);
            } else {
                assert(post.children_seq(pk) == pre.children_seq(pk));
            }
        }
    }
    assert forall|p2: u64|
        #![trigger post.chash@.contains_key(p2)]
        post.chash@.contains_key(p2) implies {
        &&& (p2 == ROOT_PARENT || post.nodes@.contains_key(p2))
        &&& no_dups(post.chash@[p2]@)
        &&& forall|i: int|
            0 <= i < post.chash@[p2]@.len() ==> {
                let c = #[trigger] post.chash@[p2]@[i];
                &&& post.nodes@.contains_key(c)
                &&& post.phash@.contains_key(c)
                &&& post.phash@[c] == p2
            }
    } by {
        if p2 == ph {
            let oldseq = pre.children_seq(ph);
            assert(forall|i: int|
                0 <= i < oldseq.len() ==> pre.nodes@.contains_key(#[trigger] oldseq[i])
                    && pre.phash@.contains_key(oldseq[i]) && pre.phash@[oldseq[i]] == ph);
            assert(forall|i: int| 0 <= i < oldseq.len() ==> oldseq[i] != h);
            assert(post.chash@[p2]@ == oldseq.push(h));
            assert(no_dups(oldseq.push(h))) by {
                assert(forall|i: int| 0 <= i < oldseq.len() ==> oldseq.push(h)[i] == oldseq[i]);
                assert(oldseq.push(h)[oldseq.len() as int] == h);
                assert(no_dups(oldseq)) by {
                    if pre.chash@.contains_key(ph) {
                    }
                }
            }
            assert forall|i: int| 0 <= i < post.chash@[p2]@.len() implies {
                let c = #[trigger] post.chash@[p2]@[i];
                &&& post.nodes@.contains_key(c)
                &&& post.phash@.contains_key(c)
                &&& post.phash@[c] == p2
            } by {
                let c = post.chash@[p2]@[i];
                if i < oldseq.len() {
                    assert(c == oldseq[i]);
                    assert(c != h);
                } else {
                    assert(c == h);
                }
            }
        } else {
            assert(pre.chash@.contains_key(p2));
            assert(post.chash@[p2] == pre.chash@[p2]);
            assert(forall|i: int|
                0 <= i < pre.chash@[p2]@.len() ==> pre.nodes@.contains_key(
                    #[trigger] pre.chash@[p2]@[i],
                ) && pre.phash@.contains_key(pre.chash@[p2]@[i]) && pre.phash@[pre.chash@[p2]@[i]]
                    == p2);
            assert forall|i: int| 0 <= i < post.chash@[p2]@.len() implies {
                let c = #[trigger] post.chash@[p2]@[i];
                &&& post.nodes@.contains_key(c)
                &&& post.phash@.contains_key(c)
                &&& post.phash@[c] == p2
            } by {
                let c = post.chash@[p2]@[i];
                assert(c == pre.chash@[p2]@[i]);
                assert(pre.nodes@.contains_key(c));
                assert(c != h);
            }
        }
    }
}

} // verus!
