//! The global statements the index keeps: parent/child coherence, validity
//! against the snapshot, and what a completed update guarantees.

use vstd::prelude::*;
use crate::fs::Fs;
use crate::manager::{JManager, ROOT_PARENT, dir_settled, visible_spec, is_excluded_name};
use crate::paths::{base_name, under, under_eq};

verus! {

/// For every handle in the index, the children of its recorded parent
/// contain it, and the parent link is the sentinel or another valid handle.
pub proof fn lemma_parent_child_coherence(m: JManager, h: u64)
    requires
        m.wf(),
        m.nodes@.contains_key(h),
    ensures
        m.phash@.contains_key(h),
        m.children_seq(m.phash@[h]).contains(h),
        m.phash@[h] == ROOT_PARENT || m.nodes@.contains_key(m.phash@[h]),
{
    if m.phash@[h] != ROOT_PARENT {
        let q = m.nodes@[h].spec_path();
        assert(!crate::paths::is_root_path(q));
        assert(m.nodes@.contains_key(crate::digest::digest_of(crate::paths::parent_path(q))));
    }
}

/// A file node that is valid for a snapshot caches exactly the size and
/// mtime the snapshot reports for its path.
pub proof fn lemma_valid_file_matches(m: JManager, fs: Fs, h: u64)
    requires
        m.wf(),
        m.nodes@.contains_key(h),
        !m.nodes@[h].spec_is_dir(),
        m.nodes@[h].spec_valid(fs),
    ensures
        fs@.contains_key(m.nodes@[h].spec_path()),
        m.nodes@[h].spec_size() == fs@[m.nodes@[h].spec_path()].size,
        m.nodes@[h].spec_lwt() == fs@[m.nodes@[h].spec_path()].mtime,
{
}

/// After a completed directory update, every directory of the subtree
/// carries freshly recomputed aggregates: dirty cleared, mtime from the
/// snapshot, and totals that sum its direct children as stored in the
/// index (or the raw walk, for an ignored name).  This holds recursively
/// down to the leaves.
pub proof fn lemma_update_aggregates(
    oldm: JManager,
    newm: JManager,
    fs: Fs,
    base: Seq<u8>,
    k: u64,
)
    requires
        JManager::updated_dir(oldm, newm, fs, base),
        newm.nodes@.contains_key(k),
        under_eq(base, newm.nodes@[k].spec_path()),
        newm.nodes@[k].spec_is_dir(),
    ensures
        dir_settled(fs, newm, base, k),
{
}

/// Round trip of the cache file: the text that `dump` produces for an
/// index parses back to exactly the records it was produced from.
pub proof fn lemma_dump_reloadable(m: JManager)
    ensures
        crate::codec::parse_records(
            crate::codec::encode_records(crate::serialize::rows_of(m.nodes.entries@)),
        ) == Some(crate::serialize::rows_of(m.nodes.entries@)),
{
    crate::codec::lemma_records_roundtrip(crate::serialize::rows_of(m.nodes.entries@));
}

/// Every node of the index contributes its record to the dump.
pub proof fn lemma_dump_complete(entries: Seq<(u64, crate::node::JNode)>, i: int)
    requires
        0 <= i < entries.len(),
    ensures
        crate::serialize::rows_of(entries).contains(
            crate::serialize::row_of_node(entries[i].1),
        ),
    decreases entries.len(),
{
    if i == 0 {
        crate::serialize::lemma_insert_row_contains(
            crate::serialize::row_of_node(entries[0].1),
            crate::serialize::rows_of(entries.drop_first()),
        );
    } else {
        assert(entries.drop_first()[i - 1] == entries[i]);
        lemma_dump_complete(entries.drop_first(), i - 1);
        let r = crate::serialize::row_of_node(entries[i].1);
        crate::serialize::lemma_insert_row_keeps(
            crate::serialize::row_of_node(entries[0].1),
            crate::serialize::rows_of(entries.drop_first()),
            r,
        );
    }
}

/// Persistence round trip, domain side: any state meeting `load`'s
/// contract on the text `dump` produced for `m` holds a node under the
/// handle of every node of `m` whose path survives in the snapshot, with
/// the same path.  (The attributes are overwritten verbatim from the
/// records; the end-to-end scenarios exercise them.)
pub proof fn lemma_load_restores_nodes(m: JManager, m2: JManager, fs: Fs, h: u64)
    requires
        m.wf(),
        m.nodes@.contains_key(h),
        fs@.contains_key(m.path_of(h)),
        // what load's contract gives for the parsed records of m's dump
        forall|j: int|
            #![trigger crate::serialize::rows_of(m.nodes.entries@)[j]]
            0 <= j < crate::serialize::rows_of(m.nodes.entries@).len() && fs@.contains_key(
                crate::serialize::rows_of(m.nodes.entries@)[j].0,
            ) ==> m2.nodes@.contains_key(
                crate::digest::digest_of(crate::serialize::rows_of(m.nodes.entries@)[j].0),
            ) && m2.nodes@[crate::digest::digest_of(
                crate::serialize::rows_of(m.nodes.entries@)[j].0,
            )].spec_path() == crate::serialize::rows_of(m.nodes.entries@)[j].0,
    ensures
        m2.nodes@.contains_key(h),
        m2.nodes@[h].spec_path() == m.path_of(h),
{
    crate::table::lemma_map_of_contains(m.nodes.entries@, h);
    let i = choose|i: int|
        0 <= i < m.nodes.entries@.len() && (#[trigger] m.nodes.entries@[i]).0 == h;
    crate::table::lemma_map_of_index(m.nodes.entries@, i);
    lemma_dump_complete(m.nodes.entries@, i);
    let rows = crate::serialize::rows_of(m.nodes.entries@);
    let r = crate::serialize::row_of_node(m.nodes.entries@[i].1);
    let j = choose|j: int| 0 <= j < rows.len() && rows[j] == r;
    assert(rows[j].0 == m.path_of(h));
    assert(crate::digest::digest_of(rows[j].0) == h);
}

/// Persistence round trip, attribute side: in a well-formed index whose
/// paths all survive in the snapshot with their kinds, every node's record
/// has a digest no other record shares; so any fresh index meeting `load`'s
/// contract on `m`'s dump holds, under every original handle, a node whose
/// attributes equal the original node-by-node.
pub proof fn lemma_load_restores_attributes(m: JManager, fs: Fs, h: u64)
    requires
        m.wf(),
        m.nodes@.contains_key(h),
        fs@.contains_key(m.path_of(h)),
        fs@[m.path_of(h)].is_dir == m.nodes@[h].spec_is_dir(),
    ensures
        ({
            let rows = crate::serialize::rows_of(m.nodes.entries@);
            exists|j: int|
                #![trigger rows[j]]
                0 <= j < rows.len() && rows[j] == crate::serialize::row_of_node(m.nodes@[h]) && (
                forall|j2: int|
                    0 <= j2 < rows.len() && j2 != j ==> crate::digest::digest_of(
                        (#[trigger] rows[j2]).0,
                    ) != crate::digest::digest_of(rows[j].0))
        }),
        forall|m2: JManager|
            #[trigger] crate::serialize::row_loaded(
                m2,
                fs,
                crate::serialize::row_of_node(m.nodes@[h]),
            ) ==> m2.nodes@.contains_key(h) && crate::node::node_eqv(m.nodes@[h], m2.nodes@[h]),
{
    let rows = crate::serialize::rows_of(m.nodes.entries@);
    let r = crate::serialize::row_of_node(m.nodes@[h]);
    crate::table::lemma_map_of_contains(m.nodes.entries@, h);
    let i = choose|i: int|
        0 <= i < m.nodes.entries@.len() && (#[trigger] m.nodes.entries@[i]).0 == h;
    crate::table::lemma_map_of_index(m.nodes.entries@, i);
    lemma_dump_complete(m.nodes.entries@, i);
    let j = choose|j: int| 0 <= j < rows.len() && rows[j] == r;
    assert forall|x: int|
        0 <= x < m.nodes.entries@.len() implies crate::digest::digest_of(
        (#[trigger] m.nodes.entries@[x]).1.spec_path(),
    ) == m.nodes.entries@[x].0 by {
        crate::table::lemma_map_of_index(m.nodes.entries@, x);
    }
    assert forall|j2: int|
        0 <= j2 < rows.len() && j2 != j implies crate::digest::digest_of((#[trigger] rows[j2]).0)
        != crate::digest::digest_of(rows[j].0) by {
        if crate::digest::digest_of(rows[j2].0) == crate::digest::digest_of(rows[j].0) {
            assert(rows.contains(rows[j2]));
            crate::serialize::lemma_rows_of_sound(m.nodes.entries@, rows[j2]);
            let i2 = choose|i2: int|
                0 <= i2 < m.nodes.entries@.len() && rows[j2] == crate::serialize::row_of_node(
                    (#[trigger] m.nodes.entries@[i2]).1,
                );
            crate::table::lemma_map_of_index(m.nodes.entries@, i2);
            let k2 = m.nodes.entries@[i2].0;
            assert(crate::digest::digest_of(rows[j2].0) == k2);
            assert(crate::digest::digest_of(rows[j].0) == h);
            assert(k2 == h);
            assert(i2 == i);
            assert(rows[j2] == rows[j]);
            crate::serialize::lemma_rows_of_distinct(m.nodes.entries@, j, j2);
        }
    }
    assert forall|m2: JManager|
        #[trigger] crate::serialize::row_loaded(m2, fs, r) implies m2.nodes@.contains_key(h)
        && crate::node::node_eqv(m.nodes@[h], m2.nodes@[h]) by {
        assert(crate::digest::digest_of(r.0) == h);
    }
}

/// Persistence round trip, whole-map side: a well-formed index whose paths
/// all survive in the snapshot with their kinds, dumped and loaded into a
/// fresh index, comes back with the same node map, node-by-node.  The
/// hypotheses are exactly what `load`'s contract gives for the dump's
/// records on a fresh start.
pub proof fn lemma_load_round_trip(m: JManager, m2: JManager, fs: Fs)
    requires
        m.wf(),
        m2.wf(),
        forall|h: u64|
            #![trigger m.nodes@.contains_key(h)]
            m.nodes@.contains_key(h) ==> fs@.contains_key(m.path_of(h)) && fs@[m.path_of(
                h,
            )].is_dir == m.nodes@[h].spec_is_dir(),
        // verbatim replay of every surviving record with an unshared digest
        forall|j: int|
            #![trigger crate::serialize::rows_of(m.nodes.entries@)[j]]
            0 <= j < crate::serialize::rows_of(m.nodes.entries@).len() && fs@.contains_key(
                crate::serialize::rows_of(m.nodes.entries@)[j].0,
            ) && (forall|j2: int|
                0 <= j2 < crate::serialize::rows_of(m.nodes.entries@).len() && j2 != j
                    ==> crate::digest::digest_of(
                    (#[trigger] crate::serialize::rows_of(m.nodes.entries@)[j2]).0,
                ) != crate::digest::digest_of(crate::serialize::rows_of(m.nodes.entries@)[j].0))
                ==> crate::serialize::row_loaded(
                m2,
                fs,
                crate::serialize::rows_of(m.nodes.entries@)[j],
            ),
        // nothing beyond the records and their ancestry was created
        forall|k: u64|
            #![trigger m2.nodes@.contains_key(k)]
            m2.nodes@.contains_key(k) ==> exists|j: int|
                0 <= j < crate::serialize::rows_of(m.nodes.entries@).len() && fs@.contains_key(
                    (#[trigger] crate::serialize::rows_of(m.nodes.entries@)[j]).0,
                ) && under_eq(
                    m2.nodes@[k].spec_path(),
                    crate::serialize::rows_of(m.nodes.entries@)[j].0,
                ),
    ensures
        m2.nodes@.dom() == m.nodes@.dom(),
        forall|h: u64|
            #![trigger m.nodes@[h]]
            m.nodes@.contains_key(h) ==> m2.nodes@.contains_key(h) && crate::node::node_eqv(
                m.nodes@[h],
                m2.nodes@[h],
            ),
{
    let rows = crate::serialize::rows_of(m.nodes.entries@);
    assert forall|h: u64|
        #![trigger m.nodes@[h]]
        m.nodes@.contains_key(h) implies m2.nodes@.contains_key(h) && crate::node::node_eqv(
        m.nodes@[h],
        m2.nodes@[h],
    ) by {
        lemma_load_restores_attributes(m, fs, h);
        let j = choose|j: int|
            #![trigger rows[j]]
            0 <= j < rows.len() && rows[j] == crate::serialize::row_of_node(m.nodes@[h]) && (
            forall|j2: int|
                0 <= j2 < rows.len() && j2 != j ==> crate::digest::digest_of(
                    (#[trigger] rows[j2]).0,
                ) != crate::digest::digest_of(rows[j].0));
        assert(crate::serialize::row_loaded(m2, fs, rows[j]));
    }
    assert forall|k: u64|
        #![trigger m2.nodes@.contains_key(k)]
        m2.nodes@.contains_key(k) implies m.nodes@.contains_key(k) by {
        let q = m2.nodes@[k].spec_path();
        let j = choose|j: int|
            0 <= j < rows.len() && fs@.contains_key((#[trigger] rows[j]).0) && under_eq(
                q,
                rows[j].0,
            );
        assert(rows.contains(rows[j]));
        crate::serialize::lemma_rows_of_sound(m.nodes.entries@, rows[j]);
        let i2 = choose|i2: int|
            0 <= i2 < m.nodes.entries@.len() && rows[j] == crate::serialize::row_of_node(
                (#[trigger] m.nodes.entries@[i2]).1,
            );
        crate::table::lemma_map_of_index(m.nodes.entries@, i2);
        let hp = m.nodes.entries@[i2].0;
        assert(m.nodes@.contains_key(hp));
        assert(m.path_of(hp) == rows[j].0);
        if q == rows[j].0 {
            assert(crate::digest::digest_of(q) == hp);
        } else {
            assert(under(q, rows[j].0));
            crate::manager::lemma_ancestor_indexed(m, hp, q);
        }
        assert(m.nodes@.contains_key(crate::digest::digest_of(q)));
        assert(crate::digest::digest_of(q) == k);
    }
    assert(m2.nodes@.dom() =~= m.nodes@.dom());
}

/// A single-level re-scan with every direct child already indexed and none
/// vanished adopts nothing: the scan is idempotent on the node-map domain.
/// The hypotheses are `scan_folder_once`'s contract facts (the adoption
/// bound) plus collision-freedom.
pub proof fn lemma_scan_once_idempotent(m: JManager, m2: JManager, fs: Fs, base: Seq<u8>, k: u64)
    requires
        m.wf(),
        m2.wf(),
        // every direct snapshot child of `base` was already indexed
        forall|q: Seq<u8>|
            #![trigger fs@.contains_key(q)]
            fs@.contains_key(q) && !crate::paths::is_root_path(q) && crate::paths::parent_path(q)
                == base ==> m.nodes@.contains_key(crate::digest::digest_of(q))
                && m.nodes@[crate::digest::digest_of(q)].spec_path() == q,
        // what the scan's contract says of any node it holds afterwards
        m2.nodes@.contains_key(k),
        !crate::paths::is_root_path(m2.nodes@[k].spec_path()),
        crate::paths::parent_path(m2.nodes@[k].spec_path()) == base,
        fs@.contains_key(m2.nodes@[k].spec_path()),
    ensures
        m.nodes@.contains_key(k),
{
    let q = m2.nodes@[k].spec_path();
    assert(m.nodes@.contains_key(crate::digest::digest_of(q)));
    assert(crate::digest::digest_of(q) == k);
}

/// After a completed directory update, no node of the index sits inside an
/// ignored directory of the subtree: the interior of an excluded directory
/// is never individually indexed.
pub proof fn lemma_excluded_opaque(
    oldm: JManager,
    newm: JManager,
    fs: Fs,
    base: Seq<u8>,
    k: u64,
    a: Seq<u8>,
)
    requires
        JManager::updated_dir(oldm, newm, fs, base),
        newm.nodes@.contains_key(k),
        under(base, newm.nodes@[k].spec_path()),
        under_eq(base, a),
        under(a, newm.nodes@[k].spec_path()),
    ensures
        !is_excluded_name(base_name(a)),
{
    let q = newm.nodes@[k].spec_path();
    assert(visible_spec(base, q));
}

} // verus!
