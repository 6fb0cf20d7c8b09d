//! Persistence: every node becomes one record of the cache file, sorted by
//! path to keep the output deterministic; loading re-creates nodes for
//! records whose paths still exist in the snapshot and overwrites their
//! attributes verbatim.

use vstd::prelude::*;
use crate::codec::{
    RowV, encode_records, encode_rows, encode_row, parse_records, parse_rows, header_bytes,
    enc_header, enc_row, p_row,
};
use crate::errors::JError;
use crate::fs::Fs;
use crate::manager::JManager;
use crate::node::{JNode, FileNode, DirNode};
use crate::paths::{dup_bytes, under_eq};
use crate::strutil::bytes_to_string;

verus! {

use vstd::string::StringSliceAdditionalSpecFns;

/// One node as the cache file stores it.  `count_dir` and `count_file` are
/// zero for files; the kind is recovered on load from the live snapshot.
pub struct DumpData {
    pub abspath: Vec<u8>,
    pub last_write_time: u64,
    pub size: u64,
    pub count_dir: u64,
    pub count_file: u64,
    pub _dirty: bool,
}

impl DumpData {
    /// The record this value denotes.
    pub open spec fn view(&self) -> RowV {
        (self.abspath@, self.last_write_time, self.size, self.count_dir, self.count_file,
        self._dirty)
    }

    /// The record a node dumps to.
    pub fn from_node(node: &JNode) -> (r: DumpData)
        ensures
            r@ == row_of_node(*node),
    {
        DumpData {
            abspath: dup_bytes(node.path()),
            last_write_time: node.last_modified(),
            size: node.size(),
            count_dir: match node.count_dir() {
                Some(c) => c,
                None => 0,
            },
            count_file: match node.count_file() {
                Some(c) => c,
                None => 0,
            },
            _dirty: node.is_dirty(),
        }
    }

    /// The node this record restores, with the kind the snapshot reports
    /// for its path (a vanished path restores as a file).
    pub fn to_node(&self, fs: &Fs) -> (r: JNode)
        requires
            fs.wf(),
        ensures
            r.spec_path() == self.abspath@,
            r.spec_lwt() == self.last_write_time,
            r.spec_size() == self.size,
            r.spec_is_dir() == (fs@.contains_key(self.abspath@) && fs@[self.abspath@].is_dir),
            r.spec_is_dir() ==> r.spec_count_dir() == Some(self.count_dir)
                && r.spec_count_file() == Some(self.count_file) && r.spec_dirty() == self._dirty,
    {
        let isdir = match fs.lookup(&self.abspath) {
            Some(m) => m.is_dir,
            None => false,
        };
        if isdir {
            JNode::Dir(
                DirNode {
                    abspath: dup_bytes(&self.abspath),
                    last_write_time: self.last_write_time,
                    size: self.size,
                    count_dir: self.count_dir,
                    count_file: self.count_file,
                    _dirty: self._dirty,
                },
            )
        } else {
            JNode::File(
                FileNode {
                    abspath: dup_bytes(&self.abspath),
                    last_write_time: self.last_write_time,
                    size: self.size,
                },
            )
        }
    }
}

/// The record `row` has been replayed into the index: its node carries the
/// record's attributes verbatim and the kind the snapshot reports.
pub open spec fn row_loaded(m: JManager, fs: Fs, row: RowV) -> bool {
    let h = crate::digest::digest_of(row.0);
    let n = m.nodes@[h];
    &&& m.nodes@.contains_key(h)
    &&& n.spec_path() == row.0
    &&& n.spec_is_dir() == fs@[row.0].is_dir
    &&& n.spec_lwt() == row.1
    &&& n.spec_size() == row.2
    &&& (n.spec_is_dir() ==> n.spec_count_dir() == Some(row.3) && n.spec_count_file() == Some(
        row.4,
    ) && n.spec_dirty() == row.5)
    &&& (!n.spec_is_dir() ==> !n.spec_dirty())
}

/// The record a node dumps to: files contribute zero counts and a clear
/// dirty flag.
pub open spec fn row_of_node(n: JNode) -> RowV {
    (
        n.spec_path(),
        n.spec_lwt(),
        n.spec_size(),
        (if n.spec_is_dir() {
            n.spec_count_dir().unwrap()
        } else {
            0
        }),
        (if n.spec_is_dir() {
            n.spec_count_file().unwrap()
        } else {
            0
        }),
        n.spec_dirty(),
    )
}

/// Byte-wise lexicographic order.
pub open spec fn lex_le(a: Seq<u8>, b: Seq<u8>) -> bool
    decreases a.len(),
{
    if a.len() == 0 {
        true
    } else if b.len() == 0 {
        false
    } else if a[0] < b[0] {
        true
    } else if a[0] > b[0] {
        false
    } else {
        lex_le(a.drop_first(), b.drop_first())
    }
}

/// Decides the lexicographic order.
pub fn lex_le_exec(a: &Vec<u8>, b: &Vec<u8>) -> (r: bool)
    ensures
        r == lex_le(a@, b@),
{
    let mut i: usize = 0;
    proof {
        assert(a@.skip(0) =~= a@);
        assert(b@.skip(0) =~= b@);
    }
    loop
        invariant
            i <= a@.len(),
            i <= b@.len(),
            lex_le(a@, b@) == lex_le(a@.skip(i as int), b@.skip(i as int)),
        decreases a@.len() - i,
    {
        if i >= a.len() {
            proof {
                assert(a@.skip(i as int).len() == 0);
            }
            return true;
        }
        if i >= b.len() {
            proof {
                assert(b@.skip(i as int).len() == 0);
                assert(a@.skip(i as int).len() > 0);
            }
            return false;
        }
        let x = a[i];
        let y = b[i];
        proof {
            assert(a@.skip(i as int)[0] == x);
            assert(b@.skip(i as int)[0] == y);
            assert(a@.skip(i as int).drop_first() =~= a@.skip(i as int + 1));
            assert(b@.skip(i as int).drop_first() =~= b@.skip(i as int + 1));
        }
        if x < y {
            return true;
        }
        if x > y {
            return false;
        }
        i = i + 1;
    }
}

/// Inserts a record into a path-sorted record list, before the first entry
/// it does not come after.
pub open spec fn insert_row(r: RowV, rows: Seq<RowV>) -> Seq<RowV>
    decreases rows.len(),
{
    if rows.len() == 0 {
        seq![r]
    } else if lex_le(r.0, rows[0].0) {
        seq![r] + rows
    } else {
        seq![rows[0]] + insert_row(r, rows.drop_first())
    }
}

/// The path-sorted records of a node table.
pub open spec fn rows_of(entries: Seq<(u64, JNode)>) -> Seq<RowV>
    decreases entries.len(),
{
    if entries.len() == 0 {
        Seq::empty()
    } else {
        insert_row(row_of_node(entries[0].1), rows_of(entries.drop_first()))
    }
}

/// The inserted record is a member of the insertion result.
pub proof fn lemma_insert_row_contains(r: RowV, rows: Seq<RowV>)
    ensures
        insert_row(r, rows).contains(r),
    decreases rows.len(),
{
    if rows.len() == 0 {
        assert(insert_row(r, rows)[0] == r);
    } else if lex_le(r.0, rows[0].0) {
        assert(insert_row(r, rows)[0] == r);
    } else {
        lemma_insert_row_contains(r, rows.drop_first());
        let inner = insert_row(r, rows.drop_first());
        let j = choose|j: int| 0 <= j < inner.len() && inner[j] == r;
        assert(insert_row(r, rows)[j + 1] == r);
    }
}

/// Insertion keeps every record that was already in the list.
pub proof fn lemma_insert_row_keeps(r: RowV, rows: Seq<RowV>, x: RowV)
    requires
        rows.contains(x),
    ensures
        insert_row(r, rows).contains(x),
    decreases rows.len(),
{
    if rows.len() == 0 {
    } else if lex_le(r.0, rows[0].0) {
        let j = choose|j: int| 0 <= j < rows.len() && rows[j] == x;
        assert(insert_row(r, rows)[j + 1] == x);
    } else {
        if rows[0] == x {
            assert(insert_row(r, rows)[0] == x);
        } else {
            let j = choose|j: int| 0 <= j < rows.len() && rows[j] == x;
            assert(rows.drop_first()[j - 1] == x);
            lemma_insert_row_keeps(r, rows.drop_first(), x);
            let inner = insert_row(r, rows.drop_first());
            let k = choose|k: int| 0 <= k < inner.len() && inner[k] == x;
            assert(insert_row(r, rows)[k + 1] == x);
        }
    }
}

/// Every member of the insertion result is the inserted record or an old
/// member.
pub proof fn lemma_insert_row_sound(r: RowV, rows: Seq<RowV>, x: RowV)
    requires
        insert_row(r, rows).contains(x),
    ensures
        x == r || rows.contains(x),
    decreases rows.len(),
{
    let out = insert_row(r, rows);
    let j = choose|j: int| 0 <= j < out.len() && out[j] == x;
    if rows.len() == 0 {
    } else if lex_le(r.0, rows[0].0) {
        if j > 0 {
            assert(rows[j - 1] == x);
        }
    } else {
        if j == 0 {
            assert(rows[0] == x);
        } else {
            assert(insert_row(r, rows.drop_first())[j - 1] == x);
            lemma_insert_row_sound(r, rows.drop_first(), x);
            if rows.drop_first().contains(x) {
                let k = choose|k: int|
                    0 <= k < rows.drop_first().len() && rows.drop_first()[k] == x;
                assert(rows[k + 1] == x);
            }
        }
    }
}

/// Every record of the dump comes from a node of the table.
pub proof fn lemma_rows_of_sound(entries: Seq<(u64, JNode)>, x: RowV)
    requires
        rows_of(entries).contains(x),
    ensures
        exists|i: int|
            0 <= i < entries.len() && x == row_of_node((#[trigger] entries[i]).1),
    decreases entries.len(),
{
    lemma_insert_row_sound(row_of_node(entries[0].1), rows_of(entries.drop_first()), x);
    if x == row_of_node(entries[0].1) {
        assert(x == row_of_node(entries[0].1));
    } else {
        lemma_rows_of_sound(entries.drop_first(), x);
        let i = choose|i: int|
            0 <= i < entries.drop_first().len() && x == row_of_node(
                (#[trigger] entries.drop_first()[i]).1,
            );
        assert(entries[i + 1] == entries.drop_first()[i]);
    }
}

/// Inserting a record that is not yet present keeps all records pairwise
/// distinct.
proof fn lemma_insert_keeps_distinct(r: RowV, rows: Seq<RowV>)
    requires
        forall|a: int, b: int| 0 <= a < b < rows.len() ==> rows[a] != rows[b],
        !rows.contains(r),
    ensures
        forall|a: int, b: int|
            0 <= a < b < insert_row(r, rows).len() ==> insert_row(r, rows)[a] != insert_row(
                r,
                rows,
            )[b],
    decreases rows.len(),
{
    let out = insert_row(r, rows);
    if rows.len() == 0 {
    } else if lex_le(r.0, rows[0].0) {
        assert forall|a: int, b: int| 0 <= a < b < out.len() implies out[a] != out[b] by {
            if a == 0 {
                assert(out[b] == rows[b - 1]);
                assert(rows.contains(rows[b - 1]));
            } else {
                assert(out[a] == rows[a - 1] && out[b] == rows[b - 1]);
            }
        }
    } else {
        assert(!rows.drop_first().contains(r)) by {
            if rows.drop_first().contains(r) {
                let k = choose|k: int|
                    0 <= k < rows.drop_first().len() && rows.drop_first()[k] == r;
                assert(rows[k + 1] == r);
            }
        }
        assert(forall|a: int, b: int|
            0 <= a < b < rows.drop_first().len() ==> (#[trigger] rows.drop_first()[a]) != (
            #[trigger] rows.drop_first()[b]));
        lemma_insert_keeps_distinct(r, rows.drop_first());
        let inner = insert_row(r, rows.drop_first());
        assert forall|a: int, b: int| 0 <= a < b < out.len() implies out[a] != out[b] by {
            if a == 0 {
                assert(out[b] == inner[b - 1]);
                assert(inner.contains(inner[b - 1]));
                lemma_insert_row_sound(r, rows.drop_first(), inner[b - 1]);
                if inner[b - 1] == r {
                    assert(!rows.contains(r));
                    assert(rows[0] != r);
                } else {
                    let k = choose|k: int|
                        0 <= k < rows.drop_first().len() && rows.drop_first()[k] == inner[b - 1];
                    assert(rows[k + 1] == inner[b - 1]);
                }
            } else {
                assert(out[a] == inner[a - 1] && out[b] == inner[b - 1]);
            }
        }
    }
}

/// Under unique keys tied to path digests, the dump holds pairwise
/// distinct records.
pub proof fn lemma_rows_of_distinct(entries: Seq<(u64, JNode)>, j: int, j2: int)
    requires
        crate::table::keys_unique(entries),
        forall|i: int|
            0 <= i < entries.len() ==> crate::digest::digest_of(
                (#[trigger] entries[i]).1.spec_path(),
            ) == entries[i].0,
        0 <= j < rows_of(entries).len(),
        0 <= j2 < rows_of(entries).len(),
        j != j2,
    ensures
        rows_of(entries)[j] != rows_of(entries)[j2],
    decreases entries.len(),
{
    lemma_rows_of_all_distinct(entries);
}

/// All records of a dump are pairwise distinct.
proof fn lemma_rows_of_all_distinct(entries: Seq<(u64, JNode)>)
    requires
        crate::table::keys_unique(entries),
        forall|i: int|
            0 <= i < entries.len() ==> crate::digest::digest_of(
                (#[trigger] entries[i]).1.spec_path(),
            ) == entries[i].0,
    ensures
        forall|a: int, b: int|
            0 <= a < b < rows_of(entries).len() ==> rows_of(entries)[a] != rows_of(entries)[b],
    decreases entries.len(),
{
    if entries.len() == 0 {
    } else {
        assert(crate::table::keys_unique(entries.drop_first())) by {
            assert(forall|x: int|
                0 <= x < entries.len() - 1 ==> #[trigger] entries.drop_first()[x] == entries[x
                    + 1]);
        }
        assert(forall|i: int|
            0 <= i < entries.drop_first().len() ==> crate::digest::digest_of(
                (#[trigger] entries.drop_first()[i]).1.spec_path(),
            ) == entries.drop_first()[i].0) by {
            assert(forall|x: int|
                0 <= x < entries.len() - 1 ==> #[trigger] entries.drop_first()[x] == entries[x
                    + 1]);
        }
        lemma_rows_of_all_distinct(entries.drop_first());
        let r0 = row_of_node(entries[0].1);
        assert(!rows_of(entries.drop_first()).contains(r0)) by {
            if rows_of(entries.drop_first()).contains(r0) {
                lemma_rows_of_sound(entries.drop_first(), r0);
                let i = choose|i: int|
                    0 <= i < entries.drop_first().len() && r0 == row_of_node(
                        (#[trigger] entries.drop_first()[i]).1,
                    );
                assert(entries.drop_first()[i] == entries[i + 1]);
                assert(entries[i + 1].1.spec_path() == entries[0].1.spec_path());
                assert(entries[i + 1].0 == entries[0].0);
            }
        }
        lemma_insert_keeps_distinct(r0, rows_of(entries.drop_first()));
    }
}

/// Encoding distributes over appending a record.
proof fn lemma_encode_rows_push(rows: Seq<RowV>, r: RowV)
    ensures
        encode_rows(rows.push(r)) == encode_rows(rows) + encode_row(r),
    decreases rows.len(),
{
    if rows.len() == 0 {
        assert(rows.push(r)[0] == r);
        assert(rows.push(r).drop_first() =~= Seq::<RowV>::empty());
        assert(encode_rows(Seq::<RowV>::empty()) =~= Seq::<u8>::empty());
        assert(rows =~= Seq::<RowV>::empty());
        assert(encode_rows(rows.push(r)) =~= encode_rows(rows) + encode_row(r));
    } else {
        lemma_encode_rows_push(rows.drop_first(), r);
        assert(rows.push(r)[0] == rows[0]);
        assert(rows.push(r).drop_first() =~= rows.drop_first().push(r));
        assert(encode_rows(rows.push(r)) =~= encode_rows(rows) + encode_row(r));
    }
}

impl JManager {
    /// Serializes every node as one record, sorted by path.  The result is
    /// the whole cache file as text.
    pub fn dump(&self) -> (r: String)
        ensures
            vstd::utf8::valid_utf8(encode_records(rows_of(self.nodes.entries@)))
                ==> vstd::utf8::encode_utf8(r@) == encode_records(rows_of(self.nodes.entries@)),
    {
        let mut rows: Vec<DumpData> = Vec::new();
        let mut i: usize = self.nodes.entries.len();
        while i > 0
            invariant
                0 <= i <= self.nodes.entries@.len(),
                rows@.len() == self.nodes.entries@.len() - i,
                Seq::new(rows@.len() as nat, |x: int| rows@[x]@) == rows_of(
                    self.nodes.entries@.skip(i as int),
                ),
            decreases i,
        {
            i = i - 1;
            let d = DumpData::from_node(&self.nodes.entries[i].1);
            let ghost before = rows@;
            let mut j: usize = 0;
            while j < rows.len() && !lex_le_exec(&d.abspath, &rows[j].abspath)
                invariant
                    0 <= j <= rows@.len(),
                    rows@ == before,
                    forall|x: int| 0 <= x < j ==> !lex_le(d.abspath@, (#[trigger] rows@[x]).abspath@),
                decreases rows@.len() - j,
            {
                j = j + 1;
            }
            rows.insert(j, d);
            proof {
                let rv = Seq::new(rows@.len() as nat, |x: int| rows@[x]@);
                let bv = Seq::new(before.len() as nat, |x: int| before[x]@);
                lemma_insert_at(bv, rv, d@, j as int);
                assert(self.nodes.entries@.skip(i as int)[0] == self.nodes.entries@[i as int]);
                assert(self.nodes.entries@.skip(i as int).drop_first() =~= self.nodes.entries@.skip(
                    i as int + 1,
                ));
                assert(rows_of(self.nodes.entries@.skip(i as int)) == insert_row(
                    row_of_node(self.nodes.entries@[i as int].1),
                    bv,
                ));
            }
        }
        proof {
            assert(self.nodes.entries@.skip(0) =~= self.nodes.entries@);
        }
        let mut out: Vec<u8> = Vec::new();
        enc_header(&mut out);
        let mut k: usize = 0;
        while k < rows.len()
            invariant
                0 <= k <= rows@.len(),
                Seq::new(rows@.len() as nat, |x: int| rows@[x]@) == rows_of(self.nodes.entries@),
                out@ == header_bytes() + encode_rows(
                    Seq::new(rows@.len() as nat, |x: int| rows@[x]@).take(k as int),
                ),
            decreases rows@.len() - k,
        {
            proof {
                assert(encode_rows(Seq::new(rows@.len() as nat, |x: int| rows@[x]@).take(0))
                    =~= Seq::<u8>::empty());
            }
            let d = &rows[k];
            enc_row(&d.abspath, d.last_write_time, d.size, d.count_dir, d.count_file, d._dirty, &mut out);
            proof {
                let rv = Seq::new(rows@.len() as nat, |x: int| rows@[x]@);
                assert(rv.take(k as int).push(rv[k as int]) =~= rv.take(k as int + 1));
                lemma_encode_rows_push(rv.take(k as int), rv[k as int]);
                assert(rows@[k as int]@ == rv[k as int]);
            }
            k = k + 1;
        }
        proof {
            let rv = Seq::new(rows@.len() as nat, |x: int| rows@[x]@);
            assert(rv.take(rv.len() as int) =~= rv);
            assert(out@ == encode_records(rows_of(self.nodes.entries@)));
        }
        bytes_to_string(&out)
    }

    /// Parses the cache text and replays every record whose path still
    /// exists in the snapshot: a node is created for it on demand and its
    /// attributes are overwritten from the record.  Malformed text fails
    /// with `CacheError` and changes nothing.
    #[verifier::rlimit(100)]
    pub fn load(&mut self, text: &str, fs: &Fs) -> (r: Result<(), JError>)
        requires
            old(self).wf(),
            fs.wf(),
        ensures
            final (self).wf(),
            (r matches Err(e) && e matches JError::CacheError) <==> parse_records(
                text.spec_bytes(),
            ) is None,
            parse_records(text.spec_bytes()) is None ==> final (self).nodes == old(self).nodes
                && final (self).chash == old(self).chash && final (self).phash == old(self).phash,
            // every record whose path survives in the snapshot has a node
            // after a successful load
            r is Ok ==> (parse_records(text.spec_bytes()) matches Some(rows) && (forall|j: int|
                #![trigger rows[j]]
                0 <= j < rows.len() && fs@.contains_key(rows[j].0) ==> final (
                self).nodes@.contains_key(crate::digest::digest_of(rows[j].0)) && final (
                self).nodes@[crate::digest::digest_of(rows[j].0)].spec_path() == rows[j].0)),
            // on a fresh index, a record with an unshared digest determines
            // its node's attributes verbatim, with the kind the snapshot
            // reports
            r is Ok && old(self).nodes@ == Map::<u64, JNode>::empty() ==> (parse_records(
                text.spec_bytes(),
            ) matches Some(rows) && (forall|j: int|
                #![trigger rows[j]]
                0 <= j < rows.len() && fs@.contains_key(rows[j].0) && (forall|j2: int|
                    0 <= j2 < rows.len() && j2 != j ==> crate::digest::digest_of(
                        (#[trigger] rows[j2]).0,
                    ) != crate::digest::digest_of(rows[j].0)) ==> row_loaded(
                    *final (self),
                    *fs,
                    rows[j],
                ))),
            // loading creates nothing beyond the surviving records and
            // their ancestry: in particular a vanished record adds no node
            r is Ok ==> (parse_records(text.spec_bytes()) matches Some(rows) && (forall|k: u64|
                #![trigger final (self).nodes@.contains_key(k)]
                final (self).nodes@.contains_key(k) && !old(self).nodes@.contains_key(k)
                    ==> fs@.contains_key(final (self).nodes@[k].spec_path()) && (exists|j: int|
                    0 <= j < rows.len() && fs@.contains_key((#[trigger] rows[j]).0) && under_eq(
                        final (self).nodes@[k].spec_path(),
                        rows[j].0,
                    )))),
    {
        let raw = crate::paths::bytes_of(text);
        let mut hdr: Vec<u8> = Vec::new();
        enc_header(&mut hdr);
        if raw.len() < hdr.len() {
            proof {
                assert(parse_records(raw@) is None);
            }
            return Err(JError::CacheError);
        }
        let mut hi: usize = 0;
        while hi < hdr.len()
            invariant
                hdr@ == header_bytes(),
                0 <= hi <= hdr@.len() <= raw@.len(),
                raw@ == text.spec_bytes(),
                *self == *old(self),
                old(self).wf(),
                forall|x: int| 0 <= x < hi ==> raw@[x] == hdr@[x],
            decreases hdr@.len() - hi,
        {
            if raw[hi] != hdr[hi] {
                proof {
                    assert(raw@.take(header_bytes().len() as int)[hi as int] != header_bytes()[hi as int]);
                    assert(parse_records(raw@) is None);
                }
                return Err(JError::CacheError);
            }
            hi = hi + 1;
        }
        proof {
            assert(raw@.take(header_bytes().len() as int) =~= header_bytes());
        }
        let mut recs: Vec<DumpData> = Vec::new();
        let mut cur: usize = hdr.len();
        let ghost start = hdr@.len() as int;
        loop
            invariant
                start <= cur as int <= raw@.len(),
                start == header_bytes().len(),
                raw@ == text.spec_bytes(),
                *self == *old(self),
                old(self).wf(),
                raw@.take(start) == header_bytes(),
                parse_rows(raw@.skip(start)) == (match parse_rows(raw@.skip(cur as int)) {
                    None => None::<Seq<RowV>>,
                    Some(rs) => Some(Seq::new(recs@.len() as nat, |x: int| recs@[x]@) + rs),
                }),
            ensures
                raw@ == text.spec_bytes(),
                raw@.take(start) == header_bytes(),
                start == header_bytes().len(),
                parse_rows(raw@.skip(start)) == Some(Seq::new(recs@.len() as nat, |x: int| recs@[x]@)),
            decreases raw@.len() - cur,
        {
            if cur >= raw.len() {
                proof {
                    assert(raw@.skip(cur as int).len() == 0);
                    assert(parse_rows(raw@.skip(cur as int)) == Some(Seq::<RowV>::empty()));
                    assert(Seq::new(recs@.len() as nat, |x: int| recs@[x]@) + Seq::<
                        RowV,
                    >::empty() =~= Seq::new(recs@.len() as nat, |x: int| recs@[x]@));
                }
                break ;
            }
            let ghost oldcur = cur as int;
            let row = match p_row(&raw, cur) {
                Some(x) => x,
                None => {
                    proof {
                        assert(parse_rows(raw@.skip(cur as int)) is None);
                        assert(parse_records(raw@) is None);
                    }
                    return Err(JError::CacheError);
                },
            };
            let (p, lwt, size, cd, cf, dirty, j) = row;
            let ghost rbefore = recs@;
            recs.push(
                DumpData {
                    abspath: p,
                    last_write_time: lwt,
                    size,
                    count_dir: cd,
                    count_file: cf,
                    _dirty: dirty,
                },
            );
            proof {
                let rv = Seq::new(recs@.len() as nat, |x: int| recs@[x]@);
                let bv = Seq::new(rbefore.len() as nat, |x: int| rbefore[x]@);
                assert(forall|x: int| 0 <= x < rbefore.len() ==> recs@[x] == rbefore[x]);
                assert(raw@.skip(oldcur).len() > raw@.skip(j as int).len());
                match parse_rows(raw@.skip(j as int)) {
                    None => {
                        assert(parse_rows(raw@.skip(oldcur)) is None);
                    },
                    Some(rs) => {
                        assert(parse_rows(raw@.skip(oldcur)) == Some(seq![rv[rv.len() - 1]] + rs));
                        assert(bv + (seq![rv[rv.len() - 1]] + rs) =~= rv + rs);
                    },
                }
            }
            cur = j;
        }
        let ghost allrows = Seq::new(recs@.len() as nat, |x: int| recs@[x]@);
        proof {
            assert(parse_records(raw@) == Some(allrows)) by {
                assert(raw@.skip(start) =~= raw@.skip(header_bytes().len() as int));
            }
        }
        // First pass: make sure a node exists for every surviving record, so
        // that the attribute overwrites of the second pass are final (a
        // creation marks its ancestor chain dirty, and the record's own
        // dirty flag must win).
        let mut i0: usize = 0;
        while i0 < recs.len()
            invariant
                0 <= i0 <= recs@.len(),
                fs.wf(),
                self.wf(),
                raw@ == text.spec_bytes(),
                parse_records(raw@) == Some(allrows),
                allrows.len() == recs@.len(),
                forall|j: int| 0 <= j < recs@.len() ==> #[trigger] allrows[j] == recs@[j]@,
                forall|j: int|
                    #![trigger allrows[j]]
                    0 <= j < i0 && fs@.contains_key(allrows[j].0) ==> self.nodes@.contains_key(
                        crate::digest::digest_of(allrows[j].0),
                    ) && self.nodes@[crate::digest::digest_of(allrows[j].0)].spec_path()
                        == allrows[j].0,
                old(self).nodes@ == Map::<u64, JNode>::empty() ==> forall|k: u64|
                    #![trigger self.nodes@[k]]
                    self.nodes@.contains_key(k) ==> fs@.contains_key(self.path_of(k))
                        && self.nodes@[k].spec_is_dir() == fs@[self.path_of(k)].is_dir,
                forall|k: u64|
                    #![trigger self.nodes@.contains_key(k)]
                    self.nodes@.contains_key(k) && !old(self).nodes@.contains_key(k)
                        ==> fs@.contains_key(self.path_of(k)) && (exists|j: int|
                        0 <= j < allrows.len() && fs@.contains_key((#[trigger] allrows[j]).0)
                            && under_eq(self.path_of(k), allrows[j].0)),
            decreases recs@.len() - i0,
        {
            let ghost snap1 = *self;
            let meta0 = fs.lookup(&recs[i0].abspath);
            if meta0.is_some() {
                proof {
                    assert(crate::paths::is_canon_path(recs@[i0 as int].abspath@));
                }
                let path = dup_bytes(&recs[i0].abspath);
                match self.locate_canon(&path, fs) {
                    Ok(_) => {},
                    Err(e) => {
                        return Err(e);
                    },
                }
            }
            proof {
                assert forall|j: int|
                    #![trigger allrows[j]]
                    0 <= j < i0 + 1 && fs@.contains_key(allrows[j].0) implies
                self.nodes@.contains_key(crate::digest::digest_of(allrows[j].0))
                    && self.nodes@[crate::digest::digest_of(allrows[j].0)].spec_path()
                    == allrows[j].0 by {
                    if j < i0 {
                        assert(snap1.nodes@.contains_key(crate::digest::digest_of(allrows[j].0)));
                    }
                }
                if old(self).nodes@ == Map::<u64, JNode>::empty() {
                    assert forall|k: u64|
                        #![trigger self.nodes@[k]]
                        self.nodes@.contains_key(k) implies fs@.contains_key(self.path_of(k))
                        && self.nodes@[k].spec_is_dir() == fs@[self.path_of(k)].is_dir by {
                        if snap1.nodes@.contains_key(k) {
                            assert(crate::node::node_eqv_mod_dirty(
                                snap1.nodes@[k],
                                self.nodes@[k],
                            ));
                        } else {
                            assert(crate::node::is_fresh_node(
                                self.nodes@[k],
                                self.path_of(k),
                                fs@[self.path_of(k)],
                            ));
                        }
                    }
                }
                assert forall|k: u64|
                    #![trigger self.nodes@.contains_key(k)]
                    self.nodes@.contains_key(k) && !old(self).nodes@.contains_key(k) implies
                fs@.contains_key(self.path_of(k)) && (exists|j: int|
                    0 <= j < allrows.len() && fs@.contains_key((#[trigger] allrows[j]).0)
                        && under_eq(self.path_of(k), allrows[j].0)) by {
                    if snap1.nodes@.contains_key(k) {
                        assert(crate::node::node_eqv_mod_dirty(snap1.nodes@[k], self.nodes@[k]));
                        assert(self.path_of(k) == snap1.path_of(k));
                    } else {
                        assert(under_eq(self.path_of(k), recs@[i0 as int].abspath@));
                        assert(fs@.contains_key(allrows[i0 as int].0));
                        assert(under_eq(self.path_of(k), allrows[i0 as int].0));
                    }
                }
            }
            i0 = i0 + 1;
        }
        // Second pass: overwrite the cached attributes verbatim.
        match self.replay_records(&recs, fs, Ghost(allrows), Ghost(old(self).nodes@)) {
            Ok(_) => {},
            Err(e) => {
                return Err(e);
            },
        }
        Ok(())
    }

    /// The second pass of a load: every surviving record's node (already
    /// present) gets the record's attributes verbatim.  `rows` are the
    /// parsed records and `base_m` the node map the whole load started
    /// from.
    #[verifier::rlimit(100)]
    fn replay_records(
        &mut self,
        recs: &Vec<DumpData>,
        fs: &Fs,
        Ghost(rows): Ghost<Seq<RowV>>,
        Ghost(base_m): Ghost<Map<u64, JNode>>,
    ) -> (r: Result<(), JError>)
        requires
            old(self).wf(),
            fs.wf(),
            rows.len() == recs@.len(),
            forall|j: int| 0 <= j < recs@.len() ==> #[trigger] rows[j] == recs@[j]@,
            forall|j: int|
                #![trigger rows[j]]
                0 <= j < rows.len() && fs@.contains_key(rows[j].0) ==> old(
                self).nodes@.contains_key(crate::digest::digest_of(rows[j].0)) && old(
                self).nodes@[crate::digest::digest_of(rows[j].0)].spec_path() == rows[j].0,
            base_m == Map::<u64, JNode>::empty() ==> forall|k: u64|
                #![trigger old(self).nodes@[k]]
                old(self).nodes@.contains_key(k) ==> fs@.contains_key(old(self).path_of(k))
                    && old(self).nodes@[k].spec_is_dir() == fs@[old(self).path_of(k)].is_dir,
            forall|k: u64|
                #![trigger old(self).nodes@.contains_key(k)]
                old(self).nodes@.contains_key(k) && !base_m.contains_key(k) ==> fs@.contains_key(
                    old(self).path_of(k),
                ) && (exists|j: int|
                    0 <= j < rows.len() && fs@.contains_key((#[trigger] rows[j]).0) && under_eq(
                        old(self).path_of(k),
                        rows[j].0,
                    )),
        ensures
            final (self).wf(),
            r is Err ==> r.unwrap_err() matches JError::NotExistingNode(_),
            forall|j: int|
                #![trigger rows[j]]
                0 <= j < rows.len() && fs@.contains_key(rows[j].0) ==> final (
                self).nodes@.contains_key(crate::digest::digest_of(rows[j].0)) && final (
                self).nodes@[crate::digest::digest_of(rows[j].0)].spec_path() == rows[j].0,
            r is Ok && base_m == Map::<u64, JNode>::empty() ==> forall|j: int|
                #![trigger rows[j]]
                0 <= j < rows.len() && fs@.contains_key(rows[j].0) && (forall|j2: int|
                    0 <= j2 < rows.len() && j2 != j ==> crate::digest::digest_of(
                        (#[trigger] rows[j2]).0,
                    ) != crate::digest::digest_of(rows[j].0)) ==> row_loaded(
                    *final (self),
                    *fs,
                    rows[j],
                ),
            forall|k: u64|
                #![trigger final (self).nodes@.contains_key(k)]
                final (self).nodes@.contains_key(k) && !base_m.contains_key(k) ==> fs@.contains_key(
                    final (self).nodes@[k].spec_path(),
                ) && (exists|j: int|
                    0 <= j < rows.len() && fs@.contains_key((#[trigger] rows[j]).0) && under_eq(
                        final (self).nodes@[k].spec_path(),
                        rows[j].0,
                    )),
    {
        let ghost allrows = rows;
        let mut i: usize = 0;
        while i < recs.len()
            invariant
                0 <= i <= recs@.len(),
                fs.wf(),
                self.wf(),
                allrows == rows,
                allrows.len() == recs@.len(),
                forall|j: int| 0 <= j < recs@.len() ==> #[trigger] allrows[j] == recs@[j]@,
                forall|j: int|
                    #![trigger allrows[j]]
                    0 <= j < recs@.len() && fs@.contains_key(allrows[j].0)
                        ==> self.nodes@.contains_key(crate::digest::digest_of(allrows[j].0))
                        && self.nodes@[crate::digest::digest_of(allrows[j].0)].spec_path()
                        == allrows[j].0,
                base_m == Map::<u64, JNode>::empty() ==> forall|k: u64|
                    #![trigger self.nodes@[k]]
                    self.nodes@.contains_key(k) ==> fs@.contains_key(self.path_of(k))
                        && self.nodes@[k].spec_is_dir() == fs@[self.path_of(k)].is_dir,
                base_m == Map::<u64, JNode>::empty() ==> forall|j: int|
                    #![trigger allrows[j]]
                    0 <= j < i && fs@.contains_key(allrows[j].0) && (forall|j2: int|
                        0 <= j2 < allrows.len() && j2 != j ==> crate::digest::digest_of(
                            (#[trigger] allrows[j2]).0,
                        ) != crate::digest::digest_of(allrows[j].0)) ==> row_loaded(
                        *self,
                        *fs,
                        allrows[j],
                    ),
                forall|k: u64|
                    #![trigger self.nodes@.contains_key(k)]
                    self.nodes@.contains_key(k) && !base_m.contains_key(k) ==> fs@.contains_key(
                        self.path_of(k),
                    ) && (exists|j: int|
                        0 <= j < allrows.len() && fs@.contains_key((#[trigger] allrows[j]).0)
                            && under_eq(self.path_of(k), allrows[j].0)),
            decreases recs@.len() - i,
        {
            let ghost snap2 = *self;
            let meta = fs.lookup(&recs[i].abspath);
            if let Some(m) = meta {
                proof {
                    assert(crate::paths::is_canon_path(recs@[i as int].abspath@));
                    assert(fs@.contains_key(allrows[i as int].0));
                    assert(self.nodes@.contains_key(
                        crate::digest::digest_of(allrows[i as int].0),
                    ) && self.nodes@[crate::digest::digest_of(allrows[i as int].0)].spec_path()
                        == allrows[i as int].0);
                }
                let path = dup_bytes(&recs[i].abspath);
                match self.locate_canon(&path, fs) {
                    Ok(h) => {
                        let dumped = {
                            let nd = match self.nodes.get(h) {
                                Some(n) => n,
                                None => {
                                    proof {
                                        assert(false);
                                    }
                                    return Err(JError::NotExistingNode(h));
                                },
                            };
                            if nd.is_dir() {
                                JNode::Dir(
                                    DirNode {
                                        abspath: dup_bytes(&recs[i].abspath),
                                        last_write_time: recs[i].last_write_time,
                                        size: recs[i].size,
                                        count_dir: recs[i].count_dir,
                                        count_file: recs[i].count_file,
                                        _dirty: recs[i]._dirty,
                                    },
                                )
                            } else {
                                JNode::File(
                                    FileNode {
                                        abspath: dup_bytes(&recs[i].abspath),
                                        last_write_time: recs[i].last_write_time,
                                        size: recs[i].size,
                                    },
                                )
                            }
                        };
                        let nd2 = match self.nodes.get(h) {
                            Some(n) => n.dup(),
                            None => {
                                proof {
                                    assert(false);
                                }
                                return Err(JError::NotExistingNode(h));
                            },
                        };
                        let mut nd3 = nd2;
                        nd3.load(&dumped);
                        self.nodes.insert(h, nd3);
                    },
                    Err(e) => {
                        proof {
                            if e matches JError::NotExistingPath(_) {
                                assert(fs@.contains_key(recs@[i as int].abspath@));
                                assert(false);
                            }
                        }
                        return Err(e);
                    },
                }
            }
            proof {
                assert forall|j: int|
                    #![trigger allrows[j]]
                    0 <= j < recs@.len() && fs@.contains_key(allrows[j].0) implies
                self.nodes@.contains_key(crate::digest::digest_of(allrows[j].0))
                    && self.nodes@[crate::digest::digest_of(allrows[j].0)].spec_path()
                    == allrows[j].0 by {
                    assert(snap2.nodes@.contains_key(crate::digest::digest_of(allrows[j].0)));
                }
                if base_m == Map::<u64, JNode>::empty() {
                    assert forall|j: int|
                        #![trigger allrows[j]]
                        0 <= j < i + 1 && fs@.contains_key(allrows[j].0) && (forall|j2: int|
                            0 <= j2 < allrows.len() && j2 != j ==> crate::digest::digest_of(
                                (#[trigger] allrows[j2]).0,
                            ) != crate::digest::digest_of(allrows[j].0)) implies row_loaded(
                        *self,
                        *fs,
                        allrows[j],
                    ) by {
                        if j < i {
                            assert(row_loaded(snap2, *fs, allrows[j]));
                            assert(crate::digest::digest_of(allrows[i as int].0)
                                != crate::digest::digest_of(allrows[j].0));
                        }
                    }
                }
                assert forall|k: u64|
                    #![trigger self.nodes@.contains_key(k)]
                    self.nodes@.contains_key(k) && !base_m.contains_key(k) implies
                fs@.contains_key(self.path_of(k)) && (exists|j: int|
                    0 <= j < allrows.len() && fs@.contains_key((#[trigger] allrows[j]).0)
                        && under_eq(self.path_of(k), allrows[j].0)) by {
                    assert(snap2.nodes@.contains_key(k));
                    assert(self.path_of(k) == snap2.path_of(k));
                    let j = choose|j: int|
                        0 <= j < allrows.len() && fs@.contains_key((#[trigger] allrows[j]).0)
                            && under_eq(snap2.path_of(k), allrows[j].0);
                    assert(fs@.contains_key(allrows[j].0) && under_eq(
                        self.path_of(k),
                        allrows[j].0,
                    ));
                }
            }
            i = i + 1;
        }
        Ok(())
    }
}

/// Inserting into the executable vector at the found position matches the
/// specification insertion.
proof fn lemma_insert_at(bv: Seq<RowV>, rv: Seq<RowV>, r: RowV, j: int)
    requires
        0 <= j <= bv.len(),
        rv.len() == bv.len() + 1,
        forall|x: int| 0 <= x < j ==> rv[x] == bv[x],
        rv[j] == r,
        forall|x: int| j < x < rv.len() ==> rv[x] == bv[x - 1],
        forall|x: int| 0 <= x < j ==> !lex_le(r.0, bv[x].0),
        j < bv.len() ==> lex_le(r.0, bv[j].0),
    ensures
        rv == insert_row(r, bv),
    decreases bv.len(),
{
    if j == 0 {
        if bv.len() == 0 {
            assert(rv =~= seq![r]);
        } else {
            assert(lex_le(r.0, bv[0].0));
            assert(rv =~= seq![r] + bv);
        }
    } else {
        assert(!lex_le(r.0, bv[0].0));
        assert(rv[0] == bv[0]);
        let bv2 = bv.drop_first();
        let rv2 = rv.drop_first();
        assert(forall|x: int| 0 <= x < j - 1 ==> rv2[x] == bv2[x]);
        assert(rv2[j - 1] == r);
        assert(forall|x: int| j - 1 < x < rv2.len() ==> rv2[x] == bv2[x - 1]);
        assert(forall|x: int| 0 <= x < j - 1 ==> !lex_le(r.0, bv2[x].0)) by {
            assert(forall|x: int| 0 <= x < j - 1 ==> bv2[x] == bv[x + 1]);
        }
        if j - 1 < bv2.len() {
            assert(bv2[j - 1] == bv[j]);
        }
        lemma_insert_at(bv2, rv2, r, j - 1);
        assert(rv =~= seq![bv[0]] + rv2);
    }
}

} // verus!
