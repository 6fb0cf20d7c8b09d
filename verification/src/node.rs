//! The node model: one tagged entity per indexed filesystem object.
//!
//! A `FileNode` caches the file's last-modification time and byte size.  A
//! `DirNode` additionally carries the aggregates over its subtree (byte
//! size, recursive file count, recursive directory count) and the `_dirty`
//! flag that tracks whether those aggregates may disagree with descendants.

use vstd::prelude::*;
use crate::fs::{Fs, FsMeta};
use crate::paths::base_name;
use crate::strutil::bytes_to_string;

verus! {

pub const MILLIS: u64 = 1000;

pub const YEAR_SECS: u64 = 31536000;

pub const MONTH_SECS: u64 = 2592000;

pub const DAY_SECS: u64 = 86400;

pub const HOUR_SECS: u64 = 3600;

pub const MINUTE_SECS: u64 = 60;

/// The `y-m-d h:m:s` rendering of a millisecond timestamp, as bytes.
pub open spec fn pretty_lwt_bytes(t: u64) -> Seq<u8> {
    let secs = (t / MILLIS) as nat;
    crate::codec::dec_of(secs / (YEAR_SECS as nat)) + seq![45u8] + crate::codec::dec_of(
        (secs % (YEAR_SECS as nat)) / (MONTH_SECS as nat),
    ) + seq![45u8] + crate::codec::dec_of((secs % (MONTH_SECS as nat)) / (DAY_SECS as nat))
        + seq![32u8] + crate::codec::dec_of((secs % (DAY_SECS as nat)) / (HOUR_SECS as nat))
        + seq![58u8] + crate::codec::dec_of((secs % (HOUR_SECS as nat)) / (MINUTE_SECS as nat))
        + seq![58u8] + crate::codec::dec_of(secs % (MINUTE_SECS as nat))
}

/// ASCII bytes are valid UTF-8.
pub proof fn lemma_ascii_valid_utf8(s: Seq<u8>)
    requires
        forall|i: int| 0 <= i < s.len() ==> #[trigger] s[i] <= 0x7f,
    ensures
        vstd::utf8::valid_utf8(s),
{
    assert(vstd::utf8::partial_valid_utf8(s, 0)) by {
        assert(s.subrange(0, 0) =~= Seq::<u8>::empty());
    }
    assert forall|i: int|
        0 <= i < s.len() implies #[trigger] vstd::utf8::is_leading_byte_width_1(s[i]) by {
        assert(s[i] <= 0x7f);
    }
    vstd::utf8::partial_valid_utf8_extend_ascii_block(s, 0, s.len() as int);
    assert(s.subrange(0, s.len() as int) =~= s);
}

/// A decimal rendering is valid UTF-8.
proof fn lemma_digits_valid_utf8(n: nat)
    ensures
        vstd::utf8::valid_utf8(crate::codec::dec_of(n)),
{
    crate::codec::lemma_dec_digits(n);
    let d = crate::codec::dec_of(n);
    assert forall|i: int| 0 <= i < d.len() implies #[trigger] d[i] <= 0x7f by {
        assert(crate::codec::is_digit(d[i]));
    }
    lemma_ascii_valid_utf8(d);
}

/// The timestamp rendering is valid UTF-8: digits and ASCII separators.
proof fn lemma_pretty_valid_utf8(t: u64)
    ensures
        vstd::utf8::valid_utf8(pretty_lwt_bytes(t)),
{
    let secs = (t / MILLIS) as nat;
    let a = crate::codec::dec_of(secs / (YEAR_SECS as nat));
    let b = crate::codec::dec_of((secs % (YEAR_SECS as nat)) / (MONTH_SECS as nat));
    let c = crate::codec::dec_of((secs % (MONTH_SECS as nat)) / (DAY_SECS as nat));
    let d = crate::codec::dec_of((secs % (DAY_SECS as nat)) / (HOUR_SECS as nat));
    let e = crate::codec::dec_of((secs % (HOUR_SECS as nat)) / (MINUTE_SECS as nat));
    let f = crate::codec::dec_of(secs % (MINUTE_SECS as nat));
    lemma_digits_valid_utf8(secs / (YEAR_SECS as nat));
    lemma_digits_valid_utf8((secs % (YEAR_SECS as nat)) / (MONTH_SECS as nat));
    lemma_digits_valid_utf8((secs % (MONTH_SECS as nat)) / (DAY_SECS as nat));
    lemma_digits_valid_utf8((secs % (DAY_SECS as nat)) / (HOUR_SECS as nat));
    lemma_digits_valid_utf8((secs % (HOUR_SECS as nat)) / (MINUTE_SECS as nat));
    lemma_digits_valid_utf8(secs % (MINUTE_SECS as nat));
    lemma_ascii_valid_utf8(seq![45u8]);
    lemma_ascii_valid_utf8(seq![32u8]);
    lemma_ascii_valid_utf8(seq![58u8]);
    vstd::utf8::valid_utf8_concat(a, seq![45u8]);
    vstd::utf8::valid_utf8_concat(a + seq![45u8], b);
    vstd::utf8::valid_utf8_concat(a + seq![45u8] + b, seq![45u8]);
    vstd::utf8::valid_utf8_concat(a + seq![45u8] + b + seq![45u8], c);
    vstd::utf8::valid_utf8_concat(a + seq![45u8] + b + seq![45u8] + c, seq![32u8]);
    vstd::utf8::valid_utf8_concat(a + seq![45u8] + b + seq![45u8] + c + seq![32u8], d);
    vstd::utf8::valid_utf8_concat(
        a + seq![45u8] + b + seq![45u8] + c + seq![32u8] + d,
        seq![58u8],
    );
    vstd::utf8::valid_utf8_concat(
        a + seq![45u8] + b + seq![45u8] + c + seq![32u8] + d + seq![58u8],
        e,
    );
    vstd::utf8::valid_utf8_concat(
        a + seq![45u8] + b + seq![45u8] + c + seq![32u8] + d + seq![58u8] + e,
        seq![58u8],
    );
    vstd::utf8::valid_utf8_concat(
        a + seq![45u8] + b + seq![45u8] + c + seq![32u8] + d + seq![58u8] + e + seq![58u8],
        f,
    );
}

/// Renders a millisecond timestamp as `y-m-d h:m:s` counted from the
/// epoch, with calendar units of fixed length.
pub fn pretty_last_modified(modify_time: u64) -> (r: String)
    ensures
        vstd::utf8::encode_utf8(r@) == pretty_lwt_bytes(modify_time),
{
    proof {
        lemma_pretty_valid_utf8(modify_time);
    }
    let secs = modify_time / MILLIS;
    let mut out: Vec<u8> = Vec::new();
    crate::codec::enc_u64(secs / YEAR_SECS, &mut out);
    out.push(45);
    crate::codec::enc_u64((secs % YEAR_SECS) / MONTH_SECS, &mut out);
    out.push(45);
    crate::codec::enc_u64((secs % MONTH_SECS) / DAY_SECS, &mut out);
    out.push(32);
    crate::codec::enc_u64((secs % DAY_SECS) / HOUR_SECS, &mut out);
    out.push(58);
    crate::codec::enc_u64((secs % HOUR_SECS) / MINUTE_SECS, &mut out);
    out.push(58);
    crate::codec::enc_u64(secs % MINUTE_SECS, &mut out);
    proof {
        assert(out@ =~= pretty_lwt_bytes(modify_time));
    }
    bytes_to_string(&out)
}

pub struct FileNode {
    pub abspath: Vec<u8>,
    pub last_write_time: u64,
    pub size: u64,
}

pub struct DirNode {
    pub abspath: Vec<u8>,
    pub last_write_time: u64,
    pub size: u64,
    pub count_dir: u64,
    pub count_file: u64,
    pub _dirty: bool,
}

pub enum JNode {
    File(FileNode),
    Dir(DirNode),
}

/// Field-by-field agreement of two nodes, comparing paths by contents.
pub open spec fn node_eqv(a: JNode, b: JNode) -> bool {
    &&& a.spec_path() == b.spec_path()
    &&& a.spec_is_dir() == b.spec_is_dir()
    &&& a.spec_size() == b.spec_size()
    &&& a.spec_lwt() == b.spec_lwt()
    &&& a.spec_count_dir() == b.spec_count_dir()
    &&& a.spec_count_file() == b.spec_count_file()
    &&& a.spec_dirty() == b.spec_dirty()
}

/// Agreement on everything but the dirty flag, which may only be raised.
pub open spec fn node_eqv_mod_dirty(a: JNode, b: JNode) -> bool {
    &&& a.spec_path() == b.spec_path()
    &&& a.spec_is_dir() == b.spec_is_dir()
    &&& a.spec_size() == b.spec_size()
    &&& a.spec_lwt() == b.spec_lwt()
    &&& a.spec_count_dir() == b.spec_count_dir()
    &&& a.spec_count_file() == b.spec_count_file()
    &&& (b.spec_dirty() == a.spec_dirty() || b.spec_dirty() == true)
}

/// `n` looks like a fresh observation of `meta` at `path`: files snapshot
/// their metadata; directories start with empty aggregates and are dirty.
pub open spec fn is_fresh_node(n: JNode, path: Seq<u8>, meta: FsMeta) -> bool {
    &&& n.spec_path() == path
    &&& n.spec_is_dir() == meta.is_dir
    &&& n.spec_lwt() == meta.mtime
    &&& (if meta.is_dir {
        n.spec_size() == 0 && n.spec_count_dir() == Some(0u64) && n.spec_count_file() == Some(
            0u64,
        ) && n.spec_dirty() == true
    } else {
        n.spec_size() == meta.size
    })
}

impl JNode {
    /// The canonical absolute path this node stands for.
    pub open spec fn spec_path(&self) -> Seq<u8> {
        match self {
            JNode::File(f) => f.abspath@,
            JNode::Dir(d) => d.abspath@,
        }
    }

    pub open spec fn spec_is_dir(&self) -> bool {
        match self {
            JNode::File(_) => false,
            JNode::Dir(_) => true,
        }
    }

    /// File size, or a directory's aggregate size.
    pub open spec fn spec_size(&self) -> u64 {
        match self {
            JNode::File(f) => f.size,
            JNode::Dir(d) => d.size,
        }
    }

    pub open spec fn spec_lwt(&self) -> u64 {
        match self {
            JNode::File(f) => f.last_write_time,
            JNode::Dir(d) => d.last_write_time,
        }
    }

    pub open spec fn spec_count_dir(&self) -> Option<u64> {
        match self {
            JNode::File(_) => None,
            JNode::Dir(d) => Some(d.count_dir),
        }
    }

    pub open spec fn spec_count_file(&self) -> Option<u64> {
        match self {
            JNode::File(_) => None,
            JNode::Dir(d) => Some(d.count_file),
        }
    }

    /// Directories carry the dirty flag; a file is never dirty.
    pub open spec fn spec_dirty(&self) -> bool {
        match self {
            JNode::File(_) => false,
            JNode::Dir(d) => d._dirty,
        }
    }

    /// Builds the node a fresh observation produces.
    pub fn new(path: Vec<u8>, meta: &FsMeta) -> (r: JNode)
        ensures
            is_fresh_node(r, path@, *meta),
    {
        if meta.is_dir {
            JNode::Dir(
                DirNode {
                    abspath: path,
                    last_write_time: meta.mtime,
                    size: 0,
                    count_dir: 0,
                    count_file: 0,
                    _dirty: true,
                },
            )
        } else {
            JNode::File(
                FileNode { abspath: path, last_write_time: meta.mtime, size: meta.size },
            )
        }
    }

    pub fn path(&self) -> (r: &Vec<u8>)
        ensures
            r@ == self.spec_path(),
    {
        match self {
            JNode::File(f) => &f.abspath,
            JNode::Dir(d) => &d.abspath,
        }
    }

    pub fn is_dir(&self) -> (r: bool)
        ensures
            r == self.spec_is_dir(),
    {
        match self {
            JNode::File(_) => false,
            JNode::Dir(_) => true,
        }
    }

    pub fn size(&self) -> (r: u64)
        ensures
            r == self.spec_size(),
    {
        match self {
            JNode::File(f) => f.size,
            JNode::Dir(d) => d.size,
        }
    }

    pub fn last_modified(&self) -> (r: u64)
        ensures
            r == self.spec_lwt(),
    {
        match self {
            JNode::File(f) => f.last_write_time,
            JNode::Dir(d) => d.last_write_time,
        }
    }

    pub fn count_dir(&self) -> (r: Option<u64>)
        ensures
            r == self.spec_count_dir(),
    {
        match self {
            JNode::File(_) => None,
            JNode::Dir(d) => Some(d.count_dir),
        }
    }

    pub fn count_file(&self) -> (r: Option<u64>)
        ensures
            r == self.spec_count_file(),
    {
        match self {
            JNode::File(_) => None,
            JNode::Dir(d) => Some(d.count_file),
        }
    }

    pub fn is_dirty(&self) -> (r: bool)
        ensures
            r == self.spec_dirty(),
    {
        match self {
            JNode::File(_) => false,
            JNode::Dir(d) => d._dirty,
        }
    }

    /// The basename of the node's path, for display.
    pub fn name(&self) -> (r: String)
        ensures
            vstd::utf8::valid_utf8(base_name(self.spec_path())) ==> vstd::utf8::encode_utf8(r@)
                == base_name(self.spec_path()),
    {
        let base = crate::paths::basename_of(self.path());
        bytes_to_string(&base)
    }

    /// Whether the snapshot still agrees with this node: a file must report
    /// the same mtime and size; a directory must report the same mtime and
    /// have its aggregates trusted (`_dirty` false).  A vanished path, or
    /// one that changed kind, is invalid.
    pub fn is_valid(&self, fs: &Fs) -> (r: bool)
        requires
            fs.wf(),
        ensures
            r == self.spec_valid(*fs),
    {
        let p = self.path();
        match fs.lookup(p) {
            None => false,
            Some(m) => {
                match self {
                    JNode::File(f) => !m.is_dir && m.mtime == f.last_write_time && m.size
                        == f.size,
                    JNode::Dir(d) => m.is_dir && !d._dirty && m.mtime == d.last_write_time,
                }
            },
        }
    }

    /// What `is_valid` decides, as a predicate over the snapshot.
    pub open spec fn spec_valid(&self, fs: Fs) -> bool {
        &&& fs@.contains_key(self.spec_path())
        &&& {
            let m = fs@[self.spec_path()];
            if self.spec_is_dir() {
                m.is_dir && !self.spec_dirty() && m.mtime == self.spec_lwt()
            } else {
                !m.is_dir && m.mtime == self.spec_lwt() && m.size == self.spec_size()
            }
        }
    }

    /// Partial mutation of the cached attributes.  A file ignores the
    /// aggregate and dirty arguments.
    pub fn set(
        &mut self,
        size: Option<u64>,
        last_write_time: Option<u64>,
        count_dir: Option<u64>,
        count_file: Option<u64>,
        dirty: Option<bool>,
    )
        ensures
            final (self).spec_path() == old(self).spec_path(),
            final (self).spec_is_dir() == old(self).spec_is_dir(),
            size is Some ==> final (self).spec_size() == size.unwrap(),
            size is None ==> final (self).spec_size() == old(self).spec_size(),
            last_write_time is Some ==> final (self).spec_lwt() == last_write_time.unwrap(),
            last_write_time is None ==> final (self).spec_lwt() == old(self).spec_lwt(),
            old(self).spec_is_dir() ==> {
                &&& (count_dir is Some ==> final (self).spec_count_dir() == count_dir)
                &&& (count_dir is None ==> final (self).spec_count_dir() == old(
                    self,
                ).spec_count_dir())
                &&& (count_file is Some ==> final (self).spec_count_file() == count_file)
                &&& (count_file is None ==> final (self).spec_count_file() == old(
                    self,
                ).spec_count_file())
                &&& (dirty is Some ==> final (self).spec_dirty() == dirty.unwrap())
                &&& (dirty is None ==> final (self).spec_dirty() == old(self).spec_dirty())
            },
            !old(self).spec_is_dir() ==> final (self).spec_count_dir() == old(
                self,
            ).spec_count_dir() && final (self).spec_count_file() == old(self).spec_count_file()
                && final (self).spec_dirty() == old(self).spec_dirty(),
    {
        match self {
            JNode::File(f) => {
                if let Some(s) = size {
                    f.size = s;
                }
                if let Some(t) = last_write_time {
                    f.last_write_time = t;
                }
            },
            JNode::Dir(d) => {
                if let Some(s) = size {
                    d.size = s;
                }
                if let Some(t) = last_write_time {
                    d.last_write_time = t;
                }
                if let Some(c) = count_dir {
                    d.count_dir = c;
                }
                if let Some(c) = count_file {
                    d.count_file = c;
                }
                if let Some(b) = dirty {
                    d._dirty = b;
                }
            },
        }
    }

    /// Overwrites the cached attributes from a persisted node of the same
    /// kind; the path is kept.
    pub fn load(&mut self, dumped: &JNode)
        requires
            old(self).spec_is_dir() == dumped.spec_is_dir(),
        ensures
            final (self).spec_path() == old(self).spec_path(),
            final (self).spec_is_dir() == old(self).spec_is_dir(),
            final (self).spec_size() == dumped.spec_size(),
            final (self).spec_lwt() == dumped.spec_lwt(),
            final (self).spec_count_dir() == dumped.spec_count_dir(),
            final (self).spec_count_file() == dumped.spec_count_file(),
            final (self).spec_dirty() == dumped.spec_dirty(),
    {
        match (self, dumped) {
            (JNode::File(me), JNode::File(other)) => {
                me.last_write_time = other.last_write_time;
                me.size = other.size;
            },
            (JNode::Dir(me), JNode::Dir(other)) => {
                me.last_write_time = other.last_write_time;
                me.size = other.size;
                me.count_dir = other.count_dir;
                me.count_file = other.count_file;
                me._dirty = other._dirty;
            },
            _ => {},
        }
    }

    /// An explicit copy whose path holds the same bytes.
    pub fn dup(&self) -> (r: JNode)
        ensures
            node_eqv(*self, r),
    {
        match self {
            JNode::File(f) => JNode::File(
                FileNode {
                    abspath: crate::paths::dup_bytes(&f.abspath),
                    last_write_time: f.last_write_time,
                    size: f.size,
                },
            ),
            JNode::Dir(d) => JNode::Dir(
                DirNode {
                    abspath: crate::paths::dup_bytes(&d.abspath),
                    last_write_time: d.last_write_time,
                    size: d.size,
                    count_dir: d.count_dir,
                    count_file: d.count_file,
                    _dirty: d._dirty,
                },
            ),
        }
    }
}

} // verus!
