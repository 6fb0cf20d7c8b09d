//! Path handling on byte strings.
//!
//! Every path the engine stores is a canonical absolute path, kept as its
//! UTF-8 bytes: it starts with `/`, has no empty segment, and does not end
//! with `/` unless it is the root `/` itself.  Caller-supplied paths are
//! brought into this form once, at the boundary, by [`normalize`], which
//! resolves `.` and `..` segments lexically.

use vstd::prelude::*;

verus! {

use vstd::string::StringSliceAdditionalSpecFns;

pub const SEP: u8 = 47;

pub const DOT: u8 = 46;

/// A canonical absolute path: `/`, or `/seg(/seg)*` with nonempty segments.
pub open spec fn is_canon_path(p: Seq<u8>) -> bool {
    &&& p.len() >= 1
    &&& p[0] == SEP
    &&& (p.len() == 1 || p[p.len() - 1] != SEP)
    &&& forall|i: int| 0 <= i < p.len() - 1 ==> !(#[trigger] p[i] == SEP && p[i + 1] == SEP)
}

/// The root path `/`, the only path that has no parent.
pub open spec fn is_root_path(p: Seq<u8>) -> bool {
    p =~= seq![SEP]
}

/// Index of the last separator in `p`, or -1 when there is none.
pub open spec fn last_sep(p: Seq<u8>) -> int
    decreases p.len(),
{
    if p.len() == 0 {
        -1
    } else if p[p.len() - 1] == SEP {
        p.len() - 1
    } else {
        last_sep(p.drop_last())
    }
}

/// The parent of a canonical path; the root is its own parent.
pub open spec fn parent_path(p: Seq<u8>) -> Seq<u8> {
    if last_sep(p) <= 0 {
        seq![SEP]
    } else {
        p.take(last_sep(p))
    }
}

/// The basename of a canonical path: everything after the last separator.
pub open spec fn base_name(p: Seq<u8>) -> Seq<u8> {
    p.skip(last_sep(p) + 1)
}

/// `p` is a strict descendant of `base`.
pub open spec fn under(base: Seq<u8>, p: Seq<u8>) -> bool {
    &&& p.len() > base.len()
    &&& p.take(base.len() as int) == base
    &&& (base.len() == 1 || p[base.len() as int] == SEP)
}

/// `p` equals `base` or is a strict descendant of it.
pub open spec fn under_eq(base: Seq<u8>, p: Seq<u8>) -> bool {
    p == base || under(base, p)
}

pub proof fn lemma_last_sep_range(p: Seq<u8>)
    ensures
        -1 <= last_sep(p) < p.len(),
        last_sep(p) >= 0 ==> p[last_sep(p)] == SEP,
        forall|j: int| last_sep(p) < j < p.len() ==> p[j] != SEP,
    decreases p.len(),
{
    if p.len() == 0 {
    } else if p[p.len() - 1] == SEP {
    } else {
        lemma_last_sep_range(p.drop_last());
        assert forall|j: int| last_sep(p) < j < p.len() implies p[j] != SEP by {
            if j < p.len() - 1 {
                assert(p.drop_last()[j] == p[j]);
            }
        }
    }
}

/// A canonical non-root path has a separator, and its parent is again
/// canonical and strictly shorter.
pub proof fn lemma_parent_canon(p: Seq<u8>)
    requires
        is_canon_path(p),
        p.len() > 1,
    ensures
        is_canon_path(parent_path(p)),
        parent_path(p).len() < p.len(),
        last_sep(p) >= 0,
    decreases p.len(),
{
    lemma_last_sep_range(p);
    assert(p[0] == SEP);
    if last_sep(p) <= 0 {
        assert(last_sep(p) == 0);
    } else {
        let k = last_sep(p);
        let q = p.take(k);
        assert(q[0] == p[0]);
        assert(q.len() == k);
        // q cannot end with SEP: p has no adjacent separators.
        if q.len() > 1 {
            assert(p[k - 1] == q[q.len() - 1]);
            assert(!(p[k - 1] == SEP && p[k] == SEP));
        }
        assert(forall|i: int|
            0 <= i < q.len() - 1 ==> !(#[trigger] q[i] == SEP && q[i + 1] == SEP)) by {
            assert(forall|i: int| 0 <= i < q.len() ==> #[trigger] q[i] == p[i]);
        }
    }
}

/// Copies the bytes of a string slice.
pub fn bytes_of(s: &str) -> (r: Vec<u8>)
    ensures
        r@ == s.spec_bytes(),
{
    let b = s.as_bytes();
    let mut r: Vec<u8> = Vec::new();
    r.extend_from_slice(b);
    proof {
        assert(r@ =~= s.spec_bytes());
    }
    r
}

/// Byte-string equality.
pub fn bytes_eq(a: &[u8], b: &[u8]) -> (r: bool)
    ensures
        r == (a@ == b@),
{
    if a.len() != b.len() {
        proof {
            assert(a@.len() != b@.len());
        }
        return false;
    }
    let mut i: usize = 0;
    while i < a.len()
        invariant
            0 <= i <= a@.len(),
            a@.len() == b@.len(),
            forall|j: int| 0 <= j < i ==> a@[j] == b@[j],
        decreases a@.len() - i,
    {
        if a[i] != b[i] {
            return false;
        }
        i = i + 1;
    }
    proof {
        assert(a@ =~= b@);
    }
    true
}

/// Index just past the last separator of `p`: `last_sep(p@) + 1` as a usize.
fn after_last_sep(p: &Vec<u8>) -> (r: usize)
    ensures
        r == last_sep(p@) + 1,
{
    let mut i: usize = p.len();
    proof {
        assert(p@.take(p@.len() as int) =~= p@);
    }
    while i > 0
        invariant
            0 <= i <= p@.len(),
            last_sep(p@) == last_sep(p@.take(i as int)),
        decreases i,
    {
        proof {
            assert(p@.take(i as int).drop_last() =~= p@.take(i as int - 1));
            assert(p@.take(i as int)[i - 1] == p@[i - 1]);
        }
        if p[i - 1] == SEP {
            proof {
                assert(last_sep(p@.take(i as int)) == i - 1);
            }
            return i;
        }
        i = i - 1;
    }
    proof {
        assert(p@.take(0) =~= Seq::<u8>::empty());
    }
    0
}

/// The parent of a canonical non-root path.
pub fn parent_of(p: &Vec<u8>) -> (r: Vec<u8>)
    requires
        is_canon_path(p@),
        p@.len() > 1,
    ensures
        r@ == parent_path(p@),
        is_canon_path(r@),
        r@.len() < p@.len(),
{
    proof {
        lemma_parent_canon(p@);
        lemma_last_sep_range(p@);
    }
    let k = after_last_sep(p);
    let mut r: Vec<u8> = Vec::new();
    if k <= 1 {
        r.push(SEP);
        proof {
            assert(r@ =~= seq![SEP]);
        }
        return r;
    }
    let mut i: usize = 0;
    while i < k - 1
        invariant
            0 <= i <= k - 1,
            k - 1 <= p@.len(),
            r@ == p@.take(i as int),
        decreases k - 1 - i,
    {
        r.push(p[i]);
        proof {
            assert(r@ =~= p@.take(i as int + 1));
        }
        i = i + 1;
    }
    r
}

/// The basename of a canonical path.
pub fn basename_of(p: &Vec<u8>) -> (r: Vec<u8>)
    ensures
        r@ == base_name(p@),
{
    proof {
        lemma_last_sep_range(p@);
    }
    let k = after_last_sep(p);
    let mut r: Vec<u8> = Vec::new();
    let mut i: usize = k;
    while i < p.len()
        invariant
            last_sep(p@) + 1 == k,
            k <= i <= p@.len(),
            r@ == p@.subrange(k as int, i as int),
        decreases p@.len() - i,
    {
        r.push(p[i]);
        proof {
            assert(r@ =~= p@.subrange(k as int, i as int + 1));
        }
        i = i + 1;
    }
    proof {
        assert(r@ =~= base_name(p@));
    }
    r
}

/// Whether `p` is a strict descendant of `base`, both canonical.
pub fn is_under(base: &Vec<u8>, p: &Vec<u8>) -> (r: bool)
    requires
        base@.len() >= 1,
    ensures
        r == under(base@, p@),
{
    if p.len() <= base.len() {
        return false;
    }
    if !(base.len() == 1 || p[base.len()] == SEP) {
        return false;
    }
    let mut i: usize = 0;
    while i < base.len()
        invariant
            0 <= i <= base@.len(),
            base@.len() < p@.len(),
            forall|j: int| 0 <= j < i ==> p@[j] == base@[j],
        decreases base@.len() - i,
    {
        if p[i] != base[i] {
            proof {
                assert(p@.take(base@.len() as int)[i as int] == p@[i as int]);
            }
            return false;
        }
        i = i + 1;
    }
    proof {
        assert(p@.take(base@.len() as int) =~= base@);
    }
    true
}

/// Index of the first separator in `s`, or -1 when there is none.
pub open spec fn first_sep(s: Seq<u8>) -> int
    decreases s.len(),
{
    if s.len() == 0 {
        -1
    } else if s[0] == SEP {
        0
    } else {
        let r = first_sep(s.drop_first());
        if r < 0 {
            -1
        } else {
            r + 1
        }
    }
}

/// Splits a byte string on separators; the result always has at least one
/// (possibly empty) segment.
pub open spec fn split_segs(s: Seq<u8>) -> Seq<Seq<u8>>
    decreases s.len() via split_segs_dec
{
    if first_sep(s) < 0 {
        seq![s]
    } else {
        seq![s.take(first_sep(s))] + split_segs(s.skip(first_sep(s) + 1))
    }
}

#[via_fn]
proof fn split_segs_dec(s: Seq<u8>) {
    lemma_first_sep_range(s);
}

/// Lexical canonicalization over segments: empty and `.` segments vanish,
/// `..` removes the preceding segment (and is a no-op at the root).
pub open spec fn norm_segs(segs: Seq<Seq<u8>>) -> Seq<Seq<u8>>
    decreases segs.len(),
{
    if segs.len() == 0 {
        Seq::empty()
    } else {
        let rest = norm_segs(segs.drop_last());
        let s = segs.last();
        if s.len() == 0 || s == seq![DOT] {
            rest
        } else if s == seq![DOT, DOT] {
            if rest.len() == 0 {
                rest
            } else {
                rest.drop_last()
            }
        } else {
            rest.push(s)
        }
    }
}

/// `/seg/seg/...`: each segment preceded by a separator.
pub open spec fn joined(segs: Seq<Seq<u8>>) -> Seq<u8>
    decreases segs.len(),
{
    if segs.len() == 0 {
        Seq::empty()
    } else {
        joined(segs.drop_last()) + seq![SEP] + segs.last()
    }
}

/// Renders a segment list as a canonical absolute path.
pub open spec fn render_path(segs: Seq<Seq<u8>>) -> Seq<u8> {
    if segs.len() == 0 {
        seq![SEP]
    } else {
        joined(segs)
    }
}

/// Lexical canonicalization of a caller-supplied absolute path; `None` for a
/// path that is not absolute.
pub open spec fn normalize_spec(s: Seq<u8>) -> Option<Seq<u8>> {
    if s.len() == 0 || s[0] != SEP {
        None
    } else {
        Some(render_path(norm_segs(split_segs(s))))
    }
}

/// Every segment is nonempty and free of separators.
pub open spec fn all_good_segs(segs: Seq<Seq<u8>>) -> bool {
    forall|i: int|
        0 <= i < segs.len() ==> (#[trigger] segs[i]).len() > 0 && (forall|j: int|
            0 <= j < segs[i].len() ==> #[trigger] segs[i][j] != SEP)
}

pub proof fn lemma_first_sep_range(s: Seq<u8>)
    ensures
        -1 <= first_sep(s) < s.len(),
        first_sep(s) >= 0 ==> s[first_sep(s)] == SEP,
        forall|j: int| 0 <= j < first_sep(s) ==> s[j] != SEP,
        first_sep(s) < 0 ==> forall|j: int| 0 <= j < s.len() ==> s[j] != SEP,
    decreases s.len(),
{
    if s.len() == 0 {
    } else if s[0] == SEP {
    } else {
        lemma_first_sep_range(s.drop_first());
        assert forall|j: int| 0 <= j < first_sep(s) implies s[j] != SEP by {
            if j > 0 {
                assert(s.drop_first()[j - 1] == s[j]);
            }
        }
        if first_sep(s) < 0 {
            assert forall|j: int| 0 <= j < s.len() implies s[j] != SEP by {
                if j > 0 {
                    assert(s.drop_first()[j - 1] == s[j]);
                }
            }
        }
    }
}

/// Pins down `first_sep` from an explicit witness position.
pub proof fn lemma_first_sep_at(s: Seq<u8>, k: int)
    requires
        0 <= k < s.len(),
        s[k] == SEP,
        forall|j: int| 0 <= j < k ==> s[j] != SEP,
    ensures
        first_sep(s) == k,
    decreases s.len(),
{
    if k == 0 {
    } else {
        lemma_first_sep_at(s.drop_first(), k - 1);
    }
}

/// The segments produced by `split_segs` contain no separator.
pub proof fn lemma_split_sep_free(s: Seq<u8>)
    ensures
        all_segs_sep_free(split_segs(s)),
    decreases s.len(),
{
    lemma_first_sep_range(s);
    if first_sep(s) < 0 {
    } else {
        lemma_split_sep_free(s.skip(first_sep(s) + 1));
        let head = s.take(first_sep(s));
        let rest = split_segs(s.skip(first_sep(s) + 1));
        assert forall|i: int| 0 <= i < split_segs(s).len() implies (forall|j: int|
            0 <= j < (#[trigger] split_segs(s)[i]).len() ==> #[trigger] split_segs(s)[i][j]
                != SEP) by {
            if i == 0 {
                assert(split_segs(s)[0] == head);
            } else {
                assert(split_segs(s)[i] == rest[i - 1]);
            }
        }
    }
}

/// Every segment is free of separators (it may be empty).
pub open spec fn all_segs_sep_free(segs: Seq<Seq<u8>>) -> bool {
    forall|i: int|
        0 <= i < segs.len() ==> (forall|j: int|
            0 <= j < (#[trigger] segs[i]).len() ==> #[trigger] segs[i][j] != SEP)
}

/// Canonicalized segments are nonempty and separator-free.
pub proof fn lemma_norm_good(segs: Seq<Seq<u8>>)
    requires
        all_segs_sep_free(segs),
    ensures
        all_good_segs(norm_segs(segs)),
    decreases segs.len(),
{
    if segs.len() == 0 {
    } else {
        assert(all_segs_sep_free(segs.drop_last())) by {
            assert(forall|i: int|
                0 <= i < segs.len() - 1 ==> #[trigger] segs.drop_last()[i] == segs[i]);
        }
        lemma_norm_good(segs.drop_last());
        let rest = norm_segs(segs.drop_last());
        let s = segs.last();
        if s.len() == 0 || s == seq![DOT] {
        } else if s == seq![DOT, DOT] {
            if rest.len() > 0 {
                assert(forall|i: int|
                    0 <= i < rest.len() - 1 ==> #[trigger] rest.drop_last()[i] == rest[i]);
            }
        } else {
            let out = rest.push(s);
            assert forall|i: int| 0 <= i < out.len() implies (#[trigger] out[i]).len() > 0 && (
            forall|j: int| 0 <= j < out[i].len() ==> #[trigger] out[i][j] != SEP) by {
                if i < rest.len() {
                    assert(out[i] == rest[i]);
                } else {
                    assert(out[i] == s);
                }
            }
        }
    }
}

/// A join of good segments is a canonical path.
pub proof fn lemma_joined_canon(segs: Seq<Seq<u8>>)
    requires
        all_good_segs(segs),
        segs.len() >= 1,
    ensures
        is_canon_path(joined(segs)),
        joined(segs).len() > 1,
    decreases segs.len(),
{
    let s = segs.last();
    let w = joined(segs);
    assert(segs[segs.len() - 1] == s);
    if segs.len() == 1 {
        assert(joined(segs.drop_last()) =~= Seq::<u8>::empty());
        assert(w =~= seq![SEP] + s);
        assert(w[0] == SEP);
        assert forall|i: int| 0 <= i < w.len() - 1 implies !(#[trigger] w[i] == SEP && w[i + 1]
            == SEP) by {
            if i > 0 {
                assert(w[i] == s[i - 1]);
            } else {
                assert(w[1] == s[0]);
            }
        }
    } else {
        assert(all_good_segs(segs.drop_last())) by {
            assert(forall|i: int|
                0 <= i < segs.len() - 1 ==> #[trigger] segs.drop_last()[i] == segs[i]);
        }
        lemma_joined_canon(segs.drop_last());
        let v = joined(segs.drop_last());
        assert(w == v + seq![SEP] + s);
        assert(w[0] == v[0]);
        assert(w[w.len() - 1] == s[s.len() - 1]);
        assert forall|i: int| 0 <= i < w.len() - 1 implies !(#[trigger] w[i] == SEP && w[i + 1]
            == SEP) by {
            if i < v.len() - 1 {
                assert(w[i] == v[i] && w[i + 1] == v[i + 1]);
            } else if i == v.len() - 1 {
                assert(w[i] == v[v.len() - 1]);
            } else if i == v.len() {
                assert(w[i] == SEP && w[i + 1] == s[0]);
            } else {
                assert(w[i] == s[i - v.len() - 1]);
                assert(w[i + 1] == s[i - v.len()]);
            }
        }
    }
}

/// The rendering of canonicalized segments is canonical.
pub proof fn lemma_normalize_canon(s: Seq<u8>)
    requires
        normalize_spec(s) is Some,
    ensures
        is_canon_path(normalize_spec(s).unwrap()),
{
    lemma_split_sep_free(s);
    lemma_norm_good(split_segs(s));
    let segs = norm_segs(split_segs(s));
    if segs.len() == 0 {
        assert(is_canon_path(seq![SEP]));
    } else {
        lemma_joined_canon(segs);
    }
}

/// Copies a byte vector.
pub fn dup_bytes(v: &Vec<u8>) -> (r: Vec<u8>)
    ensures
        r@ == v@,
{
    let mut r: Vec<u8> = Vec::new();
    let mut i: usize = 0;
    while i < v.len()
        invariant
            0 <= i <= v@.len(),
            r@ == v@.take(i as int),
        decreases v@.len() - i,
    {
        r.push(v[i]);
        proof {
            assert(r@ =~= v@.take(i as int + 1));
        }
        i = i + 1;
    }
    proof {
        assert(r@ =~= v@);
    }
    r
}

/// Appends a segment, tracking the deep view.
fn push_seg(r: &mut Vec<Vec<u8>>, s: Vec<u8>)
    ensures
        final (r).deep_view() == old(r).deep_view().push(s@),
{
    let ghost before = r@;
    let ghost dv = r.deep_view();
    let ghost ds = s@;
    r.push(s);
    proof {
        assert(r.deep_view() =~= dv.push(ds)) by {
            assert(r@ == before.push(r@[before.len() as int]));
            assert forall|k: int| 0 <= k < before.len() implies r.deep_view()[k] == dv[k] by {
                assert(r@[k] == before[k]);
            }
            assert(r.deep_view()[before.len() as int] =~= ds);
        }
    }
}

/// Drops the last segment, tracking the deep view.
fn pop_seg(r: &mut Vec<Vec<u8>>)
    requires
        old(r)@.len() > 0,
    ensures
        final (r).deep_view() == old(r).deep_view().drop_last(),
{
    let ghost before = r@;
    let ghost dv = r.deep_view();
    let _ = r.pop();
    proof {
        assert(r.deep_view() =~= dv.drop_last()) by {
            assert forall|k: int| 0 <= k < r@.len() implies r.deep_view()[k] == dv[k] by {
                assert(r@[k] == before[k]);
            }
        }
    }
}

/// Splits bytes on separators, mirroring `split_segs`.
fn split_bytes(s: &Vec<u8>) -> (r: Vec<Vec<u8>>)
    ensures
        r.deep_view() == split_segs(s@),
{
    let mut r: Vec<Vec<u8>> = Vec::new();
    let mut cur: Vec<u8> = Vec::new();
    let ghost mut start: int = 0;
    let mut i: usize = 0;
    proof {
        assert(s@.skip(0) =~= s@);
    }
    while i < s.len()
        invariant
            0 <= start <= i <= s@.len(),
            cur@ == s@.subrange(start, i as int),
            forall|j: int| start <= j < i ==> s@[j] != SEP,
            split_segs(s@) == r.deep_view() + split_segs(s@.skip(start)),
        decreases s@.len() - i,
    {
        let b = s[i];
        if b == SEP {
            proof {
                let t = s@.skip(start);
                assert forall|j: int| 0 <= j < i - start implies t[j] != SEP by {
                    assert(t[j] == s@[start + j]);
                }
                assert(t[i - start] == s@[i as int]);
                lemma_first_sep_at(t, i - start);
                assert(t.take(i - start) =~= s@.subrange(start, i as int));
                assert(t.skip(i - start + 1) =~= s@.skip(i as int + 1));
                assert(split_segs(t) == seq![cur@] + split_segs(s@.skip(i as int + 1)));
            }
            let ghost dv = r.deep_view();
            let ghost dc = cur@;
            push_seg(&mut r, cur);
            cur = Vec::new();
            proof {
                assert(dv + split_segs(s@.skip(start)) =~= dv.push(dc) + split_segs(s@.skip(
                    i as int + 1,
                )));
                start = i as int + 1;
                assert(cur@ =~= s@.subrange(start, i as int + 1));
            }
        } else {
            cur.push(b);
            proof {
                assert(cur@ =~= s@.subrange(start, i as int + 1));
            }
        }
        i = i + 1;
    }
    proof {
        let t = s@.skip(start);
        assert forall|j: int| 0 <= j < t.len() implies t[j] != SEP by {
            assert(t[j] == s@[start + j]);
        }
        lemma_first_sep_range(t);
        if first_sep(t) >= 0 {
            assert(t[first_sep(t)] != SEP);
            assert(false);
        }
        assert(split_segs(t) == seq![t]);
        assert(t =~= cur@);
    }
    let ghost dv = r.deep_view();
    let ghost dc = cur@;
    push_seg(&mut r, cur);
    proof {
        assert(dv + split_segs(s@.skip(start)) =~= dv.push(dc));
    }
    r
}

/// Folds segments through the `.`/`..` rules, mirroring `norm_segs`.
fn fold_segs(segs: &Vec<Vec<u8>>) -> (r: Vec<Vec<u8>>)
    ensures
        r.deep_view() == norm_segs(segs.deep_view()),
{
    let mut r: Vec<Vec<u8>> = Vec::new();
    let mut i: usize = 0;
    while i < segs.len()
        invariant
            0 <= i <= segs@.len(),
            r.deep_view() == norm_segs(segs.deep_view().take(i as int)),
        decreases segs@.len() - i,
    {
        proof {
            assert(segs.deep_view().take(i as int + 1).drop_last() =~= segs.deep_view().take(
                i as int,
            ));
            assert(segs.deep_view().take(i as int + 1).last() == segs.deep_view()[i as int]);
        }
        let s = &segs[i];
        proof {
            assert(s@ =~= segs.deep_view()[i as int]);
        }
        if s.len() == 0 || (s.len() == 1 && s[0] == DOT) {
            proof {
                if s@.len() == 1 && s@[0] == DOT {
                    assert(s@ =~= seq![DOT]);
                }
            }
        } else if s.len() == 2 && s[0] == DOT && s[1] == DOT {
            proof {
                assert(s@ =~= seq![DOT, DOT]);
            }
            if r.len() > 0 {
                pop_seg(&mut r);
            }
        } else {
            proof {
                assert(s@ != seq![DOT]);
                assert(s@ != seq![DOT, DOT]);
            }
            let c = dup_bytes(s);
            push_seg(&mut r, c);
        }
        i = i + 1;
    }
    proof {
        assert(segs.deep_view().take(segs@.len() as int) =~= segs.deep_view());
    }
    r
}

/// Renders segments as an absolute path, mirroring `render_path`.
fn render_segs(segs: &Vec<Vec<u8>>) -> (r: Vec<u8>)
    ensures
        r@ == render_path(segs.deep_view()),
{
    let mut out: Vec<u8> = Vec::new();
    if segs.len() == 0 {
        out.push(SEP);
        proof {
            assert(out@ =~= seq![SEP]);
        }
        return out;
    }
    let mut i: usize = 0;
    while i < segs.len()
        invariant
            0 <= i <= segs@.len(),
            out@ == joined(segs.deep_view().take(i as int)),
        decreases segs@.len() - i,
    {
        proof {
            assert(joined(segs.deep_view().take(0)) =~= Seq::<u8>::empty());
        }
        out.push(SEP);
        let s = &segs[i];
        let mut j: usize = 0;
        while j < s.len()
            invariant
                0 <= j <= s@.len(),
                s@ == segs.deep_view()[i as int],
                i < segs@.len(),
                out@ == joined(segs.deep_view().take(i as int)) + seq![SEP] + s@.take(j as int),
            decreases s@.len() - j,
        {
            out.push(s[j]);
            proof {
                assert(out@ =~= joined(segs.deep_view().take(i as int)) + seq![SEP] + s@.take(
                    j as int + 1,
                ));
            }
            j = j + 1;
        }
        proof {
            let t = segs.deep_view().take(i as int + 1);
            assert(t.drop_last() =~= segs.deep_view().take(i as int));
            assert(t.last() == segs.deep_view()[i as int]);
            assert(s@.take(s@.len() as int) =~= s@);
            assert(out@ =~= joined(t));
        }
        i = i + 1;
    }
    proof {
        assert(segs.deep_view().take(segs@.len() as int) =~= segs.deep_view());
    }
    out
}

/// Brings a caller-supplied absolute path into canonical form, resolving `.`
/// and `..` lexically; `None` when the path is not absolute.
pub fn normalize(s: &Vec<u8>) -> (r: Option<Vec<u8>>)
    ensures
        r is Some <==> normalize_spec(s@) is Some,
        r is Some ==> r.unwrap()@ == normalize_spec(s@).unwrap() && is_canon_path(r.unwrap()@),
{
    if s.len() == 0 || s[0] != SEP {
        return None;
    }
    let segs = split_bytes(s);
    let folded = fold_segs(&segs);
    let out = render_segs(&folded);
    proof {
        lemma_normalize_canon(s@);
    }
    Some(out)
}

/// Every canonical path is the root or lies under it.
pub proof fn lemma_root_under(q: Seq<u8>)
    requires
        is_canon_path(q),
    ensures
        under_eq(seq![SEP], q),
{
    if q.len() == 1 {
        assert(q =~= seq![SEP]);
    } else {
        assert(q.take(1) =~= seq![SEP]);
    }
}

/// A strict ancestor of a canonical non-root path is the parent or lies
/// under-or-equal to the parent.
pub proof fn lemma_longest_prefix(a: Seq<u8>, p: Seq<u8>)
    requires
        is_canon_path(a),
        is_canon_path(p),
        p.len() > 1,
        under(a, p),
    ensures
        under_eq(a, parent_path(p)),
{
    lemma_last_sep_range(p);
    lemma_parent_canon(p);
    if a.len() == 1 {
        assert(a =~= seq![SEP]);
        lemma_root_under(parent_path(p));
    } else {
        assert(p[a.len() as int] == SEP);
        assert(a.len() <= last_sep(p));
        let k = last_sep(p);
        if k == 0 {
            assert(false);
        }
        let par = p.take(k);
        assert(parent_path(p) == par);
        if a.len() == k {
            assert(a =~= par) by {
                assert(forall|i: int| 0 <= i < k ==> a[i] == p.take(a.len() as int)[i]);
            }
        } else {
            assert(a.len() < k);
            assert(par.take(a.len() as int) =~= p.take(a.len() as int));
            assert(par[a.len() as int] == p[a.len() as int]);
            assert(under(a, par));
        }
    }
}

/// Whether a canonical path is the filesystem root, the one path without a
/// parent.
pub fn is_root(path: &Vec<u8>) -> (r: bool)
    ensures
        r == is_root_path(path@),
{
    let r = path.len() == 1 && path[0] == SEP;
    proof {
        if r {
            assert(path@ =~= seq![SEP]);
        }
        if is_root_path(path@) {
            assert(path@.len() == 1 && path@[0] == SEP);
        }
    }
    r
}

/// The parent of a path, as a path value of its own; the root is its own
/// parent.
pub fn get_parent_pathbuf(path: &Vec<u8>) -> (r: Vec<u8>)
    requires
        is_canon_path(path@),
    ensures
        r@ == (if is_root_path(path@) {
            path@
        } else {
            parent_path(path@)
        }),
{
    if path.len() == 1 {
        proof {
            assert(path@ =~= seq![SEP]);
        }
        dup_bytes(path)
    } else {
        parent_of(path)
    }
}

/// Two ancestors of the same path are comparable: the shorter one is an
/// ancestor of (or equal to) the longer one.
pub proof fn lemma_ancestors_comparable(a: Seq<u8>, b: Seq<u8>, c: Seq<u8>)
    requires
        under(a, c),
        under(b, c),
        a.len() <= b.len(),
    ensures
        under_eq(a, b),
{
    assert(c.take(b.len() as int).take(a.len() as int) =~= c.take(a.len() as int));
    if a.len() == b.len() {
        assert(a =~= b);
    } else {
        assert(b.take(a.len() as int) == a);
        if a.len() > 1 {
            assert(b[a.len() as int] == c.take(b.len() as int)[a.len() as int]);
            assert(b[a.len() as int] == c[a.len() as int]);
        }
    }
}

/// Strict descendance composes.
pub proof fn lemma_under_trans(a: Seq<u8>, b: Seq<u8>, c: Seq<u8>)
    requires
        under(a, b),
        under(b, c),
    ensures
        under(a, c),
{
    assert(c.take(b.len() as int).take(a.len() as int) =~= c.take(a.len() as int));
    assert(c.take(a.len() as int) == b.take(a.len() as int));
    if a.len() > 1 {
        assert(c[a.len() as int] == c.take(b.len() as int)[a.len() as int]);
        assert(c[a.len() as int] == b[a.len() as int]);
    }
}

/// An ancestor-or-self of a strict ancestor is a strict ancestor.
pub proof fn lemma_under_eq_then_under(a: Seq<u8>, b: Seq<u8>, c: Seq<u8>)
    requires
        under_eq(a, b),
        under(b, c),
    ensures
        under(a, c),
{
    if a == b {
    } else {
        lemma_under_trans(a, b, c);
    }
}

/// Descendance-or-equality composes.
pub proof fn lemma_under_eq_trans(a: Seq<u8>, b: Seq<u8>, c: Seq<u8>)
    requires
        under_eq(a, b),
        under_eq(b, c),
    ensures
        under_eq(a, c),
{
    if a == b || b == c {
    } else {
        lemma_under_trans(a, b, c);
    }
}

/// The parent of a canonical non-root path is an ancestor-or-self domain
/// prefix: the path lies strictly under its parent.
pub proof fn lemma_under_parent(p: Seq<u8>)
    requires
        is_canon_path(p),
        p.len() > 1,
    ensures
        under(parent_path(p), p),
    decreases p.len(),
{
    lemma_last_sep_range(p);
    lemma_parent_canon(p);
    let k = last_sep(p);
    if k <= 0 {
        assert(k == 0);
        assert(parent_path(p) =~= seq![SEP]);
        assert(p.take(1) =~= seq![SEP]);
    } else {
        assert(p.take(k) == parent_path(p));
        assert(p[k] == SEP);
    }
}

} // verus!
