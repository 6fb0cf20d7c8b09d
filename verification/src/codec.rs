//! The cache file format: a tabular text with a header row and one record
//! per node, comma-separated, with the path quoted (internal quotes
//! doubled).  Encoding and parsing are each other's inverses, which is what
//! makes a dumped index reloadable.

use vstd::prelude::*;

verus! {

pub const QUOTE: u8 = 34;

pub const COMMA: u8 = 44;

pub const NEWLINE: u8 = 10;

/// One record as the file stores it: path bytes, mtime, size, directory
/// count, file count, dirty flag.
pub type RowV = (Seq<u8>, u64, u64, u64, u64, bool);

/// Decimal digits of `n`, most significant first.
pub open spec fn dec_of(n: nat) -> Seq<u8>
    decreases n,
{
    if n < 10 {
        seq![(48 + n) as u8]
    } else {
        dec_of(n / 10).push((48 + n % 10) as u8)
    }
}

/// Value of a digit string, most significant first.
pub open spec fn val_of(s: Seq<u8>) -> nat
    decreases s.len(),
{
    if s.len() == 0 {
        0
    } else {
        val_of(s.drop_last()) * 10 + (s.last() - 48) as nat
    }
}

pub open spec fn is_digit(b: u8) -> bool {
    48 <= b <= 57
}

pub open spec fn all_digits(s: Seq<u8>) -> bool {
    forall|i: int| 0 <= i < s.len() ==> is_digit(#[trigger] s[i])
}

/// Path bytes with internal quotes doubled.
pub open spec fn escape(s: Seq<u8>) -> Seq<u8>
    decreases s.len(),
{
    if s.len() == 0 {
        Seq::empty()
    } else if s[0] == QUOTE {
        seq![QUOTE, QUOTE] + escape(s.drop_first())
    } else {
        seq![s[0]] + escape(s.drop_first())
    }
}

pub open spec fn quoted(s: Seq<u8>) -> Seq<u8> {
    seq![QUOTE] + escape(s) + seq![QUOTE]
}

pub open spec fn bool_bytes(b: bool) -> Seq<u8> {
    if b {
        seq![116u8, 114u8, 117u8, 101u8]
    } else {
        seq![102u8, 97u8, 108u8, 115u8, 101u8]
    }
}

/// `abspath,last_write_time,size,count_dir,count_file,_dirty\n`
pub open spec fn header_bytes() -> Seq<u8> {
    seq![
        97u8, 98u8, 115u8, 112u8, 97u8, 116u8, 104u8, 44u8, 108u8, 97u8, 115u8, 116u8, 95u8,
        119u8, 114u8, 105u8, 116u8, 101u8, 95u8, 116u8, 105u8, 109u8, 101u8, 44u8, 115u8, 105u8,
        122u8, 101u8, 44u8, 99u8, 111u8, 117u8, 110u8, 116u8, 95u8, 100u8, 105u8, 114u8, 44u8,
        99u8, 111u8, 117u8, 110u8, 116u8, 95u8, 102u8, 105u8, 108u8, 101u8, 44u8, 95u8, 100u8,
        105u8, 114u8, 116u8, 121u8, 10u8,
    ]
}

pub open spec fn encode_row(r: RowV) -> Seq<u8> {
    quoted(r.0) + seq![COMMA] + dec_of(r.1 as nat) + seq![COMMA] + dec_of(r.2 as nat) + seq![COMMA]
        + dec_of(r.3 as nat) + seq![COMMA] + dec_of(r.4 as nat) + seq![COMMA] + bool_bytes(r.5)
        + seq![NEWLINE]
}

pub open spec fn encode_rows(rows: Seq<RowV>) -> Seq<u8>
    decreases rows.len(),
{
    if rows.len() == 0 {
        Seq::empty()
    } else {
        encode_row(rows[0]) + encode_rows(rows.drop_first())
    }
}

pub open spec fn encode_records(rows: Seq<RowV>) -> Seq<u8> {
    header_bytes() + encode_rows(rows)
}

/// Reads a quoted string: the bytes up to the closing quote (doubled quotes
/// become one), and the remainder.
pub open spec fn unq(s: Seq<u8>) -> Option<(Seq<u8>, Seq<u8>)>
    decreases s.len(),
{
    if s.len() == 0 {
        None
    } else if s[0] == QUOTE {
        if s.len() >= 2 && s[1] == QUOTE {
            match unq(s.skip(2)) {
                None => None,
                Some((p, rest)) => Some((seq![QUOTE] + p, rest)),
            }
        } else {
            Some((Seq::empty(), s.skip(1)))
        }
    } else {
        match unq(s.skip(1)) {
            None => None,
            Some((p, rest)) => Some((seq![s[0]] + p, rest)),
        }
    }
}

pub open spec fn parse_quoted(s: Seq<u8>) -> Option<(Seq<u8>, Seq<u8>)> {
    if s.len() == 0 || s[0] != QUOTE {
        None
    } else {
        unq(s.skip(1))
    }
}

/// Index of the first non-digit byte.
pub open spec fn digits_end(s: Seq<u8>) -> int
    decreases s.len(),
{
    if s.len() == 0 || !is_digit(s[0]) {
        0
    } else {
        1 + digits_end(s.drop_first())
    }
}

pub open spec fn parse_num(s: Seq<u8>) -> Option<(u64, Seq<u8>)> {
    let e = digits_end(s);
    if e == 0 {
        None
    } else if val_of(s.take(e)) > u64::MAX {
        None
    } else {
        Some((val_of(s.take(e)) as u64, s.skip(e)))
    }
}

pub open spec fn expect_byte(s: Seq<u8>, b: u8) -> Option<Seq<u8>> {
    if s.len() > 0 && s[0] == b {
        Some(s.skip(1))
    } else {
        None
    }
}

pub open spec fn parse_bool(s: Seq<u8>) -> Option<(bool, Seq<u8>)> {
    if s.len() >= 4 && s.take(4) == bool_bytes(true) {
        Some((true, s.skip(4)))
    } else if s.len() >= 5 && s.take(5) == bool_bytes(false) {
        Some((false, s.skip(5)))
    } else {
        None
    }
}

pub open spec fn parse_tail(s: Seq<u8>) -> Option<((u64, u64, u64, u64, bool), Seq<u8>)> {
    match parse_num(s) {
        None => None,
        Some((lwt, r3)) => match expect_byte(r3, COMMA) {
            None => None,
            Some(r4) => match parse_num(r4) {
                None => None,
                Some((size, r5)) => match expect_byte(r5, COMMA) {
                    None => None,
                    Some(r6) => match parse_num(r6) {
                        None => None,
                        Some((cd, r7)) => match expect_byte(r7, COMMA) {
                            None => None,
                            Some(r8) => match parse_num(r8) {
                                None => None,
                                Some((cf, r9)) => match expect_byte(r9, COMMA) {
                                    None => None,
                                    Some(r10) => match parse_bool(r10) {
                                        None => None,
                                        Some((dirty, r11)) => match expect_byte(r11, NEWLINE) {
                                            None => None,
                                            Some(r12) => Some(((lwt, size, cd, cf, dirty), r12)),
                                        },
                                    },
                                },
                            },
                        },
                    },
                },
            },
        },
    }
}

pub open spec fn parse_row(s: Seq<u8>) -> Option<(RowV, Seq<u8>)> {
    match parse_quoted(s) {
        None => None,
        Some((path, r1)) => match expect_byte(r1, COMMA) {
            None => None,
            Some(r2) => match parse_tail(r2) {
                None => None,
                Some(((lwt, size, cd, cf, dirty), rest)) => Some(
                    ((path, lwt, size, cd, cf, dirty), rest),
                ),
            },
        },
    }
}

pub open spec fn parse_rows(s: Seq<u8>) -> Option<Seq<RowV>>
    decreases s.len(),
{
    if s.len() == 0 {
        Some(Seq::empty())
    } else {
        match parse_row(s) {
            None => None,
            Some((r, rest)) => if rest.len() < s.len() {
                match parse_rows(rest) {
                    None => None,
                    Some(rs) => Some(seq![r] + rs),
                }
            } else {
                None
            },
        }
    }
}

/// Parses a whole cache file: the exact header, then records to the end.
pub open spec fn parse_records(s: Seq<u8>) -> Option<Seq<RowV>> {
    if s.len() >= header_bytes().len() && s.take(header_bytes().len() as int) == header_bytes() {
        parse_rows(s.skip(header_bytes().len() as int))
    } else {
        None
    }
}

// ----------------------------------------------------------------------
// Executable encoding.
// ----------------------------------------------------------------------
/// Appends the decimal digits of `n`.
pub fn enc_u64(n: u64, out: &mut Vec<u8>)
    ensures
        final (out)@ == old(out)@ + dec_of(n as nat),
    decreases n,
{
    if n < 10 {
        out.push((48 + n as u8) as u8);
        proof {
            assert(final (out)@ =~= old(out)@ + dec_of(n as nat));
        }
    } else {
        enc_u64(n / 10, out);
        out.push((48 + (n % 10) as u8) as u8);
        proof {
            assert(dec_of(n as nat) == dec_of(n as nat / 10).push((48 + n as nat % 10) as u8));
            assert(final (out)@ =~= old(out)@ + dec_of(n as nat));
        }
    }
}

/// Escaping distributes over appending one byte.
proof fn lemma_escape_push(s: Seq<u8>, b: u8)
    ensures
        escape(s.push(b)) == escape(s) + (if b == QUOTE {
            seq![QUOTE, QUOTE]
        } else {
            seq![b]
        }),
    decreases s.len(),
{
    let tail: Seq<u8> = if b == QUOTE {
        seq![QUOTE, QUOTE]
    } else {
        seq![b]
    };
    if s.len() == 0 {
        assert(s.push(b)[0] == b);
        assert(s.push(b).drop_first() =~= Seq::<u8>::empty());
        assert(escape(Seq::<u8>::empty()) =~= Seq::<u8>::empty());
        assert(s =~= Seq::<u8>::empty());
        assert(escape(s.push(b)) =~= escape(s) + tail);
    } else {
        lemma_escape_push(s.drop_first(), b);
        assert(s.push(b)[0] == s[0]);
        assert(s.push(b).drop_first() =~= s.drop_first().push(b));
        if s[0] == QUOTE {
            assert(escape(s.push(b)) == seq![QUOTE, QUOTE] + escape(s.drop_first().push(b)));
            assert(escape(s.push(b)) =~= escape(s) + tail);
        } else {
            assert(escape(s.push(b)) == seq![s[0]] + escape(s.drop_first().push(b)));
            assert(escape(s.push(b)) =~= escape(s) + tail);
        }
    }
}

/// Appends the quoted form of `p`.
pub fn enc_quoted(p: &Vec<u8>, out: &mut Vec<u8>)
    ensures
        final (out)@ == old(out)@ + quoted(p@),
{
    let ghost base = out@;
    out.push(QUOTE);
    let mut i: usize = 0;
    proof {
        assert(escape(p@.take(0)) =~= Seq::<u8>::empty());
        assert(out@ =~= base + seq![QUOTE] + escape(p@.take(0)));
    }
    while i < p.len()
        invariant
            0 <= i <= p@.len(),
            out@ == base + seq![QUOTE] + escape(p@.take(i as int)),
        decreases p@.len() - i,
    {
        let b = p[i];
        proof {
            lemma_escape_push(p@.take(i as int), b);
            assert(p@.take(i as int).push(b) =~= p@.take(i as int + 1));
        }
        if b == QUOTE {
            out.push(QUOTE);
            out.push(QUOTE);
        } else {
            out.push(b);
        }
        proof {
            assert(out@ =~= base + seq![QUOTE] + escape(p@.take(i as int + 1)));
        }
        i = i + 1;
    }
    out.push(QUOTE);
    proof {
        assert(p@.take(p@.len() as int) =~= p@);
        assert(out@ =~= base + quoted(p@));
    }
}

/// Appends `true` or `false`.
pub fn enc_bool(b: bool, out: &mut Vec<u8>)
    ensures
        final (out)@ == old(out)@ + bool_bytes(b),
{
    if b {
        out.push(116);
        out.push(114);
        out.push(117);
        out.push(101);
    } else {
        out.push(102);
        out.push(97);
        out.push(108);
        out.push(115);
        out.push(101);
    }
    proof {
        assert(out@ =~= old(out)@ + bool_bytes(b));
    }
}

/// Appends the header row.
#[verifier::rlimit(100)]
pub fn enc_header(out: &mut Vec<u8>)
    ensures
        final (out)@ == old(out)@ + header_bytes(),
{
    out.push(97);
    out.push(98);
    out.push(115);
    out.push(112);
    out.push(97);
    out.push(116);
    out.push(104);
    out.push(44);
    out.push(108);
    out.push(97);
    out.push(115);
    out.push(116);
    out.push(95);
    out.push(119);
    out.push(114);
    out.push(105);
    out.push(116);
    out.push(101);
    out.push(95);
    out.push(116);
    out.push(105);
    out.push(109);
    out.push(101);
    out.push(44);
    out.push(115);
    out.push(105);
    out.push(122);
    out.push(101);
    out.push(44);
    out.push(99);
    out.push(111);
    out.push(117);
    out.push(110);
    out.push(116);
    out.push(95);
    out.push(100);
    out.push(105);
    out.push(114);
    out.push(44);
    out.push(99);
    out.push(111);
    out.push(117);
    out.push(110);
    out.push(116);
    out.push(95);
    out.push(102);
    out.push(105);
    out.push(108);
    out.push(101);
    out.push(44);
    out.push(95);
    out.push(100);
    out.push(105);
    out.push(114);
    out.push(116);
    out.push(121);
    out.push(10);
    proof {
        assert(out@ =~= old(out)@ + header_bytes());
    }
}

/// Appends one encoded record.
pub fn enc_row(
    path: &Vec<u8>,
    lwt: u64,
    size: u64,
    cd: u64,
    cf: u64,
    dirty: bool,
    out: &mut Vec<u8>,
)
    ensures
        final (out)@ == old(out)@ + encode_row((path@, lwt, size, cd, cf, dirty)),
{
    enc_quoted(path, out);
    out.push(COMMA);
    enc_u64(lwt, out);
    out.push(COMMA);
    enc_u64(size, out);
    out.push(COMMA);
    enc_u64(cd, out);
    out.push(COMMA);
    enc_u64(cf, out);
    out.push(COMMA);
    enc_bool(dirty, out);
    out.push(NEWLINE);
    proof {
        assert(out@ =~= old(out)@ + encode_row((path@, lwt, size, cd, cf, dirty)));
    }
}

// ----------------------------------------------------------------------
// Executable parsing (mirrors the specification parser).
// ----------------------------------------------------------------------
/// Reads a quoted string starting at position `i`.
pub(crate) fn p_quoted(b: &Vec<u8>, i: usize) -> (r: Option<(Vec<u8>, usize)>)
    requires
        i <= b@.len(),
    ensures
        match r {
            Some((p, j)) => i < j <= b@.len() && parse_quoted(b@.skip(i as int)) == Some::<
                (Seq<u8>, Seq<u8>),
            >((p@, b@.skip(j as int))),
            None => parse_quoted(b@.skip(i as int)) is None,
        },
{
    if i >= b.len() || b[i] != QUOTE {
        proof {
            if i < b@.len() {
                assert(b@.skip(i as int)[0] == b@[i as int]);
            }
        }
        return None;
    }
    proof {
        assert(b@.skip(i as int)[0] == QUOTE);
        assert(b@.skip(i as int).skip(1) =~= b@.skip(i as int + 1));
    }
    let mut acc: Vec<u8> = Vec::new();
    let mut cur: usize = i + 1;
    loop
        invariant
            i < b@.len(),
            b@[i as int] == QUOTE,
            b@.skip(i as int).skip(1) == b@.skip(i as int + 1),
            i + 1 <= cur <= b@.len(),
            forall|p2: Seq<u8>, r2: Seq<u8>|
                unq(b@.skip(cur as int)) == Some::<(Seq<u8>, Seq<u8>)>((p2, r2)) ==> unq(
                    b@.skip(i as int + 1),
                ) == Some::<(Seq<u8>, Seq<u8>)>((acc@ + p2, r2)),
            unq(b@.skip(cur as int)) is None ==> unq(b@.skip(i as int + 1)) is None,
        decreases b@.len() - cur,
    {
        if cur >= b.len() {
            proof {
                assert(b@.skip(cur as int).len() == 0);
            }
            return None;
        }
        let c = b[cur];
        proof {
            assert(b@.skip(cur as int)[0] == c);
        }
        if c == QUOTE {
            if cur + 1 < b.len() && b[cur + 1] == QUOTE {
                proof {
                    assert(b@.skip(cur as int)[1] == b@[cur as int + 1]);
                    assert(b@.skip(cur as int).skip(2) =~= b@.skip(cur as int + 2));
                }
                let ghost accb = acc@;
                acc.push(QUOTE);
                proof {
                    assert forall|p2: Seq<u8>, r2: Seq<u8>|
                        unq(b@.skip(cur as int + 2)) == Some::<(Seq<u8>, Seq<u8>)>(
                            (p2, r2),
                        ) implies unq(b@.skip(i as int + 1)) == Some::<(Seq<u8>, Seq<u8>)>(
                        (acc@ + p2, r2),
                    ) by {
                        assert(unq(b@.skip(cur as int)) == Some::<(Seq<u8>, Seq<u8>)>(
                            (seq![QUOTE] + p2, r2),
                        ));
                        assert(accb + (seq![QUOTE] + p2) =~= acc@ + p2);
                    }
                }
                cur = cur + 2;
            } else {
                proof {
                    if cur + 1 < b@.len() {
                        assert(b@.skip(cur as int)[1] == b@[cur as int + 1]);
                    }
                    assert(unq(b@.skip(cur as int)) == Some::<(Seq<u8>, Seq<u8>)>(
                        (Seq::empty(), b@.skip(cur as int).skip(1)),
                    ));
                    assert(b@.skip(cur as int).skip(1) =~= b@.skip(cur as int + 1));
                    assert(acc@ + Seq::<u8>::empty() =~= acc@);
                }
                return Some((acc, cur + 1));
            }
        } else {
            proof {
                assert(b@.skip(cur as int).skip(1) =~= b@.skip(cur as int + 1));
            }
            let ghost accb = acc@;
            acc.push(c);
            proof {
                assert forall|p2: Seq<u8>, r2: Seq<u8>|
                    unq(b@.skip(cur as int + 1)) == Some::<(Seq<u8>, Seq<u8>)>((p2, r2)) implies
                unq(b@.skip(i as int + 1)) == Some::<(Seq<u8>, Seq<u8>)>((acc@ + p2, r2)) by {
                    assert(unq(b@.skip(cur as int)) == Some::<(Seq<u8>, Seq<u8>)>(
                        (seq![c] + p2, r2),
                    ));
                    assert(accb + (seq![c] + p2) =~= acc@ + p2);
                }
            }
            cur = cur + 1;
        }
    }
}

/// The digit-string value never shrinks as digits are appended.
proof fn lemma_val_mono(s: Seq<u8>, i: int)
    requires
        0 <= i <= s.len(),
    ensures
        val_of(s.take(i)) <= val_of(s),
    decreases s.len() - i,
{
    if i < s.len() {
        lemma_val_mono(s, i + 1);
        assert(s.take(i + 1).drop_last() =~= s.take(i));
        assert(val_of(s.take(i + 1)) == val_of(s.take(i)) * 10 + (s.take(i + 1).last()
            - 48) as nat);
        assert(val_of(s.take(i)) * 10 >= val_of(s.take(i)));
        assert(s.take(s.len() as int) =~= s);
    } else {
        assert(s.take(i) =~= s);
    }
}

/// Reads an unsigned decimal number starting at position `i`.
pub(crate) fn p_num(b: &Vec<u8>, i: usize) -> (r: Option<(u64, usize)>)
    requires
        i <= b@.len(),
    ensures
        match r {
            Some((n, j)) => i < j <= b@.len() && parse_num(b@.skip(i as int)) == Some::<
                (u64, Seq<u8>),
            >((n, b@.skip(j as int))),
            None => parse_num(b@.skip(i as int)) is None,
        },
{
    let ghost s = b@.skip(i as int);
    let mut j: usize = i;
    while j < b.len() && 48 <= b[j] && b[j] <= 57
        invariant
            i <= j <= b@.len(),
            s == b@.skip(i as int),
            forall|x: int| 0 <= x < j - i ==> is_digit(#[trigger] s[x]),
        decreases b@.len() - j,
    {
        proof {
            assert(s[j - i] == b@[j as int]);
        }
        j = j + 1;
    }
    proof {
        if j < b@.len() {
            assert(s[j - i] == b@[j as int]);
            assert(!is_digit(s[j - i]));
        }
        lemma_digits_end_at(s, j - i);
    }
    if j == i {
        return None;
    }
    let mut acc: u64 = 0;
    let mut k: usize = i;
    while k < j
        invariant
            i <= k <= j <= b@.len(),
            s == b@.skip(i as int),
            digits_end(s) == j - i,
            forall|x: int| 0 <= x < j - i ==> is_digit(#[trigger] s[x]),
            acc == val_of(s.take(k - i)),
            val_of(s.take(k - i)) <= u64::MAX,
        decreases j - k,
    {
        let d = b[k];
        proof {
            assert(s[k - i] == b@[k as int]);
            assert(s.take(k - i + 1).drop_last() =~= s.take(k - i));
            assert(s.take(k - i + 1).last() == s[k - i]);
        }
        let step = match acc.checked_mul(10) {
            Some(m) => m.checked_add((d - 48) as u64),
            None => None,
        };
        match step {
            Some(v) => {
                acc = v;
            },
            None => {
                proof {
                    assert(val_of(s.take(k - i + 1)) > u64::MAX);
                    lemma_val_mono(s.take(digits_end(s)), k - i + 1);
                    assert(s.take(digits_end(s)).take(k - i + 1) =~= s.take(k - i + 1));
                }
                return None;
            },
        }
        k = k + 1;
    }
    proof {
        assert(s.skip(j - i) =~= b@.skip(j as int));
    }
    Some((acc, j))
}

/// Expects a single byte at position `i`.
pub(crate) fn p_byte(b: &Vec<u8>, i: usize, want: u8) -> (r: Option<usize>)
    requires
        i <= b@.len(),
    ensures
        match r {
            Some(j) => j == i + 1 && j <= b@.len() && expect_byte(b@.skip(i as int), want)
                == Some(b@.skip(j as int)),
            None => expect_byte(b@.skip(i as int), want) is None,
        },
{
    if i < b.len() && b[i] == want {
        proof {
            assert(b@.skip(i as int)[0] == want);
            assert(b@.skip(i as int).skip(1) =~= b@.skip(i as int + 1));
        }
        Some(i + 1)
    } else {
        proof {
            if i < b@.len() {
                assert(b@.skip(i as int)[0] == b@[i as int]);
            }
        }
        None
    }
}

/// Reads `true` or `false` at position `i`.
pub(crate) fn p_bool(b: &Vec<u8>, i: usize) -> (r: Option<(bool, usize)>)
    requires
        i <= b@.len(),
    ensures
        match r {
            Some((v, j)) => i < j <= b@.len() && parse_bool(b@.skip(i as int)) == Some::<
                (bool, Seq<u8>),
            >((v, b@.skip(j as int))),
            None => parse_bool(b@.skip(i as int)) is None,
        },
{
    let ghost s = b@.skip(i as int);
    if b.len() - i >= 4 && b[i] == 116 && b[i + 1] == 114 && b[i + 2] == 117 && b[i + 3] == 101 {
        proof {
            assert(s.take(4) =~= bool_bytes(true)) by {
                assert(s[0] == b@[i as int] && s[1] == b@[i as int + 1] && s[2] == b@[i as int
                    + 2] && s[3] == b@[i as int + 3]);
            }
            assert(s.skip(4) =~= b@.skip(i as int + 4));
        }
        return Some((true, i + 4));
    }
    if b.len() - i >= 5 && b[i] == 102 && b[i + 1] == 97 && b[i + 2] == 108 && b[i + 3] == 115
        && b[i + 4] == 101 {
        proof {
            assert(s.take(5) =~= bool_bytes(false)) by {
                assert(s[0] == b@[i as int] && s[1] == b@[i as int + 1] && s[2] == b@[i as int
                    + 2] && s[3] == b@[i as int + 3] && s[4] == b@[i as int + 4]);
            }
            assert(s.skip(5) =~= b@.skip(i as int + 5));
            if s.len() >= 4 && s.take(4) == bool_bytes(true) {
                assert(s.take(4)[0] == 116);
                assert(s[0] == 102);
                assert(false);
            }
        }
        return Some((false, i + 5));
    }
    proof {
        if s.len() >= 4 && s.take(4) == bool_bytes(true) {
            assert(s.take(4)[0] == s[0] && s.take(4)[1] == s[1] && s.take(4)[2] == s[2]
                && s.take(4)[3] == s[3]);
            assert(s[0] == b@[i as int] && s[1] == b@[i as int + 1] && s[2] == b@[i as int + 2]
                && s[3] == b@[i as int + 3]);
            assert(false);
        }
        if s.len() >= 5 && s.take(5) == bool_bytes(false) {
            assert(s.take(5)[0] == s[0] && s.take(5)[1] == s[1] && s.take(5)[2] == s[2]
                && s.take(5)[3] == s[3] && s.take(5)[4] == s[4]);
            assert(s[0] == b@[i as int] && s[1] == b@[i as int + 1] && s[2] == b@[i as int + 2]
                && s[3] == b@[i as int + 3] && s[4] == b@[i as int + 4]);
            assert(false);
        }
    }
    None
}

/// Reads one record at position `i`.
pub(crate) fn p_row(b: &Vec<u8>, i: usize) -> (r: Option<(Vec<u8>, u64, u64, u64, u64, bool, usize)>)
    requires
        i <= b@.len(),
    ensures
        match r {
            Some((p, lwt, size, cd, cf, dirty, j)) => i < j <= b@.len() && parse_row(
                b@.skip(i as int),
            ) == Some::<(RowV, Seq<u8>)>(((p@, lwt, size, cd, cf, dirty), b@.skip(j as int))),
            None => parse_row(b@.skip(i as int)) is None,
        },
{
    let (p, j1) = match p_quoted(b, i) {
        Some(x) => x,
        None => { return None; },
    };
    let j2 = match p_byte(b, j1, COMMA) {
        Some(x) => x,
        None => { return None; },
    };
    let (lwt, j3) = match p_num(b, j2) {
        Some(x) => x,
        None => { return None; },
    };
    let j4 = match p_byte(b, j3, COMMA) {
        Some(x) => x,
        None => { return None; },
    };
    let (size, j5) = match p_num(b, j4) {
        Some(x) => x,
        None => { return None; },
    };
    let j6 = match p_byte(b, j5, COMMA) {
        Some(x) => x,
        None => { return None; },
    };
    let (cd, j7) = match p_num(b, j6) {
        Some(x) => x,
        None => { return None; },
    };
    let j8 = match p_byte(b, j7, COMMA) {
        Some(x) => x,
        None => { return None; },
    };
    let (cf, j9) = match p_num(b, j8) {
        Some(x) => x,
        None => { return None; },
    };
    let j10 = match p_byte(b, j9, COMMA) {
        Some(x) => x,
        None => { return None; },
    };
    let (dirty, j11) = match p_bool(b, j10) {
        Some(x) => x,
        None => { return None; },
    };
    let j12 = match p_byte(b, j11, NEWLINE) {
        Some(x) => x,
        None => { return None; },
    };
    Some((p, lwt, size, cd, cf, dirty, j12))
}

// ----------------------------------------------------------------------
// Round-trip: parsing inverts encoding.
// ----------------------------------------------------------------------
proof fn lemma_unq_roundtrip(p: Seq<u8>, rest: Seq<u8>)
    requires
        rest.len() == 0 || rest[0] != QUOTE,
    ensures
        unq(escape(p) + seq![QUOTE] + rest) == Some::<(Seq<u8>, Seq<u8>)>((p, rest)),
    decreases p.len(),
{
    let s = escape(p) + seq![QUOTE] + rest;
    if p.len() == 0 {
        assert(s =~= seq![QUOTE] + rest);
        assert(s[0] == QUOTE);
        if s.len() >= 2 && s[1] == QUOTE {
            assert(rest[0] == QUOTE);
            assert(false);
        }
        assert(s.skip(1) =~= rest);
    } else if p[0] == QUOTE {
        lemma_unq_roundtrip(p.drop_first(), rest);
        assert(escape(p) =~= seq![QUOTE, QUOTE] + escape(p.drop_first()));
        assert(s[0] == QUOTE && s[1] == QUOTE);
        assert(s.skip(2) =~= escape(p.drop_first()) + seq![QUOTE] + rest);
        assert(seq![QUOTE] + p.drop_first() =~= p);
    } else {
        lemma_unq_roundtrip(p.drop_first(), rest);
        assert(escape(p) =~= seq![p[0]] + escape(p.drop_first()));
        assert(s[0] == p[0]);
        assert(s[0] != QUOTE);
        assert(s.skip(1) =~= escape(p.drop_first()) + seq![QUOTE] + rest);
        assert(seq![p[0]] + p.drop_first() =~= p);
    }
}

pub proof fn lemma_dec_digits(n: nat)
    ensures
        dec_of(n).len() >= 1,
        all_digits(dec_of(n)),
        val_of(dec_of(n)) == n,
    decreases n,
{
    if n < 10 {
        assert(dec_of(n) =~= seq![(48 + n) as u8]);
        assert(dec_of(n).drop_last() =~= Seq::<u8>::empty());
        assert(dec_of(n).last() == (48 + n) as u8);
        assert(((48 + n) as u8) as int == 48 + n);
        assert(val_of(Seq::<u8>::empty()) == 0);
        assert(val_of(dec_of(n)) == 0 * 10 + ((48 + n) as u8 - 48) as nat);
        assert(is_digit((48 + n) as u8));
    } else {
        lemma_dec_digits(n / 10);
        let d = dec_of(n);
        assert(d == dec_of(n / 10).push((48 + n % 10) as u8));
        assert(d.drop_last() =~= dec_of(n / 10));
        assert(d.last() == (48 + n % 10) as u8);
        assert(val_of(d) == (n / 10) * 10 + n % 10);
        assert((n / 10) * 10 + n % 10 == n) by (nonlinear_arith);
        assert forall|i: int| 0 <= i < d.len() implies is_digit(#[trigger] d[i]) by {
            if i < d.len() - 1 {
                assert(d[i] == dec_of(n / 10)[i]);
            }
        }
    }
}

proof fn lemma_digits_end_at(s: Seq<u8>, k: int)
    requires
        0 <= k <= s.len(),
        forall|i: int| 0 <= i < k ==> is_digit(#[trigger] s[i]),
        k < s.len() ==> !is_digit(s[k]),
    ensures
        digits_end(s) == k,
    decreases s.len(),
{
    if k == 0 {
    } else {
        assert(is_digit(s[0]));
        assert forall|i: int| 0 <= i < k - 1 implies is_digit(#[trigger] s.drop_first()[i]) by {
            assert(s.drop_first()[i] == s[i + 1]);
        }
        if k - 1 < s.drop_first().len() {
            assert(s.drop_first()[k - 1] == s[k]);
        }
        lemma_digits_end_at(s.drop_first(), k - 1);
    }
}

proof fn lemma_parse_num_roundtrip(n: u64, rest: Seq<u8>)
    requires
        rest.len() == 0 || !is_digit(rest[0]),
    ensures
        parse_num(dec_of(n as nat) + rest) == Some::<(u64, Seq<u8>)>((n, rest)),
{
    lemma_dec_digits(n as nat);
    let d = dec_of(n as nat);
    let s = d + rest;
    assert forall|i: int| 0 <= i < d.len() implies is_digit(#[trigger] s[i]) by {
        assert(s[i] == d[i]);
    }
    if d.len() < s.len() {
        assert(s[d.len() as int] == rest[0]);
    }
    lemma_digits_end_at(s, d.len() as int);
    assert(s.take(d.len() as int) =~= d);
    assert(s.skip(d.len() as int) =~= rest);
}

proof fn lemma_parse_bool_roundtrip(b: bool, rest: Seq<u8>)
    ensures
        parse_bool(bool_bytes(b) + rest) == Some::<(bool, Seq<u8>)>((b, rest)),
{
    let s = bool_bytes(b) + rest;
    if b {
        assert(s.take(4) =~= bool_bytes(true));
        assert(s.skip(4) =~= rest);
    } else {
        assert(s.take(5) =~= bool_bytes(false));
        assert(s.skip(5) =~= rest);
        if s.len() >= 4 && s.take(4) == bool_bytes(true) {
            assert(s.take(4)[0] == 116 && bool_bytes(false)[0] == 102);
            assert(s[0] == 102);
            assert(false);
        }
    }
}

/// The numeric tail of a record parses back to its five fields.
#[verifier::rlimit(100)]
proof fn lemma_parse_tail_roundtrip(a: u64, b: u64, c: u64, d: u64, e: bool, rest: Seq<u8>)
    ensures
        parse_tail(
            dec_of(a as nat) + seq![COMMA] + dec_of(b as nat) + seq![COMMA] + dec_of(c as nat)
                + seq![COMMA] + dec_of(d as nat) + seq![COMMA] + bool_bytes(e) + seq![NEWLINE]
                + rest,
        ) == Some::<((u64, u64, u64, u64, bool), Seq<u8>)>(((a, b, c, d, e), rest)),
{
    let s = dec_of(a as nat) + seq![COMMA] + dec_of(b as nat) + seq![COMMA] + dec_of(c as nat)
        + seq![COMMA] + dec_of(d as nat) + seq![COMMA] + bool_bytes(e) + seq![NEWLINE] + rest;
    let u1rest = seq![COMMA] + dec_of(b as nat) + seq![COMMA] + dec_of(c as nat) + seq![COMMA]
        + dec_of(d as nat) + seq![COMMA] + bool_bytes(e) + seq![NEWLINE] + rest;
    assert(s =~= dec_of(a as nat) + u1rest);
    lemma_parse_num_roundtrip(a, u1rest);
    let u2 = dec_of(b as nat) + (seq![COMMA] + dec_of(c as nat) + seq![COMMA] + dec_of(d as nat)
        + seq![COMMA] + bool_bytes(e) + seq![NEWLINE] + rest);
    assert(u1rest[0] == COMMA);
    assert(u1rest.skip(1) =~= u2);
    let u2rest = seq![COMMA] + dec_of(c as nat) + seq![COMMA] + dec_of(d as nat) + seq![COMMA]
        + bool_bytes(e) + seq![NEWLINE] + rest;
    assert(u2 =~= dec_of(b as nat) + u2rest);
    lemma_parse_num_roundtrip(b, u2rest);
    let u3 = dec_of(c as nat) + (seq![COMMA] + dec_of(d as nat) + seq![COMMA] + bool_bytes(e)
        + seq![NEWLINE] + rest);
    assert(u2rest[0] == COMMA);
    assert(u2rest.skip(1) =~= u3);
    let u3rest = seq![COMMA] + dec_of(d as nat) + seq![COMMA] + bool_bytes(e) + seq![NEWLINE]
        + rest;
    assert(u3 =~= dec_of(c as nat) + u3rest);
    lemma_parse_num_roundtrip(c, u3rest);
    let u4 = dec_of(d as nat) + (seq![COMMA] + bool_bytes(e) + seq![NEWLINE] + rest);
    assert(u3rest[0] == COMMA);
    assert(u3rest.skip(1) =~= u4);
    let u4rest = seq![COMMA] + bool_bytes(e) + seq![NEWLINE] + rest;
    assert(u4 =~= dec_of(d as nat) + u4rest);
    lemma_parse_num_roundtrip(d, u4rest);
    let u5 = bool_bytes(e) + (seq![NEWLINE] + rest);
    assert(u4rest[0] == COMMA);
    assert(u4rest.skip(1) =~= u5);
    lemma_parse_bool_roundtrip(e, seq![NEWLINE] + rest);
    let u6 = seq![NEWLINE] + rest;
    assert(u6[0] == NEWLINE);
    assert(u6.skip(1) =~= rest);
}

/// Parsing one encoded record yields the record and the untouched rest.
#[verifier::rlimit(100)]
proof fn lemma_parse_row_roundtrip(r: RowV, rest: Seq<u8>)
    ensures
        parse_row(encode_row(r) + rest) == Some::<(RowV, Seq<u8>)>((r, rest)),
{
    let s = encode_row(r) + rest;
    let t1 = seq![COMMA] + dec_of(r.1 as nat) + seq![COMMA] + dec_of(r.2 as nat) + seq![COMMA]
        + dec_of(r.3 as nat) + seq![COMMA] + dec_of(r.4 as nat) + seq![COMMA] + bool_bytes(r.5)
        + seq![NEWLINE] + rest;
    assert(s =~= seq![QUOTE] + (escape(r.0) + seq![QUOTE] + t1));
    assert(s[0] == QUOTE);
    assert(s.skip(1) =~= escape(r.0) + seq![QUOTE] + t1);
    lemma_unq_roundtrip(r.0, t1);
    assert(parse_quoted(s) == Some::<(Seq<u8>, Seq<u8>)>((r.0, t1)));
    let t2 = dec_of(r.1 as nat) + seq![COMMA] + dec_of(r.2 as nat) + seq![COMMA] + dec_of(
        r.3 as nat,
    ) + seq![COMMA] + dec_of(r.4 as nat) + seq![COMMA] + bool_bytes(r.5) + seq![NEWLINE] + rest;
    assert(t1[0] == COMMA);
    assert(t1.skip(1) =~= t2);
    lemma_parse_tail_roundtrip(r.1, r.2, r.3, r.4, r.5, rest);
}

/// Every encoded record is at least one byte long.
proof fn lemma_encode_row_len(r: RowV)
    ensures
        encode_row(r).len() >= 1,
{
}

/// Parsing inverts encoding for a whole record list.
pub proof fn lemma_rows_roundtrip(rows: Seq<RowV>)
    ensures
        parse_rows(encode_rows(rows)) == Some(rows),
    decreases rows.len(),
{
    if rows.len() == 0 {
    } else {
        lemma_rows_roundtrip(rows.drop_first());
        lemma_parse_row_roundtrip(rows[0], encode_rows(rows.drop_first()));
        let s = encode_rows(rows);
        assert(s == encode_row(rows[0]) + encode_rows(rows.drop_first()));
        lemma_encode_row_len(rows[0]);
        assert(s.len() >= 1);
        assert(encode_rows(rows.drop_first()).len() < s.len());
        assert(seq![rows[0]] + rows.drop_first() =~= rows);
    }
}

/// Parsing inverts encoding for a whole cache file.
pub proof fn lemma_records_roundtrip(rows: Seq<RowV>)
    ensures
        parse_records(encode_records(rows)) == Some(rows),
{
    let s = encode_records(rows);
    assert(s.take(header_bytes().len() as int) =~= header_bytes());
    assert(s.skip(header_bytes().len() as int) =~= encode_rows(rows));
    lemma_rows_roundtrip(rows);
}

} // verus!
