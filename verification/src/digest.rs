//! The key function: a deterministic 64-bit digest of a canonical absolute
//! path, used as the primary key of every node in the index.  It is a pure
//! function of the path bytes (FNV-1a), so the same path yields the same
//! handle in every process run.

use vstd::prelude::*;

verus! {

pub const FNV_OFFSET: u64 = 0xcbf29ce484222325;

pub const FNV_PRIME: u64 = 0x100000001b3;

/// One FNV-1a step: fold a byte into the running state.
pub open spec fn digest_step(h: u64, b: u8) -> u64 {
    ((((h ^ (b as u64)) as nat) * (FNV_PRIME as nat)) % 0x10000000000000000) as u64
}

/// Digest of the bytes `s` starting from running state `h`.
pub open spec fn digest_from(h: u64, s: Seq<u8>) -> u64
    decreases s.len(),
{
    if s.len() == 0 {
        h
    } else {
        digest_from(digest_step(h, s[0]), s.drop_first())
    }
}

/// The digest of a whole byte string.
pub open spec fn digest_of(s: Seq<u8>) -> u64 {
    digest_from(FNV_OFFSET, s)
}

/// Computes the 64-bit digest of a path, the handle under which the index
/// stores the node for that path.
pub fn jhash(bytes: &Vec<u8>) -> (r: u64)
    ensures
        r == digest_of(bytes@),
{
    let ghost all = bytes@;
    proof {
        assert(all.skip(0) =~= all);
    }
    let mut h: u64 = FNV_OFFSET;
    let mut i: usize = 0;
    while i < bytes.len()
        invariant
            0 <= i <= all.len(),
            bytes@ == all,
            digest_from(h, all.skip(i as int)) == digest_of(all),
        decreases all.len() - i,
    {
        proof {
            assert(all.skip(i as int).len() > 0);
            assert(all.skip(i as int)[0] == all[i as int]);
            assert(all.skip(i as int).drop_first() =~= all.skip(i as int + 1));
        }
        h = (h ^ (bytes[i] as u64)).wrapping_mul(FNV_PRIME);
        i = i + 1;
    }
    proof {
        assert(all.skip(i as int) =~= Seq::<u8>::empty());
    }
    h
}

} // verus!
