//! The SCALE encoding of byte strings (`parity-scale-codec`) and the Blake2-256
//! hasher of `sp-core`, from which message hashes are made.
use vstd::prelude::*;
use parity_scale_codec::Encode;
use sp_core::Hasher;

verus! {

/// The `k` low bytes of `x`, least significant first.
pub open spec fn le_bytes(x: nat, k: nat) -> Seq<u8>
    decreases k,
{
    if k == 0 {
        Seq::empty()
    } else {
        seq![(x % 256) as u8] + le_bytes(x / 256, (k - 1) as nat)
    }
}

/// The SCALE compact encoding of a length below 2^32: one byte `4n` below 64, two
/// bytes `4n + 1` below 2^14, four bytes `4n + 2` below 2^30, else the byte 3 and the
/// four bytes of `n`, all little endian.
pub open spec fn compact_len(n: nat) -> Seq<u8> {
    if n < 0x40 {
        seq![(n * 4) as u8]
    } else if n < 0x4000 {
        le_bytes(n * 4 + 1, 2)
    } else if n < 0x4000_0000 {
        le_bytes(n * 4 + 2, 4)
    } else {
        seq![3u8] + le_bytes(n, 4)
    }
}

/// The SCALE encoding of a byte string: its compact-encoded length, then its bytes.
pub open spec fn scale_bytes(v: Seq<u8>) -> Seq<u8> {
    compact_len(v.len()) + v
}

/// The Blake2b-256 digest of a byte string.
pub uninterp spec fn blake2_256_hash(data: Seq<u8>) -> Seq<u8>;

/// `<Vec<u8> as Encode>::encode`: the SCALE encoding of `v` (see [`scale_bytes`]).
/// The encoder panics on a length above `u32::MAX`, which is left out.
#[verifier::external_body]
pub(crate) fn scale_encode_bytes(v: &Vec<u8>) -> (r: Vec<u8>)
    requires
        v@.len() <= u32::MAX,
    ensures
        r@ == scale_bytes(v@),
{
    v.encode()
}

/// `<sp_core::Blake2Hasher as Hasher>::hash`: the 32-byte Blake2b-256 digest of `data`.
#[verifier::external_body]
pub(crate) fn blake2_hash(data: &Vec<u8>) -> (r: Vec<u8>)
    ensures
        r@ == blake2_256_hash(data@),
        r@.len() == 32,
{
    <sp_core::Blake2Hasher as Hasher>::hash(data.as_slice()).as_bytes().to_vec()
}

} // verus!
