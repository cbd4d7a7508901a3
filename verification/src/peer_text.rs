//! The text form of peer ids, as the `libp2p` crate writes them.
use vstd::prelude::*;

verus! {

/// The base58 text of the peer id whose binary form is `bytes`; none when `bytes` is
/// no valid peer id.
pub uninterp spec fn peer_id_base58(bytes: Seq<u8>) -> Option<Seq<char>>;

/// `PeerId::from_bytes` followed by `PeerId::to_base58`: the base58 text of the peer id
/// read from `bytes`, or none when they do not hold a valid peer id. Nothing is stated
/// of the text beyond that it depends on the bytes alone.
#[verifier::external_body]
pub(crate) fn peer_id_text(bytes: &Vec<u8>) -> (r: Option<String>)
    ensures
        match r {
            Some(s) => peer_id_base58(bytes@) == Some(s@),
            None => peer_id_base58(bytes@) is None,
        },
{
    match libp2p::PeerId::from_bytes(bytes) {
        Ok(p) => Some(p.to_base58()),
        Err(_) => None,
    }
}

} // verus!
