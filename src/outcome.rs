use vstd::prelude::*;
use vstd::utf8::encode_utf8;
use crate::base58::{base58_decoded, decode_base58};
use crate::error::ClientError;

verus! {

/// How many peers a main-net peer request asks the bootstrap peer for.
pub const MAIN_NET_PEER_CAP: u32 = 10;

/// The outcome of a dial: the network layer reports failure as an empty
/// session id, which becomes `ClientError::Dial`.
pub fn dial_outcome(session_id: String) -> (r: Result<String, ClientError>)
    ensures
        session_id@.len() > 0 ==> r == Ok::<String, ClientError>(session_id),
        session_id@.len() == 0 ==> r == Err::<String, ClientError>(ClientError::Dial),
{
    if session_id.as_str().is_empty() {
        Err(ClientError::Dial)
    } else {
        Ok(session_id)
    }
}

/// The outcome of a proxy registration request.
pub fn registration_outcome(accepted: bool) -> (r: Result<(), ClientError>)
    ensures
        accepted ==> r is Ok,
        !accepted ==> r == Err::<(), ClientError>(ClientError::Registration),
{
    if accepted {
        Ok(())
    } else {
        Err(ClientError::Registration)
    }
}

/// All identities decode as base58.
pub open spec fn all_decodable(ids: Seq<String>) -> bool {
    forall|i: int| 0 <= i < ids.len() ==> (#[trigger] base58_decoded(encode_utf8(ids[i]@))) is Some
}

/// Decodes the base58 identities of a peer list, in order; fails with
/// `ClientError::IdentityDecode` if any of them is not base58.
pub fn decode_peer_ids(ids: &Vec<String>) -> (r: Result<Vec<Vec<u8>>, ClientError>)
    ensures
        match r {
            Ok(v) => all_decodable(ids@) && v@.len() == ids@.len() && forall|i: int|
                0 <= i < ids@.len() ==> Some((#[trigger] v@[i])@) == base58_decoded(
                    encode_utf8(ids@[i]@),
                ),
            Err(e) => e == ClientError::IdentityDecode && !all_decodable(ids@),
        },
{
    let mut out: Vec<Vec<u8>> = Vec::new();
    let mut i: usize = 0;
    while i < ids.len()
        invariant
            i <= ids@.len(),
            out@.len() == i,
            forall|k: int|
                0 <= k < i ==> Some((#[trigger] out@[k])@) == base58_decoded(encode_utf8(ids@[k]@)),
        decreases ids@.len() - i,
    {
        let text: &str = ids[i].as_str();
        match decode_base58(text.as_bytes()) {
            Some(bytes) => {
                out.push(bytes);
            },
            None => {
                assert(base58_decoded(encode_utf8(ids@[i as int]@)) is None);
                return Err(ClientError::IdentityDecode);
            },
        }
        i = i + 1;
    }
    assert forall|k: int| 0 <= k < ids@.len() implies (#[trigger] base58_decoded(
        encode_utf8(ids@[k]@),
    )) is Some by {
        assert(Some(out@[k]@) == base58_decoded(encode_utf8(ids@[k]@)));
    }
    Ok(out)
}

} // verus!
