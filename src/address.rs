use vstd::prelude::*;
use crate::base58::{base58_decoded, decode_base58};
use crate::error::ClientError;
use vstd::string::StringSliceAdditionalSpecFns;

verus! {

pub const SLASH: u8 = 47;
pub const LETTER_P: u8 = 112;
pub const DIGIT_TWO: u8 = 50;

/// The text that introduces the peer-id segment of a bootstrap address.
pub open spec fn p2p_marker() -> Seq<u8> {
    seq![SLASH, LETTER_P, DIGIT_TWO, LETTER_P, SLASH]
}

pub open spec fn has_no_slash(s: Seq<u8>) -> bool {
    forall|i: int| 0 <= i < s.len() ==> s[i] != SLASH
}

/// `text` is `address ++ "/p2p/" ++ peer`: a non-empty routable address and
/// a non-empty final path segment naming the peer.
pub open spec fn splits_as(text: Seq<u8>, address: Seq<u8>, peer: Seq<u8>) -> bool {
    &&& text == address + p2p_marker() + peer
    &&& address.len() > 0
    &&& peer.len() > 0
    &&& has_no_slash(peer)
}

pub open spec fn is_bootstrap_text(text: Seq<u8>) -> bool {
    exists|a: Seq<u8>, p: Seq<u8>| splits_as(text, a, p)
}

/// A bootstrap peer: its routable address and the raw bytes of its identity.
#[derive(Debug, Clone, PartialEq, Eq)]
pub struct BootstrapTarget {
    pub address: Vec<u8>,
    pub peer_id: Vec<u8>,
}

/// A bootstrap address splits in one way only: the peer segment is what
/// follows the last `/`, so the address and the peer text are determined.
pub proof fn lemma_split_unique(text: Seq<u8>, addr1: Seq<u8>, peer1: Seq<u8>, addr2: Seq<u8>, peer2: Seq<u8>)
    requires
        splits_as(text, addr1, peer1),
        splits_as(text, addr2, peer2),
    ensures
        addr1 == addr2,
        peer1 == peer2,
{
    let k1: int = addr1.len() as int + 4;
    let k2: int = addr2.len() as int + 4;
    assert(p2p_marker().len() == 5);
    assert(text.len() == k1 + 1 + peer1.len());
    assert(text.len() == k2 + 1 + peer2.len());
    assert(text[k1] == (addr1 + p2p_marker() + peer1)[k1]);
    assert(text[k2] == (addr2 + p2p_marker() + peer2)[k2]);
    if k1 < k2 {
        assert(text[k2] == (addr1 + p2p_marker() + peer1)[k2]);
        assert((addr1 + p2p_marker()).len() == k1 + 1);
        assert((addr1 + p2p_marker() + peer1)[k2] == peer1[k2 - k1 - 1]);
    } else if k2 < k1 {
        assert(text[k1] == (addr2 + p2p_marker() + peer2)[k1]);
        assert((addr2 + p2p_marker()).len() == k2 + 1);
        assert((addr2 + p2p_marker() + peer2)[k1] == peer2[k1 - k2 - 1]);
    }
    assert(addr1 =~= text.subrange(0, addr1.len() as int));
    assert(addr2 =~= text.subrange(0, addr2.len() as int));
    assert(peer1 =~= text.subrange(k1 + 1, text.len() as int));
    assert(peer2 =~= text.subrange(k2 + 1, text.len() as int));
}

fn copy_range(s: &[u8], lo: usize, hi: usize) -> (r: Vec<u8>)
    requires
        lo <= hi <= s@.len(),
    ensures
        r@ == s@.subrange(lo as int, hi as int),
{
    let mut r: Vec<u8> = Vec::new();
    let mut i: usize = lo;
    while i < hi
        invariant
            lo <= i <= hi <= s@.len(),
            r@ == s@.subrange(lo as int, i as int),
        decreases hi - i,
    {
        r.push(s[i]);
        i = i + 1;
        assert(r@ =~= s@.subrange(lo as int, i as int));
    }
    r
}

/// Splits a bootstrap address into its routable address and the text of its
/// final `/p2p/<peer>` segment.
pub fn split_bootstrap_address(text: &[u8]) -> (r: Result<(Vec<u8>, Vec<u8>), ClientError>)
    ensures
        match r {
            Ok((a, p)) => splits_as(text@, a@, p@),
            Err(e) => e == ClientError::AddressParse && !is_bootstrap_text(text@),
        },
{
    let n = text.len();
    let mut j: usize = n;
    // Scan backwards for the last slash.
    while j > 0 && text[j - 1] != SLASH
        invariant
            j <= n == text@.len(),
            forall|k: int| j <= k < n ==> text@[k] != SLASH,
        decreases j,
    {
        j = j - 1;
    }
    proof {
        if is_bootstrap_text(text@) {
            let (a, p) = choose|a: Seq<u8>, p: Seq<u8>| splits_as(text@, a, p);
            let k: int = a.len() as int + 4;
            assert(text@[k] == SLASH);
            assert forall|m: int| k < m < n implies text@[m] != SLASH by {
                assert(text@[m] == p[m - k - 1]);
            }
            assert(j == k + 1);
            assert(text@[k - 4] == SLASH && text@[k - 3] == LETTER_P && text@[k - 2] == DIGIT_TWO
                && text@[k - 1] == LETTER_P);
        }
    }
    if j < 6 || j == n {
        return Err(ClientError::AddressParse);
    }
    if text[j - 5] != SLASH || text[j - 4] != LETTER_P || text[j - 3] != DIGIT_TWO || text[j - 2] != LETTER_P {
        return Err(ClientError::AddressParse);
    }
    let a = copy_range(text, 0, j - 5);
    let p = copy_range(text, j, n);
    proof {
        assert(text@ =~= a@ + p2p_marker() + p@);
        assert(has_no_slash(p@)) by {
            assert forall|i: int| 0 <= i < p@.len() implies p@[i] != SLASH by {
                assert(p@[i] == text@[j + i]);
            }
        }
    }
    Ok((a, p))
}

/// Parses `<routable-address>/p2p/<base58 peer id>` into the address and the
/// decoded identity bytes.
pub fn parse_bootstrap_address(text: &str) -> (r: Result<BootstrapTarget, ClientError>)
    ensures
        match r {
            Ok(t) => exists|p: Seq<u8>|
                splits_as(text.spec_bytes(), t.address@, p)
                && base58_decoded(p) == Some(t.peer_id@),
            Err(ClientError::AddressParse) => !is_bootstrap_text(text.spec_bytes()),
            Err(ClientError::IdentityDecode) => exists|a: Seq<u8>, p: Seq<u8>|
                splits_as(text.spec_bytes(), a, p) && base58_decoded(p) is None,
            Err(_) => false,
        },
{
    let bytes = text.as_bytes();
    match split_bootstrap_address(bytes) {
        Err(e) => Err(e),
        Ok((address, peer)) => match decode_base58(peer.as_slice()) {
            Some(peer_id) => Ok(BootstrapTarget { address, peer_id }),
            None => Err(ClientError::IdentityDecode),
        },
    }
}

} // verus!
