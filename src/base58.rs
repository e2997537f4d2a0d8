use vstd::prelude::*;

verus! {

#[verifier::external_type_specification]
#[verifier::external_body]
pub struct ExBase58Error(bs58::decode::Error);

/// What decoding base58 text (Bitcoin alphabet) yields: the bytes, or `None`
/// where the text is not base58.
pub uninterp spec fn base58_decoded(text: Seq<u8>) -> Option<Seq<u8>>;

/// The characters of the Bitcoin base58 alphabet.
pub open spec fn is_base58_digit(b: u8) -> bool {
    // '1'..='9', 'A'..='Z' without 'I' and 'O', 'a'..='z' without 'l'
    ||| (49 <= b && b <= 57)
    ||| (65 <= b && b <= 90 && b != 73 && b != 79)
    ||| (97 <= b && b <= 122 && b != 108)
}

/// Relies on `bs58::decode(..).into_vec()`: the result depends on the input
/// bytes alone, empty input decodes to no bytes, and a byte outside the
/// alphabet is an error.
#[verifier::external_body]
fn decode_raw(text: &[u8]) -> (r: Result<Vec<u8>, bs58::decode::Error>)
    ensures
        r is Ok <==> base58_decoded(text@) is Some,
        r is Ok ==> r->Ok_0@ == base58_decoded(text@)->0,
        text@.len() == 0 ==> r is Ok && r->Ok_0@.len() == 0,
        (exists|i: int| 0 <= i < text@.len() && !is_base58_digit(#[trigger] text@[i]))
            ==> r is Err,
{
    bs58::decode(text).into_vec()
}

/// Decodes base58 text into bytes; `None` where it is not base58.
pub fn decode_base58(text: &[u8]) -> (r: Option<Vec<u8>>)
    ensures
        r is Some <==> base58_decoded(text@) is Some,
        r is Some ==> r->0@ == base58_decoded(text@)->0,
{
    match decode_raw(text) {
        Ok(v) => Some(v),
        Err(_) => None,
    }
}

} // verus!
