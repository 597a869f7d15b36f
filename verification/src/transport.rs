use base64::prelude::{Engine, BASE64_STANDARD};
use vstd::prelude::*;

verus! {

/// The error of the `base64` crate's decoder.
#[verifier::external_type_specification]
#[verifier::external_body]
pub struct ExDecodeError(base64::DecodeError);

/// The text that the standard base64 engine (the alphabet of RFC 4648, with
/// padding) encodes `raw` to.
pub uninterp spec fn base64_of(raw: Seq<u8>) -> Seq<u8>;

/// What the standard base64 engine decodes `text` to, or the error that it gives.
pub uninterp spec fn base64_decoded(text: Seq<u8>) -> Result<Seq<u8>, base64::DecodeError>;

/// The length of the base64 text of `len` bytes: four characters for every three
/// bytes, the last group padded.
pub open spec fn base64_len(len: nat) -> nat {
    4 * ((len + 2) / 3)
}

/// The characters of base64 text: letters, digits, `+`, `/`, and `=` for padding.
pub open spec fn is_base64_byte(b: u8) -> bool {
    ||| 0x41 <= b <= 0x5a
    ||| 0x61 <= b <= 0x7a
    ||| 0x30 <= b <= 0x39
    ||| b == 0x2b
    ||| b == 0x2f
    ||| b == 0x3d
}

/// Calls `Engine::encode_slice` of the `base64` crate on its standard engine.
///
/// Believed of it: where `output` is shorter than the encoded text, nothing is
/// written and `None` comes back. Else the text is written to the front of
/// `output`, the rest of `output` stays, and the text's length comes back. The
/// text has four characters for every three bytes begun, all of them base64
/// characters, the first no padding; and the engine's decoder gives the input
/// back for it.
#[verifier::external_body]
pub(crate) fn encode_slice(input: &[u8], output: &mut Vec<u8>) -> (written: Option<usize>)
    requires
        base64_len(input.len() as nat) <= usize::MAX,
    ensures
        old(output).len() < base64_len(input.len() as nat) ==> written is None && final(output)@
            == old(output)@,
        old(output).len() >= base64_len(input.len() as nat) ==> written == Some(
            base64_len(input.len() as nat) as usize,
        ) && final(output)@ == base64_of(input@) + old(output)@.skip(
            base64_len(input.len() as nat) as int,
        ),
        written is Some ==> base64_of(input@).len() == base64_len(input.len() as nat),
        written is Some ==> (base64_decoded(base64_of(input@)) matches Ok(raw) && raw == input@),
        written is Some ==> forall|i: int|
            0 <= i < base64_of(input@).len() ==> is_base64_byte(#[trigger] base64_of(input@)[i]),
        written is Some && input.len() > 0 ==> base64_of(input@)[0] != 0x3d,
{
    BASE64_STANDARD.encode_slice(input, output.as_mut_slice()).ok()
}

/// Calls `Engine::decode_vec` of the `base64` crate on its standard engine.
///
/// Believed of it: where the text decodes, the bytes are appended to `buffer`,
/// at most three for every four characters begun; where it does not, the
/// decoder's error comes back, and `buffer` may have changed.
#[verifier::external_body]
pub(crate) fn decode_vec(input: &[u8], buffer: &mut Vec<u8>) -> (r: Result<
    (),
    base64::DecodeError,
>)
    requires
        old(buffer).len() + 3 * ((input.len() + 3) / 4) <= usize::MAX,
    ensures
        match r {
            Ok(()) => {
                &&& final(buffer)@.len() >= old(buffer)@.len()
                &&& final(buffer)@.take(old(buffer)@.len() as int) == old(buffer)@
                &&& base64_decoded(input@) matches Ok(raw)
                &&& raw == final(buffer)@.skip(old(buffer)@.len() as int)
                &&& final(buffer)@.len() <= old(buffer)@.len() + 3 * ((input.len() + 3) / 4)
            },
            Err(e) => base64_decoded(input@) matches Err(given) && given == e,
        },
{
    BASE64_STANDARD.decode_vec(input, buffer)
}

} // verus!
