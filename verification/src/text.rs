use vstd::prelude::*;
use vstd::utf8::*;

verus! {

/// `String::from_utf8`: the text that valid UTF-8 bytes encode; for other bytes, the length
/// of their longest prefix that is valid UTF-8 (`Utf8Error::valid_up_to`).
#[verifier::external_body]
pub(crate) fn utf8_to_string(bytes: Vec<u8>) -> (res: Result<String, usize>)
    ensures
        res is Ok <==> valid_utf8(bytes@),
        res matches Ok(s) ==> s@ == decode_utf8(bytes@),
        res matches Err(n) ==> n < bytes@.len() && valid_utf8(bytes@.take(n as int)) && forall|m: int|
            n < m <= bytes@.len() ==> !valid_utf8(#[trigger] bytes@.take(m)),
{
    String::from_utf8(bytes).map_err(|e| e.utf8_error().valid_up_to())
}

/// The text that valid UTF-8 bytes encode, and nothing for other bytes.
pub fn string_from_utf8(bytes: Vec<u8>) -> (res: Option<String>)
    ensures
        res is Some <==> valid_utf8(bytes@),
        res matches Some(s) ==> s@ == decode_utf8(bytes@),
{
    match utf8_to_string(bytes) {
        Ok(s) => Some(s),
        Err(_) => None,
    }
}


/// ASCII bytes decode to the characters with the same codes.
pub open spec fn ascii_chars(bytes: Seq<u8>) -> Seq<char> {
    Seq::new(bytes.len(), |i: int| bytes[i] as char)
}

pub open spec fn is_ascii_bytes(bytes: Seq<u8>) -> bool {
    forall|i: int| 0 <= i < bytes.len() ==> #[trigger] bytes[i] < 128
}

/// The text spelled by `bytes`, read as UTF-8.
pub fn text_from_bytes(bytes: &[u8]) -> (res: Option<String>)
    ensures
        res is Some <==> valid_utf8(bytes@),
        res matches Some(s) ==> s@ == decode_utf8(bytes@),
{
    let mut v: Vec<u8> = Vec::new();
    let mut i: usize = 0;
    while i < bytes.len()
        invariant
            i <= bytes.len(),
            v@ =~= bytes@.take(i as int),
        decreases bytes.len() - i,
    {
        v.push(bytes[i]);
        i = i + 1;
    }
    assert(v@ =~= bytes@);
    string_from_utf8(v)
}

/// Bytes below 128 are valid UTF-8.
pub proof fn lemma_ascii_valid_utf8(bytes: Seq<u8>)
    requires
        is_ascii_bytes(bytes),
    ensures
        valid_utf8(bytes),
        decode_utf8(bytes) == ascii_chars(bytes),
    decreases bytes.len(),
{
    if bytes.len() > 0 {
        assert(bytes[0] < 128);
        let b0 = bytes[0];
        assert(is_leading_byte_width_1(b0)) by (bit_vector)
            requires
                b0 < 128,
        ;
        let rest = bytes.drop_first();
        assert(pop_first_scalar(bytes) =~= rest);
        assert forall|i: int| 0 <= i < rest.len() implies #[trigger] rest[i] < 128 by {
            assert(rest[i] == bytes[i + 1]);
        }
        lemma_ascii_valid_utf8(rest);
        assert(((b0 & 0x7f) as u32) == b0 as u32) by (bit_vector)
            requires
                b0 < 128,
        ;
        assert(decode_first_scalar(bytes) == bytes[0] as u32);
        assert(decode_utf8(bytes) =~= ascii_chars(bytes));
    } else {
        assert(decode_utf8(bytes) =~= ascii_chars(bytes));
    }
}

} // verus!
