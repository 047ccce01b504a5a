use vstd::prelude::*;
use vstd::string::*;
use vstd::utf8::*;

use crate::binary::{lacks, lemma_split_until_concat, split_until_spec, BinaryReader};
use crate::bytes::{push_all, to_vec};
use crate::object_id::ObjectId;
use crate::sha1::{hex_encode, lemma_hex_roundtrip, sha1_from_hex_spec};
use crate::signature::{parse_signature_spec, Signature};
use crate::text::string_from_utf8;
use crate::time::Time;

verus! {

broadcast use {vstd::utf8::encode_utf8_decode_utf8, vstd::utf8::encode_utf8_valid_utf8};

/// A line that holds an object name in hexadecimal: the name, and what follows the line.
pub open spec fn id_line(s: Seq<u8>) -> Option<(Seq<u8>, Seq<u8>)> {
    match split_until_spec(s, 10) {
        None => None,
        Some((l, r)) => match sha1_from_hex_spec(l) {
            Ok(b) => Some((b, r)),
            Err(_) => None,
        },
    }
}

/// A line of UTF-8 text: the text, and what follows the line.
pub open spec fn text_line(s: Seq<u8>) -> Option<(Seq<char>, Seq<u8>)> {
    match split_until_spec(s, 10) {
        None => None,
        Some((l, r)) => if valid_utf8(l) {
            Some((decode_utf8(l), r))
        } else {
            None
        },
    }
}

/// A line that holds a signature: the signature, and what follows the line.
pub open spec fn signature_line(s: Seq<u8>) -> Option<((Seq<char>, Seq<char>, Time), Seq<u8>)> {
    match split_until_spec(s, 10) {
        None => None,
        Some((l, r)) => match parse_signature_spec(l) {
            Some(sig) => Some((sig, r)),
            None => None,
        },
    }
}

/// Reads a line that holds an object name in hexadecimal.
pub fn read_id_line(reader: &mut BinaryReader) -> (r: Option<ObjectId>)
    ensures
        r is Some <==> id_line(old(reader)@) is Some,
        r matches Some(id) ==> id_line(old(reader)@) == Some((id@, final(reader)@)),
{
    let l = match reader.split_until_inclusive(10u8) {
        Some(l) => l,
        None => return None,
    };
    match ObjectId::from_ascii_hex(l) {
        Ok(id) => Some(id),
        Err(_) => None,
    }
}

/// Reads a line of UTF-8 text.
pub fn read_text_line(reader: &mut BinaryReader) -> (r: Option<String>)
    ensures
        r is Some <==> text_line(old(reader)@) is Some,
        r matches Some(t) ==> text_line(old(reader)@) == Some((t@, final(reader)@)),
{
    let l = match reader.split_until_inclusive(10u8) {
        Some(l) => l,
        None => return None,
    };
    string_from_utf8(to_vec(l))
}

/// Reads a line that holds a signature.
pub fn read_signature_line(reader: &mut BinaryReader) -> (r: Option<Signature>)
    ensures
        r is Some <==> signature_line(old(reader)@) is Some,
        r matches Some(s) ==> signature_line(old(reader)@) == Some((s@, final(reader)@)),
{
    let l = match reader.split_until_inclusive(10u8) {
        Some(l) => l,
        None => return None,
    };
    Signature::try_from_bytes(l)
}

/// Appends the lowercase hexadecimal name of an object.
pub fn push_id(out: &mut Vec<u8>, id: &ObjectId)
    ensures
        final(out)@ == old(out)@ + hex_encode(id@),
{
    let h = id.to_hex();
    push_all(out, h.as_slice());
}

/// Appends the UTF-8 bytes of a text.
pub fn push_text(out: &mut Vec<u8>, s: &str)
    ensures
        final(out)@ == old(out)@ + encode_utf8(s@),
{
    push_all(out, s.as_bytes());
}

/// A line written with the hexadecimal name of an object reads back as that name.
pub proof fn lemma_id_line(b: Seq<u8>, rest: Seq<u8>)
    requires
        b.len() == 20,
    ensures
        id_line(hex_encode(b) + seq![10u8] + rest) == Some((b, rest)),
{
    lemma_hex_roundtrip(b);
    let h = hex_encode(b);
    assert forall|j: int| 0 <= j < h.len() implies h[j] != 10 by {
        if j % 2 == 0 {
            assert(b[j / 2] / 16 < 16);
        } else {
            assert(b[j / 2] % 16 < 16);
        }
    }
    assert(lacks(h, 10));
    lemma_split_until_concat(h, 10, rest);
}

/// A line written with text that holds no line feed reads back as that text.
pub proof fn lemma_text_line(t: Seq<char>, rest: Seq<u8>)
    requires
        lacks(encode_utf8(t), 10),
    ensures
        text_line(encode_utf8(t) + seq![10u8] + rest) == Some((t, rest)),
{
    lemma_split_until_concat(encode_utf8(t), 10, rest);
    assert(valid_utf8(encode_utf8(t)));
    assert(decode_utf8(encode_utf8(t)) == t);
}

/// What follows a line is shorter than what holds the line.
pub proof fn lemma_split_shorter(s: Seq<u8>)
    ensures
        split_until_spec(s, 10) matches Some((l, r)) ==> r.len() < s.len(),
{
    crate::binary::lemma_find_first(s, 10);
}

/// A line written with a signature reads back as that signature, when the signature reads
/// back and its text holds no line feed.
pub proof fn lemma_signature_line(sig: (Seq<char>, Seq<char>, Time), rest: Seq<u8>)
    requires
        lacks(encode_utf8(sig.0), 60),
        crate::signature::trim_end(encode_utf8(sig.0)) == encode_utf8(sig.0),
        lacks(encode_utf8(sig.1), 62),
        crate::time::offset_abs(sig.2) / 3600 < 100,
        crate::time::offset_abs(sig.2) % 3600 < 100,
        lacks(crate::signature::signature_bytes(sig), 10),
    ensures
        signature_line(crate::signature::signature_bytes(sig) + seq![10u8] + rest) == Some(
            (sig, rest),
        ),
{
    lemma_split_until_concat(crate::signature::signature_bytes(sig), 10, rest);
    crate::signature::lemma_signature_roundtrip(sig);
}

} // verus!
