use vstd::prelude::*;
use vstd::string::*;
use vstd::utf8::*;

use crate::binary::{lemma_split_until_concat, lemma_strip_prefix_concat, split_until_spec, strip_prefix_spec, BinaryReader};
use crate::bytes::push_all;
use crate::commit::{signature_reads_back, SignatureV};
use crate::fields::{
    id_line, lemma_id_line, lemma_signature_line, lemma_text_line, push_id, push_text,
    read_id_line, read_signature_line, read_text_line, signature_line, text_line,
};
use crate::object_db::{Error as OdbError, IOdb};
use crate::object_id::ObjectId;
use crate::object_type::{lemma_object_type_name_injective, object_type_name, ObjectType};
use crate::sha1::hex_encode;
use crate::signature::{signature_bytes, Signature};

verus! {

/// An annotated tag: the object it names, that object's type, who tagged it, its name and its
/// message.
#[derive(Debug, Clone)]
pub struct Tag {
    pub object_id: ObjectId,
    pub object_type: ObjectType,
    pub tagger: Signature,
    pub name: String,
    pub message: String,
}

/// A tag as its object, the object's type, its tagger, its name and its message.
pub type TagV = (Seq<u8>, ObjectType, SignatureV, Seq<char>, Seq<char>);

impl View for Tag {
    type V = TagV;

    open spec fn view(&self) -> TagV {
        (self.object_id@, self.object_type, self.tagger@, self.name@, self.message@)
    }
}

impl Tag {
    /// A copy with the same fields.
    pub fn duplicate(&self) -> (r: Tag)
        ensures
            r@ == self@,
    {
        Tag {
            object_id: self.object_id,
            object_type: self.object_type,
            tagger: self.tagger.duplicate(),
            name: self.name.clone(),
            message: self.message.clone(),
        }
    }
}

/// Why a tag could not be made, stored or read.
#[derive(Debug)]
pub enum Error {
    CannotCreateTag(crate::refs::Error),
    LookupTagRefFailed(crate::refs::Error),
    OdbWriteFailed(OdbError),
    OdbReadFailed(OdbError),
}

pub open spec fn kw_object() -> Seq<u8> {
    seq![111u8, 98, 106, 101, 99, 116, 32]
}

pub open spec fn kw_type() -> Seq<u8> {
    seq![116u8, 121, 112, 101, 32]
}

pub open spec fn kw_tag() -> Seq<u8> {
    seq![116u8, 97, 103, 32]
}

pub open spec fn kw_tagger() -> Seq<u8> {
    seq![116u8, 97, 103, 103, 101, 114, 32]
}

/// A line that holds the name of an object type: the type, and what follows the line.
pub open spec fn type_line(s: Seq<u8>) -> Option<(ObjectType, Seq<u8>)> {
    match split_until_spec(s, 10) {
        None => None,
        Some((l, r)) => if exists|t: ObjectType| object_type_name(t) == l {
            Some((choose|t: ObjectType| object_type_name(t) == l, r))
        } else {
            None
        },
    }
}

/// The text of a tag object.
pub open spec fn tag_bytes(t: TagV) -> Seq<u8> {
    kw_object() + hex_encode(t.0) + seq![10u8] + kw_type() + object_type_name(t.1) + seq![10u8]
        + kw_tag() + encode_utf8(t.3) + seq![10u8] + kw_tagger() + signature_bytes(t.2) + seq![
        10u8,
        10u8,
    ] + encode_utf8(t.4) + seq![10u8]
}

/// The tagger line and what follows it: a blank line and the first line of the message.
pub open spec fn parse_tag_tail(s: Seq<u8>) -> Option<(SignatureV, Seq<char>)> {
    match strip_prefix_spec(s, kw_tagger()) {
        None => None,
        Some(r) => match signature_line(r) {
            None => None,
            Some((tagger, r2)) => match strip_prefix_spec(r2, seq![10u8]) {
                None => None,
                Some(r3) => match text_line(r3) {
                    None => None,
                    Some((m, _)) => Some((tagger, m)),
                },
            },
        },
    }
}

/// The tag that `s` writes: its `object`, `type`, `tag` and `tagger` lines, a blank line and
/// the first line of the message; what follows is not read.
pub open spec fn parse_tag_spec(s: Seq<u8>) -> Option<TagV> {
    match strip_prefix_spec(s, kw_object()) {
        None => None,
        Some(r0) => match id_line(r0) {
            None => None,
            Some((id, r1)) => match strip_prefix_spec(r1, kw_type()) {
                None => None,
                Some(r2) => match type_line(r2) {
                    None => None,
                    Some((ty, r3)) => match strip_prefix_spec(r3, kw_tag()) {
                        None => None,
                        Some(r4) => match text_line(r4) {
                            None => None,
                            Some((name, r5)) => match parse_tag_tail(r5) {
                                None => None,
                                Some((tagger, m)) => Some((id, ty, tagger, name, m)),
                            },
                        },
                    },
                },
            },
        },
    }
}

fn kw_object_bytes() -> (r: &'static [u8])
    ensures
        r@ == kw_object(),
{
    let r: &'static [u8] = &[111u8, 98, 106, 101, 99, 116, 32];
    assert(r@ =~= kw_object());
    r
}

fn kw_type_bytes() -> (r: &'static [u8])
    ensures
        r@ == kw_type(),
{
    let r: &'static [u8] = &[116u8, 121, 112, 101, 32];
    assert(r@ =~= kw_type());
    r
}

fn kw_tag_bytes() -> (r: &'static [u8])
    ensures
        r@ == kw_tag(),
{
    let r: &'static [u8] = &[116u8, 97, 103, 32];
    assert(r@ =~= kw_tag());
    r
}

fn kw_tagger_bytes() -> (r: &'static [u8])
    ensures
        r@ == kw_tagger(),
{
    let r: &'static [u8] = &[116u8, 97, 103, 103, 101, 114, 32];
    assert(r@ =~= kw_tagger());
    r
}

/// Reads a line that holds the name of an object type.
fn read_type_line(reader: &mut BinaryReader) -> (r: Option<ObjectType>)
    ensures
        r is Some <==> type_line(old(reader)@) is Some,
        r matches Some(t) ==> type_line(old(reader)@) == Some((t, final(reader)@)),
{
    let l = match reader.split_until_inclusive(10u8) {
        Some(l) => l,
        None => return None,
    };
    let r = ObjectType::from(l);
    proof {
        if let Some(t) = r {
            let c = choose|u: ObjectType| object_type_name(u) == l@;
            lemma_object_type_name_injective(t, c);
        }
    }
    r
}

/// The text of a tag object with these fields, as the tag writer produces it.
pub fn write_tag_ext(
    object_id: &ObjectId,
    object_type: ObjectType,
    tag_name: &str,
    tagger: &Signature,
    message: &str,
) -> (r: Vec<u8>)
    requires
        tagger.time.offset > i32::MIN,
    ensures
        r@ == tag_bytes((object_id@, object_type, tagger@, tag_name@, message@)),
{
    let mut out: Vec<u8> = Vec::new();
    push_all(&mut out, kw_object_bytes());
    push_id(&mut out, object_id);
    out.push(10u8);
    push_all(&mut out, kw_type_bytes());
    push_all(&mut out, object_type.as_bytes());
    out.push(10u8);
    push_all(&mut out, kw_tag_bytes());
    push_text(&mut out, tag_name);
    out.push(10u8);
    push_all(&mut out, kw_tagger_bytes());
    let t = tagger.to_bytes();
    push_all(&mut out, t.as_slice());
    out.push(10u8);
    out.push(10u8);
    push_text(&mut out, message);
    out.push(10u8);
    assert(out@ =~= tag_bytes((object_id@, object_type, tagger@, tag_name@, message@)));
    out
}

/// The text of a tag object.
pub fn write_tag_to_buffer(tag: &Tag) -> (r: Vec<u8>)
    requires
        tag.tagger.time.offset > i32::MIN,
    ensures
        r@ == tag_bytes(tag@),
{
    write_tag_ext(
        &tag.object_id,
        tag.object_type,
        tag.name.as_str(),
        &tag.tagger,
        tag.message.as_str(),
    )
}

/// Reads the text of a tag object.
pub fn read_tag_from_buffer(buffer: &[u8]) -> (r: Option<Tag>)
    ensures
        r is Some <==> parse_tag_spec(buffer@) is Some,
        r matches Some(t) ==> t@ == parse_tag_spec(buffer@).unwrap(),
{
    let mut reader = BinaryReader::new(buffer);
    if reader.skip_prefix(kw_object_bytes()).is_none() {
        return None;
    }
    let object_id = match read_id_line(&mut reader) {
        Some(id) => id,
        None => return None,
    };
    if reader.skip_prefix(kw_type_bytes()).is_none() {
        return None;
    }
    let object_type = match read_type_line(&mut reader) {
        Some(t) => t,
        None => return None,
    };
    if reader.skip_prefix(kw_tag_bytes()).is_none() {
        return None;
    }
    let name = match read_text_line(&mut reader) {
        Some(n) => n,
        None => return None,
    };
    if reader.skip_prefix(kw_tagger_bytes()).is_none() {
        return None;
    }
    let tagger = match read_signature_line(&mut reader) {
        Some(s) => s,
        None => return None,
    };
    if reader.skip_byte(10u8).is_none() {
        return None;
    }
    let message = match read_text_line(&mut reader) {
        Some(m) => m,
        None => return None,
    };
    Some(Tag { object_id, object_type, tagger, name, message })
}

/// The tag stored under `id`; another object, or a failed read, gives `OdbReadFailed`.
pub fn lookup_tag_by_id<T: IOdb>(odb: &T, id: ObjectId) -> (r: Result<Tag, Error>)
    ensures
        odb.obeys_store_laws() ==> (r matches Ok(t) ==> odb.object_at(id@) == Some(
            crate::object_db::ObjectV::Tag(t@),
        )),
        odb.obeys_store_laws() ==> (odb.object_at(id@) matches Some(o) && !(o is Tag) ==> r is Err),
        r matches Err(e) ==> e is OdbReadFailed,
{
    match odb.read_tag(id) {
        Ok(t) => Ok(t),
        Err(e) => Err(Error::OdbReadFailed(e)),
    }
}

/// A line written with the name of a type reads back as that type.
proof fn lemma_type_line(t: ObjectType, rest: Seq<u8>)
    ensures
        type_line(object_type_name(t) + seq![10u8] + rest) == Some((t, rest)),
{
    assert(crate::binary::lacks(object_type_name(t), 10));
    lemma_split_until_concat(object_type_name(t), 10, rest);
    let c = choose|u: ObjectType| #[trigger] object_type_name(u) == object_type_name(t);
    lemma_object_type_name_injective(t, c);
}

/// The tagger line, the blank line and the message line read back.
proof fn lemma_tag_tail(tagger: SignatureV, m: Seq<char>)
    requires
        signature_reads_back(tagger),
        crate::binary::lacks(encode_utf8(m), 10),
    ensures
        parse_tag_tail(kw_tagger() + signature_bytes(tagger) + seq![10u8, 10u8] + encode_utf8(m)
            + seq![10u8]) == Some((tagger, m)),
{
    let after = encode_utf8(m) + seq![10u8];
    let r2 = seq![10u8] + after;
    let r = signature_bytes(tagger) + seq![10u8] + r2;
    assert(kw_tagger() + signature_bytes(tagger) + seq![10u8, 10u8] + encode_utf8(m) + seq![10u8]
        =~= kw_tagger() + r);
    lemma_strip_prefix_concat(kw_tagger(), r);
    lemma_signature_line(tagger, r2);
    lemma_strip_prefix_concat(seq![10u8], after);
    assert(after =~= encode_utf8(m) + seq![10u8] + Seq::<u8>::empty());
    lemma_text_line(m, Seq::<u8>::empty());
}

/// Reading back the text of a tag gives the tag, when its object is named, its tagger reads
/// back on a line of its own, and its name and message are each one line.
pub proof fn lemma_tag_roundtrip(t: TagV)
    requires
        t.0.len() == 20,
        signature_reads_back(t.2),
        crate::binary::lacks(encode_utf8(t.3), 10),
        crate::binary::lacks(encode_utf8(t.4), 10),
    ensures
        parse_tag_spec(tag_bytes(t)) == Some(t),
{
    let r5 = kw_tagger() + signature_bytes(t.2) + seq![10u8, 10u8] + encode_utf8(t.4) + seq![10u8];
    let r4 = encode_utf8(t.3) + seq![10u8] + r5;
    let r3 = kw_tag() + r4;
    let r2 = object_type_name(t.1) + seq![10u8] + r3;
    let r1 = kw_type() + r2;
    let r0 = hex_encode(t.0) + seq![10u8] + r1;
    assert(tag_bytes(t) =~= kw_object() + r0);
    lemma_strip_prefix_concat(kw_object(), r0);
    lemma_id_line(t.0, r1);
    lemma_strip_prefix_concat(kw_type(), r2);
    lemma_type_line(t.1, r3);
    lemma_strip_prefix_concat(kw_tag(), r4);
    lemma_text_line(t.3, r5);
    lemma_tag_tail(t.2, t.4);
}

} // verus!
