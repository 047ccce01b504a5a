use std::io::{Read, Write};
use vstd::prelude::*;

use crate::binary::{
    digits_of, is_digit_of, lacks, lemma_digits_of, lemma_parse_digits_of,
    lemma_split_until_concat, parse_uint, parse_uint_spec, push_uint, split_until_spec,
};
use crate::blob::Blob;
use crate::bytes::{push_all, to_vec};
use crate::commit::{Commit, CommitV};
use crate::object_id::ObjectId;
use crate::object_type::{lemma_object_type_name_injective, object_type_name, ObjectType};
use crate::sha1::{sha1_digest, Sha1Hasher};
use crate::tag::{Tag, TagV};
use crate::tree::{Tree, TreeEntryV};

verus! {

#[verifier::external_type_specification]
#[verifier::external_body]
pub struct ExIoError(std::io::Error);

#[verifier::external_type_specification]
#[verifier::external_body]
pub struct ExPathBuf(std::path::PathBuf);

/// Why an object could not be stored or loaded.
#[derive(Debug)]
pub enum Error {
    CreateTmpFileFailed(std::io::Error),
    RemoveTmpFile(std::io::Error),
    RenameFile(std::path::PathBuf, std::io::Error),
    CreateDirFailed(std::io::Error),
    WriteToFileFailed(std::io::Error),
    CannotLoadObject(std::io::Error),
    HashMismatch,
    CorruptedObject,
    NotFound,
    UnexpectedObjectType,
}

/// `type size\0`: the header that precedes the content of every object.
pub open spec fn object_header(t: ObjectType, size: nat) -> Seq<u8> {
    object_type_name(t) + seq![32u8] + digits_of(size, 10) + seq![0u8]
}

/// The name of an object: the SHA-1 digest of its header and content.
pub open spec fn object_name(t: ObjectType, content: Seq<u8>) -> Seq<u8> {
    sha1_digest(object_header(t, content.len()) + content)
}

/// The type and content that a header and content write: the type's name up to the first
/// space, the size up to the first NUL, and a content of that size.
pub open spec fn parse_object_spec(data: Seq<u8>) -> Option<(ObjectType, Seq<u8>)> {
    match split_until_spec(data, 32) {
        None => None,
        Some((h, r)) => if !(exists|t: ObjectType| object_type_name(t) == h) {
            None
        } else {
            match split_until_spec(r, 0) {
                None => None,
                Some((sz, content)) => match parse_uint_spec(sz, 10) {
                    None => None,
                    Some(n) => if n > usize::MAX || n != content.len() {
                        None
                    } else {
                        Some((choose|t: ObjectType| object_type_name(t) == h, content))
                    },
                },
            }
        },
    }
}

/// What `flate2`'s zlib encoder at its fast level writes for `data`.
pub uninterp spec fn zlib_deflate_fast(data: Seq<u8>) -> Seq<u8>;

/// What `flate2`'s zlib decoder reads from `data`, if `data` is a zlib stream.
pub uninterp spec fn zlib_inflate(data: Seq<u8>) -> Option<Seq<u8>>;

/// `flate2::write::ZlibEncoder` at `Compression::fast()` over a `Vec`: the compressed bytes,
/// which the decoder reads back as `data`.
#[verifier::external_body]
fn zlib_compress(data: &[u8]) -> (r: Result<Vec<u8>, std::io::Error>)
    ensures
        r matches Ok(v) ==> v@ == zlib_deflate_fast(data@) && zlib_inflate(v@) == Some(data@),
{
    let mut e = flate2::write::ZlibEncoder::new(Vec::new(), flate2::Compression::fast());
    e.write_all(data)?;
    e.finish()
}

/// `flate2::read::ZlibDecoder` read to its end: the decompressed bytes of a zlib stream, and
/// an error for other bytes.
#[verifier::external_body]
fn zlib_decompress(data: &[u8]) -> (r: Result<Vec<u8>, std::io::Error>)
    ensures
        r is Ok <==> zlib_inflate(data@) is Some,
        r matches Ok(v) ==> zlib_inflate(data@) == Some(v@),
{
    let mut d = flate2::read::ZlibDecoder::new(data);
    let mut out = Vec::new();
    d.read_to_end(&mut out)?;
    Ok(out)
}

/// The header of an object of this type and size.
pub fn build_object_header(object_type: ObjectType, size: u64) -> (r: Vec<u8>)
    ensures
        r@ == object_header(object_type, size as nat),
{
    let mut buffer: Vec<u8> = Vec::new();
    push_all(&mut buffer, object_type.as_bytes());
    buffer.push(32u8);
    push_uint(&mut buffer, size, 10);
    buffer.push(0u8);
    assert(buffer@ =~= object_header(object_type, size as nat));
    buffer
}

/// The name that an object of this type and content gets.
pub fn hash_buffer(buffer: &[u8], object_type: ObjectType) -> (r: ObjectId)
    ensures
        r@ == object_name(object_type, buffer@),
{
    let mut hasher = Sha1Hasher::new();
    let header = build_object_header(object_type, buffer.len() as u64);
    hasher.update(header.as_slice());
    hasher.update(buffer);
    ObjectId::from_sha1(hasher.finalize())
}

/// Splits a stored object into its type and content.
pub fn parse_object_type_and_content(data: &[u8]) -> (r: Result<(ObjectType, Vec<u8>), Error>)
    ensures
        match parse_object_spec(data@) {
            Some((t, c)) => r matches Ok((t2, c2)) && t2 == t && c2@ == c,
            None => r matches Err(Error::CorruptedObject),
        },
{
    let mut reader = crate::binary::BinaryReader::new(data);
    let header = match reader.split_until_inclusive(32u8) {
        Some(h) => h,
        None => return Err(Error::CorruptedObject),
    };
    let object_type = match ObjectType::from(header) {
        Some(t) => t,
        None => return Err(Error::CorruptedObject),
    };
    proof {
        let c = choose|u: ObjectType| object_type_name(u) == header@;
        lemma_object_type_name_injective(object_type, c);
    }
    let size = match reader.split_until_inclusive(0u8) {
        Some(s) => s,
        None => return Err(Error::CorruptedObject),
    };
    let n = match parse_uint(size, 10, usize::MAX as u64) {
        Some(n) => n,
        None => return Err(Error::CorruptedObject),
    };
    let content = reader.bytes();
    if n != content.len() as u64 {
        return Err(Error::CorruptedObject);
    }
    Ok((object_type, to_vec(content)))
}

/// A header and content split back into the type and content.
pub proof fn lemma_object_roundtrip(t: ObjectType, content: Seq<u8>)
    requires
        content.len() <= usize::MAX,
    ensures
        parse_object_spec(object_header(t, content.len()) + content) == Some((t, content)),
{
    let name = object_type_name(t);
    let d = digits_of(content.len(), 10);
    lemma_digits_of(content.len(), 10);
    lemma_parse_digits_of(content.len(), 10);
    assert(lacks(name, 32));
    assert forall|j: int| 0 <= j < d.len() implies d[j] != 0 by {
        assert(is_digit_of(d[j], 10));
    }
    let r = d + seq![0u8] + content;
    assert(object_header(t, content.len()) + content =~= name + seq![32u8] + r);
    lemma_split_until_concat(name, 32, r);
    lemma_split_until_concat(d, 0, content);
    let c = choose|u: ObjectType| object_type_name(u) == name;
    lemma_object_type_name_injective(t, c);
}

/// A loose object reads back: from the name and the compressed bytes that encoding a type
/// and a content gives, decoding finds the bytes, their name matches, and they hold that type
/// and content.
pub proof fn lemma_loose_object_roundtrip(t: ObjectType, content: Seq<u8>, name: Seq<u8>, z: Seq<u8>)
    requires
        content.len() <= usize::MAX,
        name == object_name(t, content),
        zlib_inflate(z) == Some(object_header(t, content.len()) + content),
    ensures
        zlib_inflate(z) matches Some(data) && sha1_digest(data) == name && parse_object_spec(data)
            == Some((t, content)),
{
    lemma_object_roundtrip(t, content);
}

/// How an object is stored: its name and its header and content compressed.
pub fn encode_loose_object(buffer: &[u8], object_type: ObjectType) -> (r: Result<
    (ObjectId, Vec<u8>),
    Error,
>)
    ensures
        r matches Ok((id, z)) ==> id@ == object_name(object_type, buffer@) && z@
            == zlib_deflate_fast(object_header(object_type, buffer@.len()) + buffer@) && zlib_inflate(
            z@,
        ) == Some(object_header(object_type, buffer@.len()) + buffer@),
{
    let mut data = build_object_header(object_type, buffer.len() as u64);
    push_all(&mut data, buffer);
    let id = hash_buffer(buffer, object_type);
    match zlib_compress(data.as_slice()) {
        Ok(z) => Ok((id, z)),
        Err(e) => Err(Error::WriteToFileFailed(e)),
    }
}

/// The type and content of a stored object, checked against its name.
pub fn decode_loose_object(id: &ObjectId, compressed: &[u8]) -> (r: Result<
    (ObjectType, Vec<u8>),
    Error,
>)
    ensures
        match zlib_inflate(compressed@) {
            None => r matches Err(Error::CannotLoadObject(_)),
            Some(data) => if sha1_digest(data) != id@ {
                r matches Err(Error::HashMismatch)
            } else {
                match parse_object_spec(data) {
                    Some((t, c)) => r matches Ok((t2, c2)) && t2 == t && c2@ == c,
                    None => r matches Err(Error::CorruptedObject),
                }
            },
        },
{
    let data = match zlib_decompress(compressed) {
        Ok(d) => d,
        Err(e) => return Err(Error::CannotLoadObject(e)),
    };
    let mut hasher = Sha1Hasher::new();
    hasher.update(data.as_slice());
    let digest = ObjectId::from_sha1(hasher.finalize());
    if !(digest == *id) {
        return Err(Error::HashMismatch);
    }
    parse_object_type_and_content(data.as_slice())
}

/// Where a stored object lives below the objects directory: the directory named by the first
/// two hexadecimal digits of its name, and the file named by the others.
pub fn loose_object_path(id: &ObjectId) -> (r: (Vec<u8>, Vec<u8>))
    ensures
        r.0@ == crate::sha1::hex_encode(id@).take(2),
        r.1@ == crate::sha1::hex_encode(id@).skip(2),
{
    let hex = id.to_hex();
    proof {
        id.lemma_len();
    }
    let dir = to_vec(&hex.as_slice()[0..2]);
    let file = to_vec(&hex.as_slice()[2..hex.len()]);
    assert(dir@ =~= crate::sha1::hex_encode(id@).take(2));
    assert(file@ =~= crate::sha1::hex_encode(id@).skip(2));
    (dir, file)
}

/// An object of any type.
#[derive(Debug, Clone)]
pub enum Object {
    Blob(Blob),
    Tree(Tree),
    Commit(Commit),
    Tag(Tag),
}

impl Object {
    pub fn get_blob(self) -> (r: Result<Blob, Error>)
        ensures
            match self {
                Object::Blob(b) => r == Ok::<Blob, Error>(b),
                _ => r matches Err(Error::UnexpectedObjectType),
            },
    {
        match self {
            Object::Blob(b) => Ok(b),
            _ => Err(Error::UnexpectedObjectType),
        }
    }

    pub fn get_tree(self) -> (r: Result<Tree, Error>)
        ensures
            match self {
                Object::Tree(t) => r == Ok::<Tree, Error>(t),
                _ => r matches Err(Error::UnexpectedObjectType),
            },
    {
        match self {
            Object::Tree(t) => Ok(t),
            _ => Err(Error::UnexpectedObjectType),
        }
    }

    pub fn get_commit(self) -> (r: Result<Commit, Error>)
        ensures
            match self {
                Object::Commit(c) => r == Ok::<Commit, Error>(c),
                _ => r matches Err(Error::UnexpectedObjectType),
            },
    {
        match self {
            Object::Commit(c) => Ok(c),
            _ => Err(Error::UnexpectedObjectType),
        }
    }

    pub fn get_tag(self) -> (r: Result<Tag, Error>)
        ensures
            match self {
                Object::Tag(t) => r == Ok::<Tag, Error>(t),
                _ => r matches Err(Error::UnexpectedObjectType),
            },
    {
        match self {
            Object::Tag(t) => Ok(t),
            _ => Err(Error::UnexpectedObjectType),
        }
    }
}

/// An object as plain values: a blob's content, a tree's entries, a commit or a tag.
pub enum ObjectV {
    Blob(Seq<u8>),
    Tree(Seq<TreeEntryV>),
    Commit(CommitV),
    Tag(TagV),
}

impl View for Object {
    type V = ObjectV;

    open spec fn view(&self) -> ObjectV {
        match self {
            Object::Blob(b) => ObjectV::Blob(b.data@),
            Object::Tree(t) => ObjectV::Tree(t@),
            Object::Commit(c) => ObjectV::Commit(c@),
            Object::Tag(t) => ObjectV::Tag(t@),
        }
    }
}

impl Object {
    /// A copy of the object.
    pub fn duplicate(&self) -> (r: Object)
        ensures
            r@ == self@,
    {
        match self {
            Object::Blob(b) => Object::Blob(b.duplicate()),
            Object::Tree(t) => Object::Tree(t.duplicate()),
            Object::Commit(c) => Object::Commit(c.duplicate()),
            Object::Tag(t) => Object::Tag(t.duplicate()),
        }
    }
}

/// Every object that `before` stores, `after` stores too, unchanged.
pub open spec fn keeps<T: IOdb + ?Sized>(before: &T, after: &T) -> bool {
    forall|x: Seq<u8>| before.object_at(x) is Some ==> #[trigger] after.object_at(x) == before.object_at(x)
}

/// A store that keeps the store laws goes on keeping them, and keeps every object it held.
pub open spec fn keeps_lawfully<T: IOdb + ?Sized>(before: &T, after: &T) -> bool {
    before.obeys_store_laws() ==> after.obeys_store_laws() && keeps(before, after)
}

/// A store of objects, read and written by name.
///
/// A store that keeps the store laws (`obeys_store_laws`) defines `object_at`, the object it
/// holds under each name; a read then hands back that object or fails, and a write keeps every
/// object held before it, as a store named by content does. A store that does not say so
/// (among them every store written outside the verified library) is promised nothing by the
/// contracts below, and the contracts of the functions that read it say nothing of it.
pub trait IOdb {
    /// Whether this store keeps the store laws.
    closed spec fn obeys_store_laws(&self) -> bool {
        false
    }

    /// The object held under `id`, if there is one.
    closed spec fn object_at(&self, id: Seq<u8>) -> Option<ObjectV> {
        None
    }

    fn read_object(&self, id: ObjectId) -> (r: Result<Object, Error>)
        ensures
            self.obeys_store_laws() ==> (r matches Ok(o) ==> self.object_at(id@) == Some(o@)),
    ;

    fn write_blob(&mut self, blob: &Blob) -> (r: Result<ObjectId, Error>)
        ensures
            old(self).obeys_store_laws() ==> final(self).obeys_store_laws() && forall|x: Seq<u8>|
                old(self).object_at(x) is Some ==> #[trigger] final(self).object_at(x) == old(
                    self,
                ).object_at(x),
    ;

    fn write_tree(&mut self, tree: &Tree) -> (r: Result<ObjectId, Error>)
        ensures
            old(self).obeys_store_laws() ==> final(self).obeys_store_laws() && forall|x: Seq<u8>|
                old(self).object_at(x) is Some ==> #[trigger] final(self).object_at(x) == old(
                    self,
                ).object_at(x),
    ;

    fn write_commit(&mut self, commit: &Commit) -> (r: Result<ObjectId, Error>)
        ensures
            old(self).obeys_store_laws() ==> final(self).obeys_store_laws() && forall|x: Seq<u8>|
                old(self).object_at(x) is Some ==> #[trigger] final(self).object_at(x) == old(
                    self,
                ).object_at(x),
    ;

    fn write_tag(&mut self, tag: &Tag) -> (r: Result<ObjectId, Error>)
        ensures
            old(self).obeys_store_laws() ==> final(self).obeys_store_laws() && forall|x: Seq<u8>|
                old(self).object_at(x) is Some ==> #[trigger] final(self).object_at(x) == old(
                    self,
                ).object_at(x),
    ;

    /// The blob stored under `id`; another object gives `UnexpectedObjectType`.
    fn read_blob(&self, id: ObjectId) -> (r: Result<Blob, Error>)
        ensures
            self.obeys_store_laws() ==> (r matches Ok(b) ==> self.object_at(id@) == Some(
                ObjectV::Blob(b.data@),
            )),
            self.obeys_store_laws() ==> (self.object_at(id@) matches Some(o) && !(o is Blob) ==> r is Err),
    {
        match self.read_object(id) {
            Ok(o) => o.get_blob(),
            Err(e) => Err(e),
        }
    }

    /// The tree stored under `id`; another object gives `UnexpectedObjectType`.
    fn read_tree(&self, id: ObjectId) -> (r: Result<Tree, Error>)
        ensures
            self.obeys_store_laws() ==> (r matches Ok(t) ==> self.object_at(id@) == Some(
                ObjectV::Tree(t@),
            )),
            self.obeys_store_laws() ==> (self.object_at(id@) matches Some(o) && !(o is Tree) ==> r is Err),
    {
        match self.read_object(id) {
            Ok(o) => o.get_tree(),
            Err(e) => Err(e),
        }
    }

    /// The commit stored under `id`; another object gives `UnexpectedObjectType`.
    fn read_commit(&self, id: ObjectId) -> (r: Result<Commit, Error>)
        ensures
            self.obeys_store_laws() ==> (r matches Ok(c) ==> self.object_at(id@) == Some(
                ObjectV::Commit(c@),
            )),
            self.obeys_store_laws() ==> (self.object_at(id@) matches Some(o) && !(o is Commit) ==> r is Err),
    {
        match self.read_object(id) {
            Ok(o) => o.get_commit(),
            Err(e) => Err(e),
        }
    }

    /// The tag stored under `id`; another object gives `UnexpectedObjectType`.
    fn read_tag(&self, id: ObjectId) -> (r: Result<Tag, Error>)
        ensures
            self.obeys_store_laws() ==> (r matches Ok(t) ==> self.object_at(id@) == Some(
                ObjectV::Tag(t@),
            )),
            self.obeys_store_laws() ==> (self.object_at(id@) matches Some(o) && !(o is Tag) ==> r is Err),
    {
        match self.read_object(id) {
            Ok(o) => o.get_tag(),
            Err(e) => Err(e),
        }
    }
}

/// The object of the first entry named `id`.
pub open spec fn first_named(entries: Seq<(ObjectId, Object)>, id: Seq<u8>) -> Option<ObjectV>
    decreases entries.len(),
{
    if entries.len() == 0 {
        None
    } else if entries[0].0@ == id {
        Some(entries[0].1@)
    } else {
        first_named(entries.drop_first(), id)
    }
}

/// A store held in memory: objects under their names, in the order put in.
pub struct ObjectMap {
    entries: Vec<(ObjectId, Object)>,
}

impl ObjectMap {
    /// A store that holds nothing.
    pub fn new() -> (r: ObjectMap)
        ensures
            r.obeys_store_laws(),
            forall|x: Seq<u8>| #[trigger] r.object_at(x) is None,
    {
        ObjectMap { entries: Vec::new() }
    }

    /// Where the first entry named `id` is.
    fn position(&self, id: &ObjectId) -> (r: Option<usize>)
        ensures
            match r {
                Some(k) => k < self.entries@.len() && self.entries@[k as int].0@ == id@
                    && first_named(self.entries@, id@) == Some(self.entries@[k as int].1@),
                None => first_named(self.entries@, id@) is None,
            },
    {
        let mut k: usize = 0;
        assert(self.entries@.skip(0) =~= self.entries@);
        while k < self.entries.len()
            invariant
                k <= self.entries@.len(),
                first_named(self.entries@, id@) == first_named(self.entries@.skip(k as int), id@),
            decreases self.entries@.len() - k,
        {
            proof {
                assert(self.entries@.skip(k as int).drop_first() =~= self.entries@.skip(k + 1));
            }
            if crate::bytes::bytes_eq(self.entries[k].0.as_bytes(), id.as_bytes()) {
                return Some(k);
            }
            k = k + 1;
        }
        None
    }

    /// Puts `object` under `id`, in place of what was there.
    pub fn insert(&mut self, id: ObjectId, object: Object)
        ensures
            final(self).obeys_store_laws(),
            final(self).object_at(id@) == Some(object@),
            forall|x: Seq<u8>| x != id@ ==> #[trigger] final(self).object_at(x) == old(self).object_at(x),
    {
        let ghost before = self.entries@;
        let ghost ov = object@;
        let mut entries: Vec<(ObjectId, Object)> = Vec::new();
        entries.push((id, object));
        proof {
            assert(first_named(entries@, id@) == Some(ov));
        }
        let mut old_entries = Vec::new();
        std::mem::swap(&mut old_entries, &mut self.entries);
        entries.append(&mut old_entries);
        proof {
            assert forall|x: Seq<u8>| x != id@ implies #[trigger] first_named(entries@, x) == first_named(before, x) by {
                assert(entries@.drop_first() =~= before);
            }
        }
        self.entries = entries;
    }

    /// Puts `object` under `id` unless something is already there.
    fn keep_first(&mut self, id: ObjectId, object: Object)
        ensures
            forall|x: Seq<u8>| old(self).object_at(x) is Some ==> #[trigger] final(self).object_at(x)
                == old(self).object_at(x),
    {
        match self.position(&id) {
            Some(_) => {},
            None => {
                let ghost before = self.entries@;
                self.entries.push((id, object));
                proof {
                    lemma_first_named_push(before, (id, self.entries@.last().1), id@);
                }
            },
        }
    }
}

/// Adding an entry at the end changes no name that was already held.
proof fn lemma_first_named_push(entries: Seq<(ObjectId, Object)>, e: (ObjectId, Object), id: Seq<u8>)
    requires
        first_named(entries, id) is None,
        e.0@ == id,
    ensures
        forall|x: Seq<u8>| first_named(entries, x) is Some ==> #[trigger] first_named(entries.push(e), x)
            == first_named(entries, x),
    decreases entries.len(),
{
    assert forall|x: Seq<u8>| first_named(entries, x) is Some implies #[trigger] first_named(entries.push(e), x)
        == first_named(entries, x) by {
        lemma_first_named_push_one(entries, e, x);
    }
}

proof fn lemma_first_named_push_one(entries: Seq<(ObjectId, Object)>, e: (ObjectId, Object), x: Seq<u8>)
    requires
        first_named(entries, x) is Some,
    ensures
        first_named(entries.push(e), x) == first_named(entries, x),
    decreases entries.len(),
{
    if entries.len() > 0 && entries[0].0@ != x {
        assert(entries.push(e).drop_first() =~= entries.drop_first().push(e));
        lemma_first_named_push_one(entries.drop_first(), e, x);
    }
}

impl IOdb for ObjectMap {
    closed spec fn obeys_store_laws(&self) -> bool {
        true
    }

    closed spec fn object_at(&self, id: Seq<u8>) -> Option<ObjectV> {
        first_named(self.entries@, id)
    }

    fn read_object(&self, id: ObjectId) -> (r: Result<Object, Error>) {
        match self.position(&id) {
            Some(k) => Ok(self.entries[k].1.duplicate()),
            None => Err(Error::NotFound),
        }
    }

    fn write_blob(&mut self, blob: &Blob) -> (r: Result<ObjectId, Error>) {
        let id = hash_buffer(blob.data.as_slice(), ObjectType::Blob);
        self.keep_first(id, Object::Blob(blob.duplicate()));
        Ok(id)
    }

    fn write_tree(&mut self, tree: &Tree) -> (r: Result<ObjectId, Error>) {
        let data = crate::tree::write_tree(tree);
        let id = hash_buffer(data.as_slice(), ObjectType::Tree);
        self.keep_first(id, Object::Tree(tree.duplicate()));
        Ok(id)
    }

    fn write_commit(&mut self, commit: &Commit) -> (r: Result<ObjectId, Error>) {
        if commit.author.time.offset == i32::MIN || commit.committer.time.offset == i32::MIN {
            return Err(Error::CorruptedObject);
        }
        let data = crate::commit::write_commit(commit);
        let id = hash_buffer(data.as_slice(), ObjectType::Commit);
        self.keep_first(id, Object::Commit(commit.duplicate()));
        Ok(id)
    }

    fn write_tag(&mut self, tag: &Tag) -> (r: Result<ObjectId, Error>) {
        if tag.tagger.time.offset == i32::MIN {
            return Err(Error::CorruptedObject);
        }
        let data = crate::tag::write_tag_to_buffer(tag);
        let id = hash_buffer(data.as_slice(), ObjectType::Tag);
        self.keep_first(id, Object::Tag(tag.duplicate()));
        Ok(id)
    }
}

/// The object that a type and a content write, read by its type's reader.
pub fn object_from_parts(object_type: ObjectType, data: Vec<u8>) -> (r: Result<Object, Error>)
    ensures
        object_type == ObjectType::Blob ==> (r matches Ok(Object::Blob(b)) && b.data@ == data@),
        object_type == ObjectType::Tree ==> match crate::tree::parse_tree_spec(data@) {
            Some(es) => r matches Ok(Object::Tree(t)) && t@ == es,
            None => r matches Err(Error::CorruptedObject),
        },
        object_type == ObjectType::Commit ==> match crate::commit::parse_commit_spec(data@) {
            Some(c) => r matches Ok(Object::Commit(x)) && x@ == c,
            None => r matches Err(Error::CorruptedObject),
        },
        object_type == ObjectType::Tag ==> match crate::tag::parse_tag_spec(data@) {
            Some(t) => r matches Ok(Object::Tag(x)) && x@ == t,
            None => r matches Err(Error::CorruptedObject),
        },
{
    match object_type {
        ObjectType::Blob => Ok(Object::Blob(Blob::new(data))),
        ObjectType::Tree => match crate::tree::read_tree_from_buffer(data.as_slice()) {
            Some(t) => Ok(Object::Tree(t)),
            None => Err(Error::CorruptedObject),
        },
        ObjectType::Commit => match crate::commit::read_commit_from_buffer(data.as_slice()) {
            Some(c) => Ok(Object::Commit(c)),
            None => Err(Error::CorruptedObject),
        },
        ObjectType::Tag => match crate::tag::read_tag_from_buffer(data.as_slice()) {
            Some(t) => Ok(Object::Tag(t)),
            None => Err(Error::CorruptedObject),
        },
    }
}

/// The signatures of an object can be written.
pub open spec fn writable(o: Object) -> bool {
    match o {
        Object::Commit(c) => c.author.time.offset > i32::MIN && c.committer.time.offset > i32::MIN,
        Object::Tag(t) => t.tagger.time.offset > i32::MIN,
        _ => true,
    }
}

/// The type and content of an object, as its writer lays it out.
pub fn object_to_parts(o: &Object) -> (r: (ObjectType, Vec<u8>))
    requires
        writable(*o),
    ensures
        match *o {
            Object::Blob(b) => r.0 == ObjectType::Blob && r.1@ == b.data@,
            Object::Tree(t) => r.0 == ObjectType::Tree && r.1@ == crate::tree::tree_bytes(t@),
            Object::Commit(c) => r.0 == ObjectType::Commit && r.1@ == crate::commit::commit_bytes(c@),
            Object::Tag(t) => r.0 == ObjectType::Tag && r.1@ == crate::tag::tag_bytes(t@),
        },
{
    match o {
        Object::Blob(b) => (ObjectType::Blob, to_vec(b.data.as_slice())),
        Object::Tree(t) => (ObjectType::Tree, crate::tree::write_tree(t)),
        Object::Commit(c) => (ObjectType::Commit, crate::commit::write_commit(c)),
        Object::Tag(t) => (ObjectType::Tag, crate::tag::write_tag_to_buffer(t)),
    }
}

} // verus!
