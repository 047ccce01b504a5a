use vstd::prelude::*;
use vstd::string::*;
use vstd::utf8::*;

use crate::binary::{lemma_strip_prefix_concat, strip_prefix_spec, BinaryReader};
use crate::bytes::push_all;
use crate::fields::{
    id_line, lemma_id_line, lemma_text_line, push_id, push_text, read_id_line, read_signature_line,
    read_text_line, signature_line, text_line,
};
use crate::index::{Index, OpenIndexError};
use crate::object_db::{object_name, Error as OdbError, IOdb, Object, ObjectV};
use crate::object_id::ObjectId;
use crate::object_type::ObjectType;
use crate::sha1::hex_encode;
use crate::tree::{block_end, bufs_view, create_trees_from_index, listing, no_trailing_slash};
use crate::signature::{
    lemma_signature_roundtrip, signature_bytes, trim_end, AuthorInfo, CommitterInfo, Signature,
};
use crate::time::{offset_abs, Time};

verus! {

/// A snapshot: the tree it records, its parents, who wrote it and who committed it, and why.
#[derive(Debug, Clone, PartialEq, Eq)]
pub struct Commit {
    pub tree_id: ObjectId,
    pub parents: Vec<ObjectId>,
    pub author: Signature,
    pub committer: Signature,
    pub message: String,
}

/// A signature as a name, an email and a time.
pub type SignatureV = (Seq<char>, Seq<char>, Time);

/// A commit as its tree, its parents, its author, its committer and its message.
pub type CommitV = (Seq<u8>, Seq<Seq<u8>>, SignatureV, SignatureV, Seq<char>);

/// The names of a run of objects.
pub open spec fn ids_view(ids: Seq<ObjectId>) -> Seq<Seq<u8>> {
    ids.map_values(|id: ObjectId| id@)
}

impl View for Commit {
    type V = CommitV;

    open spec fn view(&self) -> CommitV {
        (self.tree_id@, ids_view(self.parents@), self.author@, self.committer@, self.message@)
    }
}

pub open spec fn kw_tree() -> Seq<u8> {
    seq![116u8, 114, 101, 101, 32]
}

pub open spec fn kw_parent() -> Seq<u8> {
    seq![112u8, 97, 114, 101, 110, 116, 32]
}

pub open spec fn kw_author() -> Seq<u8> {
    seq![97u8, 117, 116, 104, 111, 114, 32]
}

pub open spec fn kw_committer() -> Seq<u8> {
    seq![99u8, 111, 109, 109, 105, 116, 116, 101, 114, 32]
}

/// One `parent <id>` line per parent.
pub open spec fn parents_bytes(ps: Seq<Seq<u8>>) -> Seq<u8>
    decreases ps.len(),
{
    if ps.len() == 0 {
        seq![]
    } else {
        kw_parent() + hex_encode(ps[0]) + seq![10u8] + parents_bytes(ps.drop_first())
    }
}

/// The text of a commit object.
pub open spec fn commit_bytes(c: CommitV) -> Seq<u8> {
    kw_tree() + hex_encode(c.0) + seq![10u8] + parents_bytes(c.1) + kw_author() + signature_bytes(
        c.2,
    ) + seq![10u8] + kw_committer() + signature_bytes(c.3) + seq![10u8, 10u8] + encode_utf8(c.4)
        + seq![10u8]
}

/// The `parent` lines at the front of `s`, and what follows them.
pub open spec fn parse_parents(s: Seq<u8>) -> Option<(Seq<Seq<u8>>, Seq<u8>)>
    decreases s.len(),
{
    match strip_prefix_spec(s, kw_parent()) {
        None => Some((seq![], s)),
        Some(r) => match id_line(r) {
            None => None,
            Some((id, r2)) => if r2.len() < s.len() {
                match parse_parents(r2) {
                    None => None,
                    Some((ps, r3)) => Some((seq![id] + ps, r3)),
                }
            } else {
                None
            },
        },
    }
}

/// The message line and the end of a commit, after the committer line.
pub open spec fn parse_commit_tail(s: Seq<u8>) -> Option<Seq<char>> {
    match strip_prefix_spec(s, seq![10u8]) {
        None => None,
        Some(r) => match text_line(r) {
            None => None,
            Some((m, _)) => Some(m),
        },
    }
}

/// The commit that `s` writes: its `tree` line, its `parent` lines, its `author` and
/// `committer` lines, a blank line and the first line of the message; what follows is not
/// read.
pub open spec fn parse_commit_spec(s: Seq<u8>) -> Option<CommitV> {
    match strip_prefix_spec(s, kw_tree()) {
        None => None,
        Some(r0) => match id_line(r0) {
            None => None,
            Some((tree, r1)) => match parse_parents(r1) {
                None => None,
                Some((ps, r2)) => match strip_prefix_spec(r2, kw_author()) {
                    None => None,
                    Some(r3) => match signature_line(r3) {
                        None => None,
                        Some((a, r4)) => match strip_prefix_spec(r4, kw_committer()) {
                            None => None,
                            Some(r5) => match signature_line(r5) {
                                None => None,
                                Some((c, r6)) => match parse_commit_tail(r6) {
                                    None => None,
                                    Some(m) => Some((tree, ps, a, c, m)),
                                },
                            },
                        },
                    },
                },
            },
        },
    }
}

fn kw_tree_bytes() -> (r: &'static [u8])
    ensures
        r@ == kw_tree(),
{
    let r: &'static [u8] = &[116u8, 114, 101, 101, 32];
    assert(r@ =~= kw_tree());
    r
}

fn kw_parent_bytes() -> (r: &'static [u8])
    ensures
        r@ == kw_parent(),
{
    let r: &'static [u8] = &[112u8, 97, 114, 101, 110, 116, 32];
    assert(r@ =~= kw_parent());
    r
}

fn kw_author_bytes() -> (r: &'static [u8])
    ensures
        r@ == kw_author(),
{
    let r: &'static [u8] = &[97u8, 117, 116, 104, 111, 114, 32];
    assert(r@ =~= kw_author());
    r
}

fn kw_committer_bytes() -> (r: &'static [u8])
    ensures
        r@ == kw_committer(),
{
    let r: &'static [u8] = &[99u8, 111, 109, 109, 105, 116, 116, 101, 114, 32];
    assert(r@ =~= kw_committer());
    r
}

/// The `parent` lines of the first `i` parents, then the line of the next one.
proof fn lemma_parents_bytes_push(ps: Seq<Seq<u8>>, i: int)
    requires
        0 <= i < ps.len(),
    ensures
        parents_bytes(ps.take(i + 1)) == parents_bytes(ps.take(i)) + kw_parent() + hex_encode(ps[i])
            + seq![10u8],
    decreases i,
{
    if i == 0 {
        assert(ps.take(1).drop_first() =~= Seq::<Seq<u8>>::empty());
        assert(ps.take(1)[0] == ps[0]);
        assert(parents_bytes(ps.take(1).drop_first()) == Seq::<u8>::empty());
        assert(parents_bytes(ps.take(0)) == Seq::<u8>::empty());
        assert(parents_bytes(ps.take(1)) =~= parents_bytes(ps.take(0)) + kw_parent() + hex_encode(
            ps[i],
        ) + seq![10u8]);
    } else {
        let t = ps.drop_first();
        lemma_parents_bytes_push(t, i - 1);
        assert(ps.take(i + 1).drop_first() =~= t.take(i));
        assert(ps.take(i).drop_first() =~= t.take(i - 1));
        assert(t[i - 1] == ps[i]);
        assert(parents_bytes(ps.take(i + 1)) =~= parents_bytes(ps.take(i)) + kw_parent()
            + hex_encode(ps[i]) + seq![10u8]);
    }
}

/// `parent` lines read back as the parents, when what follows them is not another one.
proof fn lemma_parse_parents(ps: Seq<Seq<u8>>, rest: Seq<u8>)
    requires
        forall|i: int| 0 <= i < ps.len() ==> (#[trigger] ps[i]).len() == 20,
        strip_prefix_spec(rest, kw_parent()) is None,
    ensures
        parse_parents(parents_bytes(ps) + rest) == Some((ps, rest)),
    decreases ps.len(),
{
    if ps.len() == 0 {
        assert(parents_bytes(ps) + rest =~= rest);
        assert(ps =~= Seq::<Seq<u8>>::empty());
    } else {
        let t = ps.drop_first();
        let tail = parents_bytes(t) + rest;
        let line = hex_encode(ps[0]) + seq![10u8] + tail;
        assert(parents_bytes(ps) + rest =~= kw_parent() + line);
        lemma_strip_prefix_concat(kw_parent(), line);
        lemma_id_line(ps[0], tail);
        assert forall|i: int| 0 <= i < t.len() implies (#[trigger] t[i]).len() == 20 by {
            assert(t[i] == ps[i + 1]);
        }
        lemma_parse_parents(t, rest);
        assert(seq![ps[0]] + t =~= ps);
    }
}

impl Commit {
    pub fn new(
        tree_id: ObjectId,
        parents: Vec<ObjectId>,
        author: AuthorInfo,
        committer: CommitterInfo,
        message: String,
    ) -> (r: Commit)
        ensures
            r.tree_id == tree_id,
            r.parents@ == parents@,
            r.author == author.0,
            r.committer == committer.0,
            r.message == message,
    {
        Self { tree_id, author: author.0, committer: committer.0, message, parents }
    }

    /// A copy of the commit.
    pub fn duplicate(&self) -> (r: Commit)
        ensures
            r@ == self@,
    {
        let mut parents: Vec<ObjectId> = Vec::new();
        let mut i: usize = 0;
        while i < self.parents.len()
            invariant
                i <= self.parents@.len(),
                parents@ == self.parents@.take(i as int),
            decreases self.parents@.len() - i,
        {
            parents.push(self.parents[i]);
            i = i + 1;
            assert(parents@ =~= self.parents@.take(i as int));
        }
        assert(self.parents@.take(i as int) =~= self.parents@);
        let r = Commit {
            tree_id: self.tree_id,
            parents,
            author: self.author.duplicate(),
            committer: self.committer.duplicate(),
            message: self.message.clone(),
        };
        assert(ids_view(r.parents@) =~= ids_view(self.parents@));
        r
    }
}

/// The text of a commit object with these fields, as the commit writer produces it.
pub fn write_commit_ext(
    tree_id: &ObjectId,
    parents: &[ObjectId],
    author: &Signature,
    committer: &Signature,
    message: &str,
) -> (r: Vec<u8>)
    requires
        author.time.offset > i32::MIN,
        committer.time.offset > i32::MIN,
    ensures
        r@ == commit_bytes((tree_id@, ids_view(parents@), author@, committer@, message@)),
{
    let mut out: Vec<u8> = Vec::new();
    push_all(&mut out, kw_tree_bytes());
    push_id(&mut out, tree_id);
    out.push(10u8);
    let ghost head = out@;
    let ghost ps = ids_view(parents@);
    let mut i: usize = 0;
    assert(ps.take(0) =~= Seq::<Seq<u8>>::empty());
    assert(head + parents_bytes(ps.take(0)) =~= head);
    while i < parents.len()
        invariant
            i <= parents@.len(),
            ps == ids_view(parents@),
            out@ == head + parents_bytes(ps.take(i as int)),
        decreases parents@.len() - i,
    {
        proof {
            lemma_parents_bytes_push(ps, i as int);
        }
        push_all(&mut out, kw_parent_bytes());
        push_id(&mut out, &parents[i]);
        out.push(10u8);
        assert(out@ =~= head + parents_bytes(ps.take(i + 1)));
        i = i + 1;
    }
    assert(ps.take(parents@.len() as int) =~= ps);
    push_all(&mut out, kw_author_bytes());
    let a = author.to_bytes();
    push_all(&mut out, a.as_slice());
    out.push(10u8);
    push_all(&mut out, kw_committer_bytes());
    let c = committer.to_bytes();
    push_all(&mut out, c.as_slice());
    out.push(10u8);
    out.push(10u8);
    push_text(&mut out, message);
    out.push(10u8);
    assert(out@ =~= commit_bytes((tree_id@, ids_view(parents@), author@, committer@, message@)));
    out
}

/// The text of a commit object.
pub fn write_commit(commit: &Commit) -> (r: Vec<u8>)
    requires
        commit.author.time.offset > i32::MIN,
        commit.committer.time.offset > i32::MIN,
    ensures
        r@ == commit_bytes(commit@),
{
    write_commit_ext(
        &commit.tree_id,
        commit.parents.as_slice(),
        &commit.author,
        &commit.committer,
        commit.message.as_str(),
    )
}

/// Reads the text of a commit object.
pub fn read_commit_from_buffer(buffer: &[u8]) -> (r: Option<Commit>)
    ensures
        r is Some <==> parse_commit_spec(buffer@) is Some,
        r matches Some(c) ==> c@ == parse_commit_spec(buffer@).unwrap(),
{
    let mut reader = BinaryReader::new(buffer);
    if reader.skip_prefix(kw_tree_bytes()).is_none() {
        return None;
    }
    let tree_id = match read_id_line(&mut reader) {
        Some(id) => id,
        None => return None,
    };
    let ghost r1 = reader@;
    let mut parents: Vec<ObjectId> = Vec::new();
    loop
        invariant_except_break
            parse_parents(r1) == match parse_parents(reader@) {
                None => None,
                Some((ps, r)) => Some((ids_view(parents@) + ps, r)),
            },
        invariant
            strip_prefix_spec(buffer@, kw_tree()) matches Some(r0) && id_line(r0) == Some(
                (tree_id@, r1),
            ),
        ensures
            parse_parents(r1) == Some((ids_view(parents@), reader@)),
        decreases reader@.len(),
    {
        let ghost before = reader@;
        if reader.skip_prefix(kw_parent_bytes()).is_none() {
            assert(ids_view(parents@) + Seq::<Seq<u8>>::empty() =~= ids_view(parents@));
            break;
        }
        let id = match read_id_line(&mut reader) {
            Some(id) => id,
            None => return None,
        };
        proof {
            crate::fields::lemma_split_shorter(before.skip(7));
        }
        let ghost prev = ids_view(parents@);
        parents.push(id);
        proof {
            assert(ids_view(parents@) =~= prev.push(id@));
            match parse_parents(reader@) {
                None => {},
                Some((ps, r)) => {
                    assert(prev + (seq![id@] + ps) =~= ids_view(parents@) + ps);
                },
            }
        }
    }
    if reader.skip_prefix(kw_author_bytes()).is_none() {
        return None;
    }
    let author = match read_signature_line(&mut reader) {
        Some(s) => s,
        None => return None,
    };
    if reader.skip_prefix(kw_committer_bytes()).is_none() {
        return None;
    }
    let committer = match read_signature_line(&mut reader) {
        Some(s) => s,
        None => return None,
    };
    if reader.skip_byte(10u8).is_none() {
        return None;
    }
    let message = match read_text_line(&mut reader) {
        Some(m) => m,
        None => return None,
    };
    Some(Commit { tree_id, parents, author, committer, message })
}

/// The blank line and the message line read back as the message, when it is one line.
proof fn lemma_commit_tail(m: Seq<char>)
    requires
        crate::binary::lacks(encode_utf8(m), 10),
    ensures
        parse_commit_tail(seq![10u8] + encode_utf8(m) + seq![10u8]) == Some(m),
{
    let after = encode_utf8(m) + seq![10u8];
    assert(seq![10u8] + encode_utf8(m) + seq![10u8] =~= seq![10u8] + after);
    lemma_strip_prefix_concat(seq![10u8], after);
    assert(after =~= encode_utf8(m) + seq![10u8] + Seq::<u8>::empty());
    lemma_text_line(m, Seq::<u8>::empty());
}

/// A signature that reads back from its own line.
pub open spec fn signature_reads_back(s: SignatureV) -> bool {
    &&& crate::binary::lacks(encode_utf8(s.0), 60)
    &&& trim_end(encode_utf8(s.0)) == encode_utf8(s.0)
    &&& crate::binary::lacks(encode_utf8(s.1), 62)
    &&& offset_abs(s.2) / 3600 < 100
    &&& offset_abs(s.2) % 3600 < 100
    &&& crate::binary::lacks(signature_bytes(s), 10)
}

/// Reading back the text of a commit gives the commit, when its names are names, its
/// signatures read back on a line of their own and its message is one line.
#[verifier::rlimit(40)]
pub proof fn lemma_commit_roundtrip(c: CommitV)
    requires
        c.0.len() == 20,
        forall|i: int| 0 <= i < c.1.len() ==> (#[trigger] c.1[i]).len() == 20,
        signature_reads_back(c.2),
        signature_reads_back(c.3),
        crate::binary::lacks(encode_utf8(c.4), 10),
    ensures
        parse_commit_spec(commit_bytes(c)) == Some(c),
{
    let tail6 = seq![10u8] + encode_utf8(c.4) + seq![10u8];
    let line5 = signature_bytes(c.3) + seq![10u8] + tail6;
    let r4 = kw_committer() + line5;
    let line3 = signature_bytes(c.2) + seq![10u8] + r4;
    let r2 = kw_author() + line3;
    let r1 = parents_bytes(c.1) + r2;
    let r0 = hex_encode(c.0) + seq![10u8] + r1;
    assert(commit_bytes(c) =~= kw_tree() + r0);
    lemma_strip_prefix_concat(kw_tree(), r0);
    lemma_id_line(c.0, r1);
    assert(strip_prefix_spec(r2, kw_parent()) is None) by {
        assert(r2[0] != kw_parent()[0]);
        assert(r2.take(kw_parent().len() as int)[0] == r2[0]);
    }
    lemma_parse_parents(c.1, r2);
    lemma_strip_prefix_concat(kw_author(), line3);
    crate::fields::lemma_signature_line(c.2, r4);
    lemma_strip_prefix_concat(kw_committer(), line5);
    crate::fields::lemma_signature_line(c.3, tail6);
    lemma_commit_tail(c.4);
}


/// Why a commit could not be made or found.
#[derive(Debug)]
pub enum Error {
    CannotReadIndex(OpenIndexError),
    OdbWriteFailed(OdbError),
    OdbReadFailed(OdbError),
    LookupRefFailed(crate::refs::Error),
    InvalidCommitish,
}

/// The tree of an index, as `create_trees_from_index` builds it.
pub open spec fn index_tree(index: Seq<crate::index::IndexEntryV>) -> Seq<u8> {
    listing(index, seq![], 0, block_end(index, seq![], 0)).0
}

/// A commit of the tree of an index: the commit's name, the trees to store, and the commit's
/// text.
pub fn create_commit_from_index(
    index: &Index,
    author: AuthorInfo,
    committer: CommitterInfo,
    message: &str,
    parents: &[ObjectId],
) -> (r: (ObjectId, Vec<Vec<u8>>, Vec<u8>))
    requires
        index.wf(),
        no_trailing_slash(index@),
        author.0.time.offset > i32::MIN,
        committer.0.time.offset > i32::MIN,
    ensures
        bufs_view(r.1@) == listing(index@, seq![], 0, block_end(index@, seq![], 0)).1.push(
            index_tree(index@),
        ),
        r.2@ == commit_bytes(
            (
                object_name(ObjectType::Tree, index_tree(index@)),
                ids_view(parents@),
                author.0@,
                committer.0@,
                message@,
            ),
        ),
        r.0@ == object_name(ObjectType::Commit, r.2@),
{
    let (tree_id, trees) = create_trees_from_index(index);
    let buffer = write_commit_ext(&tree_id, parents, &author.0, &committer.0, message);
    let id = crate::object_db::hash_buffer(buffer.as_slice(), ObjectType::Commit);
    (id, trees, buffer)
}

/// Where the commit of an object is found.
pub enum CommitLead {
    /// The object is the commit.
    Here(Commit),
    /// The object is a tag of the commit with this name.
    CommitNamed(ObjectId),
    /// The object is a blob or a tree, which lead to no commit.
    NoCommit,
}

/// Where the commit of an object is: the object itself if it is a commit, the commit a tag
/// names; a blob or a tree leads to none.
pub fn commit_lead(object: Object) -> (r: CommitLead)
    ensures
        match object {
            Object::Commit(c) => r matches CommitLead::Here(d) && d == c,
            Object::Tag(g) => r matches CommitLead::CommitNamed(x) && x@ == g.object_id@,
            _ => r is NoCommit,
        },
{
    match object {
        Object::Commit(commit) => CommitLead::Here(commit),
        Object::Tag(tag) => CommitLead::CommitNamed(tag.object_id),
        _ => CommitLead::NoCommit,
    }
}

/// Whether `c` is the commit that the object stored under `id` leads to: a commit leads to
/// itself, a tag to the commit it names.
pub open spec fn leads_to_commit<T: IOdb>(odb: &T, id: Seq<u8>, c: CommitV) -> bool {
    match odb.object_at(id) {
        Some(ObjectV::Commit(d)) => c == d,
        Some(ObjectV::Tag(g)) => odb.object_at(g.0) == Some(ObjectV::Commit(c)),
        _ => false,
    }
}

/// The commit an object leads to, as `commit_lead` says, read from the store, with the name of
/// the object asked for. A blob or a tree gives `InvalidCommitish`; a failed read gives
/// `OdbReadFailed`.
pub fn commit_of_object<T: IOdb>(odb: &T, id: ObjectId) -> (r: Result<(Commit, ObjectId), Error>)
    ensures
        r matches Ok((c, x)) ==> x == id,
        odb.obeys_store_laws() ==> (r matches Ok((c, x)) ==> leads_to_commit(odb, id@, c@)),
        odb.obeys_store_laws() ==> (r matches Err(Error::InvalidCommitish) ==> odb.object_at(id@) matches Some(o)
            && (o is Blob || o is Tree)),
        odb.obeys_store_laws() ==> (odb.object_at(id@) matches Some(o) && (o is Blob || o is Tree) ==> r is Err),
        r matches Err(e) ==> e is OdbReadFailed || e is InvalidCommitish,
{
    let object = match odb.read_object(id) {
        Ok(o) => o,
        Err(e) => return Err(Error::OdbReadFailed(e)),
    };
    match commit_lead(object) {
        CommitLead::Here(commit) => Ok((commit, id)),
        CommitLead::CommitNamed(commit_id) => match odb.read_commit(commit_id) {
            Ok(commit) => Ok((commit, id)),
            Err(e) => Err(Error::OdbReadFailed(e)),
        },
        CommitLead::NoCommit => Err(Error::InvalidCommitish),
    }
}

} // verus!
