use vstd::prelude::*;
use vstd::string::*;
use vstd::utf8::*;

use crate::binary::{starts_with, strip_prefix_spec, BinaryReader};
use crate::bytes::to_vec;
use crate::object_id::{Error as IdError, ObjectId};
use crate::sha1::sha1_from_hex_spec;
use crate::signature::{is_ascii_ws, trim_end};
use crate::text::utf8_to_string;

verus! {

/// Why a reference could not be read or written.
#[derive(Debug)]
pub enum Error {
    CannotOpenFile(std::io::Error),
    CreateFileFailed(std::io::Error),
    CannotReadFromFile(std::io::Error),
    CannotWriteToFile(std::io::Error),
    CreateDirFailed(std::io::Error),
    InvalidSymbolicRef,
    InvalidCommitId(IdError),
    InvalidRefName(usize),
}

/// A named pointer to an object.
pub struct Reference {
    pub name: String,
    pub target: ObjectId,
}

/// What `HEAD` points to: an object, or a branch.
pub enum HeadState {
    Detached(ObjectId),
    Normal(Reference),
}

/// What the `HEAD` file names: a branch, or an object.
#[derive(Debug)]
pub enum HeadTarget {
    Branch(String),
    Detached(ObjectId),
}

/// The bytes that `u8::is_ascii_control` accepts, and the characters that `git-check-ref-format`
/// refuses anywhere in a name.
pub open spec fn forbidden(c: u8) -> bool {
    c < 32 || c == 127 || c == 58 || c == 63 || c == 91 || c == 92 || c == 94 || c == 126 || c == 32
        || c == 42
}

/// A name is refused at `i`: a forbidden character, or `..`, or `@{`, starting there.
pub open spec fn bad_at(s: Seq<u8>, i: int) -> bool {
    ||| forbidden(s[i])
    ||| (s[i] == 46 && i + 1 < s.len() && s[i + 1] == 46)
    ||| (s[i] == 64 && i + 1 < s.len() && s[i + 1] == 123)
}

/// What checking a reference name gives: the position of the first fault, if any; `@` alone is
/// refused at 0.
pub open spec fn validate_spec(s: Seq<u8>) -> Result<(), usize> {
    if s == seq![64u8] {
        Err(0)
    } else if exists|i: int| 0 <= i < s.len() && bad_at(s, i) {
        Err(
            (choose|i: int|
                0 <= i < s.len() && bad_at(s, i) && forall|j: int| 0 <= j < i ==> !bad_at(s, j)) as usize,
        )
    } else {
        Ok(())
    }
}

pub fn is_forbidden(c: u8) -> (r: bool)
    ensures
        r == forbidden(c),
{
    c < 32 || c == 127 || c == 58 || c == 63 || c == 91 || c == 92 || c == 94 || c == 126 || c
        == 32 || c == 42
}

/// Checks a reference name as `git-check-ref-format` does, in part.
pub fn validate_ref_name(name: &[u8]) -> (r: Result<(), usize>)
    ensures
        r == validate_spec(name@),
{
    if name.len() == 1 && name[0] == 64u8 {
        assert(name@ =~= seq![64u8]);
        return Err(0);
    }
    assert(name@ != seq![64u8]);
    let mut i: usize = 0;
    while i < name.len()
        invariant
            i <= name@.len(),
            name@ != seq![64u8],
            forall|j: int| 0 <= j < i ==> !bad_at(name@, j),
        decreases name@.len() - i,
    {
        let c = name[i];
        let bad = is_forbidden(c) || (c == 46u8 && i + 1 < name.len() && name[i + 1] == 46u8) || (c
            == 64u8 && i + 1 < name.len() && name[i + 1] == 123u8);
        if bad {
            proof {
                let k = choose|k: int|
                    0 <= k < name@.len() && bad_at(name@, k) && forall|j: int|
                        0 <= j < k ==> !bad_at(name@, j);
                assert(bad_at(name@, i as int));
                if k < i {
                } else if k > i {
                }
            }
            return Err(i);
        }
        i = i + 1;
    }
    Ok(())
}

/// The branch that a symbolic reference names: its trimmed text, which must be a valid,
/// non-empty reference name in UTF-8.
pub open spec fn parse_ref_name_spec(buffer: Seq<u8>) -> Result<Seq<char>, Option<usize>> {
    let b = trim_end(buffer);
    if b.len() == 0 {
        Err(None)
    } else {
        match validate_spec(b) {
            Err(i) => Err(Some(i)),
            Ok(_) => if valid_utf8(b) {
                Ok(decode_utf8(b))
            } else {
                Err(Some((choose|n: int| 0 <= n < b.len() && valid_utf8(b.take(n)) && forall|m: int|
                    n < m <= b.len() ==> !valid_utf8(#[trigger] b.take(m))) as usize))
            },
        }
    }
}

/// Reads the branch name of a symbolic reference.
pub fn parse_ref_name(buffer: &[u8]) -> (r: Result<String, Error>)
    ensures
        match parse_ref_name_spec(buffer@) {
            Ok(s) => r matches Ok(t) && t@ == s,
            Err(None) => r matches Err(Error::InvalidSymbolicRef),
            Err(Some(i)) => r matches Err(Error::InvalidRefName(j)) && j == i,
        },
{
    let b = crate::signature::trim_ascii_end(buffer);
    if b.len() == 0 {
        return Err(Error::InvalidSymbolicRef);
    }
    match validate_ref_name(b) {
        Err(idx) => return Err(Error::InvalidRefName(idx)),
        Ok(()) => {},
    }
    match utf8_to_string(to_vec(b)) {
        Ok(s) => Ok(s),
        Err(n) => {
            proof {
                let c = choose|k: int| 0 <= k < b@.len() && valid_utf8(b@.take(k)) && forall|m: int|
                    k < m <= b@.len() ==> !valid_utf8(#[trigger] b@.take(m));
                if c < n {
                    assert(!valid_utf8(b@.take(n as int)));
                } else if c > n {
                    assert(!valid_utf8(b@.take(c)));
                }
            }
            Err(Error::InvalidRefName(n))
        },
    }
}

pub open spec fn head_prefix() -> Seq<u8> {
    seq![114u8, 101, 102, 58, 32, 114, 101, 102, 115, 47, 104, 101, 97, 100, 115, 47]
}

/// Reads the `HEAD` file: `ref: refs/heads/<branch>`, or the name of an object.
pub fn parse_head(buffer: &[u8]) -> (r: Result<HeadTarget, Error>)
    ensures
        starts_with(buffer@, head_prefix()) ==> match parse_ref_name_spec(
            buffer@.skip(head_prefix().len() as int),
        ) {
            Ok(s) => r matches Ok(HeadTarget::Branch(t)) && t@ == s,
            Err(None) => r matches Err(Error::InvalidSymbolicRef),
            Err(Some(i)) => r matches Err(Error::InvalidRefName(j)) && j == i,
        },
        !starts_with(buffer@, head_prefix()) ==> match sha1_from_hex_spec(buffer@) {
            Ok(b) => r matches Ok(HeadTarget::Detached(id)) && id@ == b,
            Err(_) => r matches Err(Error::InvalidSymbolicRef),
        },
{
    let prefix: &[u8] = &[114u8, 101, 102, 58, 32, 114, 101, 102, 115, 47, 104, 101, 97, 100, 115, 47];
    assert(prefix@ =~= head_prefix());
    let mut reader = BinaryReader::new(buffer);
    if reader.skip_prefix(prefix).is_some() {
        match parse_ref_name(reader.bytes()) {
            Ok(name) => Ok(HeadTarget::Branch(name)),
            Err(e) => Err(e),
        }
    } else {
        match ObjectId::from_ascii_hex(buffer) {
            Ok(id) => Ok(HeadTarget::Detached(id)),
            Err(_) => Err(Error::InvalidSymbolicRef),
        }
    }
}

/// Reads the object a reference file names: its text without trailing whitespace, in
/// hexadecimal.
pub fn parse_ref_target(content: &str) -> (r: Result<ObjectId, Error>)
    ensures
        match sha1_from_hex_spec(trim_end(content.spec_bytes())) {
            Ok(b) => r matches Ok(id) && id@ == b,
            Err(_) => r matches Err(Error::InvalidCommitId(_)),
        },
{
    let b = crate::signature::trim_ascii_end(content.as_bytes());
    match ObjectId::from_ascii_hex(b) {
        Ok(id) => Ok(id),
        Err(e) => Err(Error::InvalidCommitId(e)),
    }
}

} // verus!
