use vstd::prelude::*;
use vstd::string::*;
use vstd::utf8::*;

use crate::binary::{
    lacks, lemma_split_until_concat, lemma_strip_prefix_concat, split_until_spec,
    strip_prefix_spec, BinaryReader,
};
use crate::bytes::{push_all, to_vec};
use crate::text::string_from_utf8;
use crate::time::{lemma_time_roundtrip, offset_abs, parse_time_spec, time_bytes, Time};

verus! {

broadcast use {vstd::utf8::encode_utf8_decode_utf8, vstd::utf8::encode_utf8_valid_utf8};

/// Who made a commit or a tag, and when.
#[derive(Debug, Clone, PartialEq, Eq)]
pub struct Signature {
    pub name: String,
    pub email: String,
    pub time: Time,
}

impl View for Signature {
    type V = (Seq<char>, Seq<char>, Time);

    open spec fn view(&self) -> (Seq<char>, Seq<char>, Time) {
        (self.name@, self.email@, self.time)
    }
}

/// The author of a commit.
pub struct AuthorInfo(pub Signature);

/// The committer of a commit.
pub struct CommitterInfo(pub Signature);

/// Why a name and an email cannot make a signature.
#[derive(Debug, PartialEq, Eq, Structural)]
pub enum Error {
    EmptyEmail,
    EmptyName,
    EmailContainsAngle,
    NameContainsAngle,
}

/// The bytes hold a `<` or a `>`.
pub open spec fn has_angle(b: Seq<u8>) -> bool {
    exists|i: int| 0 <= i < b.len() && (b[i] == 60 || b[i] == 62)
}

/// The bytes that `u8::is_ascii_whitespace` accepts.
pub open spec fn is_ascii_ws(b: u8) -> bool {
    b == 32 || b == 9 || b == 10 || b == 12 || b == 13
}

/// The bytes without their trailing ASCII whitespace.
pub open spec fn trim_end(s: Seq<u8>) -> Seq<u8>
    decreases s.len(),
{
    if s.len() > 0 && is_ascii_ws(s.last()) {
        trim_end(s.drop_last())
    } else {
        s
    }
}

/// `name <email> time`, as `Display` writes a signature.
pub open spec fn signature_bytes(s: (Seq<char>, Seq<char>, Time)) -> Seq<u8> {
    encode_utf8(s.0) + seq![32u8, 60u8] + encode_utf8(s.1) + seq![62u8, 32u8] + time_bytes(s.2)
}

/// Reads `name <email> time`: the name is what comes before the `<` without its trailing
/// whitespace, the email what comes before the `>`, then a space and the time.
pub open spec fn parse_signature_spec(s: Seq<u8>) -> Option<(Seq<char>, Seq<char>, Time)> {
    match split_until_spec(s, 60) {
        None => None,
        Some((l1, r1)) => if !valid_utf8(l1) {
            None
        } else {
            match split_until_spec(r1, 62) {
                None => None,
                Some((l2, r2)) => if !valid_utf8(l2) {
                    None
                } else {
                    match strip_prefix_spec(r2, seq![32u8]) {
                        None => None,
                        Some(r3) => match parse_time_spec(r3) {
                            None => None,
                            Some(t) => Some((decode_utf8(trim_end(l1)), decode_utf8(l2), t)),
                        },
                    }
                },
            }
        },
    }
}

/// Trimming trailing whitespace keeps bytes valid UTF-8.
proof fn lemma_trim_end_valid(s: Seq<u8>)
    requires
        valid_utf8(s),
    ensures
        valid_utf8(trim_end(s)),
    decreases s.len(),
{
    if s.len() > 0 && is_ascii_ws(s.last()) {
        let k = s.len() - 1;
        is_char_boundary_iff_not_is_continuation_byte(s, k);
        valid_utf8_split(s, k);
        assert(s.subrange(0, k) =~= s.drop_last());
        lemma_trim_end_valid(s.drop_last());
    }
}

/// Bytes that do not end in whitespace are left as they are.
proof fn lemma_trim_end_ws(s: Seq<u8>)
    requires
        trim_end(s) == s,
    ensures
        trim_end(s.push(32u8)) == s,
{
    assert(s.push(32u8).drop_last() =~= s);
}

/// Whether the text holds a `<` or a `>`.
fn contain_angle_brackets(s: &str) -> (r: bool)
    ensures
        r == has_angle(s.spec_bytes()),
{
    let b = s.as_bytes();
    let mut i: usize = 0;
    while i < b.len()
        invariant
            i <= b@.len(),
            b@ == s.spec_bytes(),
            forall|j: int| 0 <= j < i ==> b@[j] != 60 && b@[j] != 62,
        decreases b@.len() - i,
    {
        if b[i] == 60u8 || b[i] == 62u8 {
            return true;
        }
        i = i + 1;
    }
    false
}

/// The bytes without their trailing ASCII whitespace.
pub fn trim_ascii_end(s: &[u8]) -> (r: &[u8])
    ensures
        r@ == trim_end(s@),
{
    let mut n: usize = s.len();
    assert(s@.take(n as int) =~= s@);
    while n > 0 && (s[n - 1] == 32u8 || s[n - 1] == 9u8 || s[n - 1] == 10u8 || s[n - 1] == 12u8
        || s[n - 1] == 13u8)
        invariant
            n <= s@.len(),
            trim_end(s@.take(n as int)) == trim_end(s@),
        decreases n,
    {
        assert(s@.take(n as int).drop_last() =~= s@.take(n - 1));
        n = n - 1;
    }
    assert(trim_end(s@.take(n as int)) == s@.take(n as int));
    &s[0..n]
}

impl Signature {
    /// A copy of the signature.
    pub fn duplicate(&self) -> (r: Signature)
        ensures
            r@ == self@,
    {
        Signature { name: self.name.clone(), email: self.email.clone(), time: self.time }
    }

    /// A signature from a name, an email and a time; the name is checked first, then the
    /// email.
    pub fn build(name: &str, email: &str, time: Time) -> (r: Result<Signature, Error>)
        ensures
            name@.len() == 0 ==> r == Err::<Signature, Error>(Error::EmptyName),
            name@.len() != 0 && has_angle(name.spec_bytes()) ==> r == Err::<Signature, Error>(
                Error::NameContainsAngle,
            ),
            name@.len() != 0 && !has_angle(name.spec_bytes()) && email@.len() == 0 ==> r == Err::<
                Signature,
                Error,
            >(Error::EmptyEmail),
            name@.len() != 0 && !has_angle(name.spec_bytes()) && email@.len() != 0 && has_angle(
                email.spec_bytes(),
            ) ==> r == Err::<Signature, Error>(Error::EmailContainsAngle),
            name@.len() != 0 && !has_angle(name.spec_bytes()) && email@.len() != 0 && !has_angle(
                email.spec_bytes(),
            ) ==> (r matches Ok(s) && s@ == (name@, email@, time)),
    {
        if name.is_empty() {
            return Err(Error::EmptyName);
        }
        if contain_angle_brackets(name) {
            return Err(Error::NameContainsAngle);
        }
        if email.is_empty() {
            return Err(Error::EmptyEmail);
        }
        if contain_angle_brackets(email) {
            return Err(Error::EmailContainsAngle);
        }
        Ok(Signature { name: name.to_owned(), email: email.to_owned(), time })
    }

    /// Reads `name <email> time`.
    pub fn try_from_bytes(bytes: &[u8]) -> (r: Option<Signature>)
        ensures
            r is Some <==> parse_signature_spec(bytes@) is Some,
            r matches Some(s) ==> s@ == parse_signature_spec(bytes@).unwrap(),
    {
        let mut reader = BinaryReader::new(bytes);
        let l1 = match reader.split_until_inclusive(60u8) {
            Some(l) => l,
            None => return None,
        };
        if string_from_utf8(to_vec(l1)).is_none() {
            return None;
        }
        let trimmed = trim_ascii_end(l1);
        proof {
            lemma_trim_end_valid(l1@);
        }
        let name = match string_from_utf8(to_vec(trimmed)) {
            Some(s) => s,
            None => return None,
        };
        let l2 = match reader.split_until_inclusive(62u8) {
            Some(l) => l,
            None => return None,
        };
        let email = match string_from_utf8(to_vec(l2)) {
            Some(s) => s,
            None => return None,
        };
        if reader.skip_byte(32u8).is_none() {
            return None;
        }
        let time = match Time::try_from_bytes(reader.bytes()) {
            Some(t) => t,
            None => return None,
        };
        Some(Signature { name, email, time })
    }

    /// `name <email> time`, as `Display` writes it.
    pub fn to_bytes(&self) -> (r: Vec<u8>)
        requires
            self.time.offset > i32::MIN,
        ensures
            r@ == signature_bytes(self@),
    {
        let mut out: Vec<u8> = Vec::new();
        push_all(&mut out, self.name.as_str().as_bytes());
        out.push(32u8);
        out.push(60u8);
        push_all(&mut out, self.email.as_str().as_bytes());
        out.push(62u8);
        out.push(32u8);
        let t = self.time.to_bytes();
        push_all(&mut out, t.as_slice());
        assert(out@ =~= signature_bytes(self@));
        out
    }
}

/// Reading back what `to_bytes` writes gives the same signature, when the name holds no `<`
/// and does not end in whitespace, the email holds no `>`, and the time reads back.
pub proof fn lemma_signature_roundtrip(s: (Seq<char>, Seq<char>, Time))
    requires
        lacks(encode_utf8(s.0), 60),
        trim_end(encode_utf8(s.0)) == encode_utf8(s.0),
        lacks(encode_utf8(s.1), 62),
        offset_abs(s.2) / 3600 < 100,
        offset_abs(s.2) % 3600 < 100,
    ensures
        parse_signature_spec(signature_bytes(s)) == Some(s),
{
    let n = encode_utf8(s.0);
    let e = encode_utf8(s.1);
    let tb = time_bytes(s.2);
    let r1 = e + seq![62u8, 32u8] + tb;
    let l1 = n.push(32u8);
    assert(lacks(l1, 60));
    assert(signature_bytes(s) =~= l1 + seq![60u8] + r1);
    lemma_split_until_concat(l1, 60, r1);
    assert(valid_utf8(seq![32u8])) by {
        crate::text::lemma_ascii_valid_utf8(seq![32u8]);
    }
    assert(valid_utf8(n));
    valid_utf8_concat(n, seq![32u8]);
    assert(n + seq![32u8] =~= l1);
    lemma_trim_end_ws(n);
    let r2 = seq![32u8] + tb;
    assert(r1 =~= e + seq![62u8] + r2);
    lemma_split_until_concat(e, 62, r2);
    lemma_strip_prefix_concat(seq![32u8], tb);
    lemma_time_roundtrip(s.2);
}

} // verus!
