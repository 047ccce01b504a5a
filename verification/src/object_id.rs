use vstd::prelude::*;
use vstd::std_specs::cmp::PartialEqSpecImpl;
use vstd::string::*;
use vstd::utf8::*;

pub use crate::sha1::Error;
use crate::sha1::{hex_encode, sha1_from_hex_spec, Sha1, SHA1_SIZE_IN_BYTES};
use crate::text::string_from_utf8;

verus! {

/// The name of a stored object: the SHA-1 digest of its header and content.
#[derive(Debug, Clone, Copy, Hash)]
pub struct ObjectId {
    hash: Sha1,
}

impl View for ObjectId {
    type V = Seq<u8>;

    closed spec fn view(&self) -> Seq<u8> {
        self.hash@
    }
}

impl PartialEq for ObjectId {
    fn eq(&self, other: &Self) -> (r: bool) {
        self.hash == other.hash
    }
}

impl Eq for ObjectId {

}

impl PartialEqSpecImpl for ObjectId {
    open spec fn obeys_eq_spec() -> bool {
        true
    }

    open spec fn eq_spec(&self, other: &ObjectId) -> bool {
        self@ == other@
    }
}

impl ObjectId {
    pub proof fn lemma_len(&self)
        ensures
            self@.len() == 20,
    {
    }

    pub fn zero() -> (r: ObjectId)
        ensures
            r@ == Seq::new(20, |i: int| 0u8),
    {
        Self { hash: Sha1::null() }
    }

    pub fn from_str(s: &str) -> (r: Result<ObjectId, Error>)
        ensures
            match sha1_from_hex_spec(s.spec_bytes()) {
                Ok(b) => r matches Ok(id) && id@ == b,
                Err(Error::InvalidData) => r matches Err(Error::InvalidData),
                Err(Error::WrongBufferSize(n)) => r matches Err(Error::WrongBufferSize(m)) && m == n,
            },
    {
        match Sha1::from_str(s) {
            Ok(hash) => Ok(Self { hash }),
            Err(e) => Err(e),
        }
    }

    pub fn from_ascii_hex(hex: &[u8]) -> (r: Result<ObjectId, Error>)
        ensures
            match sha1_from_hex_spec(hex@) {
                Ok(b) => r matches Ok(id) && id@ == b,
                Err(Error::InvalidData) => r matches Err(Error::InvalidData),
                Err(Error::WrongBufferSize(n)) => r matches Err(Error::WrongBufferSize(m)) && m == n,
            },
    {
        match Sha1::from_ascii_hex(hex) {
            Ok(hash) => Ok(Self { hash }),
            Err(e) => Err(e),
        }
    }

    pub fn from_bytes(bytes: &[u8]) -> (r: Result<ObjectId, Error>)
        ensures
            bytes@.len() == 20 ==> (r matches Ok(id) && id@ == bytes@),
            bytes@.len() != 20 ==> (r matches Err(Error::WrongBufferSize(n)) && n == bytes@.len()),
    {
        match Sha1::from_bytes(bytes) {
            Ok(hash) => Ok(Self { hash }),
            Err(e) => Err(e),
        }
    }

    pub fn from_sha1(hash: Sha1) -> (r: ObjectId)
        ensures
            r@ == hash@,
    {
        Self { hash }
    }

    pub fn from_array(bytes: &[u8; SHA1_SIZE_IN_BYTES]) -> (r: ObjectId)
        ensures
            r@ == bytes@,
    {
        Self { hash: Sha1::from_array(bytes) }
    }

    pub fn as_bytes(&self) -> (r: &[u8])
        ensures
            r@ == self@,
    {
        self.hash.as_bytes()
    }

    /// The lowercase hexadecimal name, as bytes.
    pub fn to_hex(&self) -> (r: Vec<u8>)
        ensures
            r@ == hex_encode(self@),
    {
        self.hash.to_hex()
    }

    /// The lowercase hexadecimal name, as `Display` writes it.
    pub fn to_string(&self) -> (r: String)
        ensures
            r@ == decode_utf8(hex_encode(self@)),
    {
        let hex = self.to_hex();
        proof {
            lemma_hex_is_ascii(self@);
        }
        match string_from_utf8(hex) {
            Some(s) => s,
            None => String::new(),
        }
    }
}

/// Hexadecimal text is valid UTF-8.
pub proof fn lemma_hex_is_ascii(bytes: Seq<u8>)
    ensures
        valid_utf8(hex_encode(bytes)),
{
    let e = hex_encode(bytes);
    assert forall|i: int| 0 <= i < e.len() implies #[trigger] e[i] < 128 by {
        assert(bytes[i / 2] / 16 < 16 && bytes[i / 2] % 16 < 16);
    }
    crate::text::lemma_ascii_valid_utf8(e);
}

} // verus!
