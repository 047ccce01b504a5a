use vstd::prelude::*;
use vstd::std_specs::cmp::PartialEqSpecImpl;
use vstd::string::*;

use crate::binary::{digit_char, parse_uint, parse_uint_spec};

verus! {

pub const SHA1_SIZE_IN_BYTES: usize = 20;

#[derive(Debug)]
pub enum Error {
    InvalidData,
    WrongBufferSize(usize),
}

/// The SHA-1 digest of `data`.
pub uninterp spec fn sha1_digest(data: Seq<u8>) -> Seq<u8>;

/// What has been fed to a SHA-1 state since it was made or reset.
pub uninterp spec fn sha1_input(state: Sha1State) -> Seq<u8>;

/// The running state of the `sha1` crate's hasher. Its type is a `digest` wrapper whose bounds
/// are `typenum` traits, which cannot be declared here, so the state is held whole.
#[verifier::external_body]
pub struct Sha1State {
    state: ::sha1::Sha1,
}

/// `sha1::Sha1::new` (through `Digest`): a state that has been fed nothing.
#[verifier::external_body]
fn sha1_state_new() -> (state: Sha1State)
    ensures
        sha1_input(state) == Seq::<u8>::empty(),
{
    Sha1State { state: <::sha1::Sha1 as ::sha1::Digest>::new() }
}

/// `sha1::Sha1::update` (through `Digest`): the state has now been fed `data` as well.
#[verifier::external_body]
fn sha1_state_update(state: &mut Sha1State, data: &[u8])
    ensures
        sha1_input(*final(state)) == sha1_input(*old(state)) + data@,
{
    ::sha1::Digest::update(&mut state.state, data)
}

/// `sha1::Sha1::finalize` (through `Digest`): the digest of all that the state was fed.
#[verifier::external_body]
fn sha1_state_finalize(state: Sha1State) -> (digest: [u8; 20])
    ensures
        digest@ == sha1_digest(sha1_input(state)),
{
    ::sha1::Digest::finalize(state.state).into()
}

/// `sha1::Sha1::finalize_reset` (through `Digest`): the digest of all that the state was fed;
/// the state is then as new.
#[verifier::external_body]
fn sha1_state_finalize_reset(state: &mut Sha1State) -> (digest: [u8; 20])
    ensures
        digest@ == sha1_digest(sha1_input(*old(state))),
        sha1_input(*final(state)) == Seq::<u8>::empty(),
{
    ::sha1::Digest::finalize_reset(&mut state.state).into()
}

/// The value of the hexadecimal pair `c0 c1`, read as `u8::from_str_radix(_, 16)` does.
pub open spec fn hex_pair_value(c0: u8, c1: u8) -> Option<nat> {
    parse_uint_spec(seq![c0, c1], 16)
}

pub open spec fn hex_pairs_valid(s: Seq<u8>) -> bool {
    forall|j: int| 0 <= j < s.len() / 2 ==> (#[trigger] hex_pair_value(s[2 * j], s[2 * j + 1])) is Some
}

/// The bytes that an even-length hexadecimal text writes, pair by pair.
pub open spec fn hex_decode(s: Seq<u8>) -> Seq<u8> {
    Seq::new(
        s.len() / 2,
        |j: int| hex_pair_value(s[2 * j], s[2 * j + 1]).unwrap() as u8,
    )
}

/// Lowercase hexadecimal text of `bytes`, two digits per byte.
pub open spec fn hex_encode(bytes: Seq<u8>) -> Seq<u8> {
    Seq::new(
        2 * bytes.len(),
        |i: int|
            if i % 2 == 0 {
                digit_char((bytes[i / 2] / 16) as nat)
            } else {
                digit_char((bytes[i / 2] % 16) as nat)
            },
    )
}

/// What `Sha1::from_ascii_hex` gives for `s`.
pub open spec fn sha1_from_hex_spec(s: Seq<u8>) -> Result<Seq<u8>, Error> {
    if s.len() % 2 != 0 {
        Err(Error::WrongBufferSize(s.len() as usize))
    } else if !hex_pairs_valid(s) {
        Err(Error::InvalidData)
    } else if s.len() / 2 != 20 {
        Err(Error::WrongBufferSize((s.len() / 2) as usize))
    } else {
        Ok(hex_decode(s))
    }
}

proof fn lemma_hex_pair(b: u8)
    ensures
        hex_pair_value(digit_char((b / 16) as nat), digit_char((b % 16) as nat)) == Some(b as nat),
{
    let c0 = digit_char((b / 16) as nat);
    let c1 = digit_char((b % 16) as nat);
    let s = seq![c0, c1];
    crate::binary::lemma_digits_value_short(c0, c1, 16);
    assert(crate::binary::is_digit_of(s[0], 16));
    assert(crate::binary::is_digit_of(s[1], 16));
    assert(crate::binary::all_digits(s, 16));
    assert(crate::binary::digit_value(c0) == b / 16);
    assert(crate::binary::digit_value(c1) == b % 16);
    assert((b / 16) * 16 + b % 16 == b);
}

/// Reading back the hexadecimal text of bytes gives the bytes.
pub proof fn lemma_hex_roundtrip(bytes: Seq<u8>)
    ensures
        hex_pairs_valid(hex_encode(bytes)),
        hex_decode(hex_encode(bytes)) == bytes,
        hex_encode(bytes).len() == 2 * bytes.len(),
{
    let e = hex_encode(bytes);
    assert forall|j: int| 0 <= j < e.len() / 2 implies (#[trigger] hex_pair_value(
        e[2 * j],
        e[2 * j + 1],
    )) == Some(bytes[j] as nat) by {
        assert((2 * j) / 2 == j && (2 * j + 1) / 2 == j && (2 * j) % 2 == 0 && (2 * j + 1) % 2
            == 1);
        lemma_hex_pair(bytes[j]);
    }
    assert(hex_decode(e) =~= bytes);
}

#[derive(Debug, Clone, Copy, Hash)]
pub struct Sha1(pub [u8; SHA1_SIZE_IN_BYTES]);

impl View for Sha1 {
    type V = Seq<u8>;

    open spec fn view(&self) -> Seq<u8> {
        self.0@
    }
}

impl PartialEq for Sha1 {
    fn eq(&self, other: &Self) -> (r: bool) {
        let mut i: usize = 0;
        while i < SHA1_SIZE_IN_BYTES
            invariant
                i <= 20,
                forall|j: int| 0 <= j < i ==> self.0@[j] == other.0@[j],
            decreases 20 - i,
        {
            if self.0[i] != other.0[i] {
                return false;
            }
            i = i + 1;
        }
        assert(self.0@ =~= other.0@);
        true
    }
}

impl Eq for Sha1 {

}

impl PartialEqSpecImpl for Sha1 {
    open spec fn obeys_eq_spec() -> bool {
        true
    }

    open spec fn eq_spec(&self, other: &Sha1) -> bool {
        self@ == other@
    }
}

impl Sha1 {
    pub fn null() -> (r: Self)
        ensures
            r@ == Seq::new(20, |i: int| 0u8),
    {
        let r = Self([0; SHA1_SIZE_IN_BYTES]);
        assert(r@ =~= Seq::new(20, |i: int| 0u8));
        r
    }

    pub fn from_array(bytes: &[u8; SHA1_SIZE_IN_BYTES]) -> (r: Self)
        ensures
            r@ == bytes@,
    {
        Self(*bytes)
    }

    pub fn from_bytes(bytes: &[u8]) -> (r: Result<Self, Error>)
        ensures
            bytes@.len() == 20 ==> (r matches Ok(h) && h@ == bytes@),
            bytes@.len() != 20 ==> (r matches Err(Error::WrongBufferSize(n)) && n == bytes@.len()),
    {
        if bytes.len() != SHA1_SIZE_IN_BYTES {
            return Err(Error::WrongBufferSize(bytes.len()));
        }
        let mut arr = [0u8; SHA1_SIZE_IN_BYTES];
        let mut i: usize = 0;
        while i < SHA1_SIZE_IN_BYTES
            invariant
                i <= 20,
                bytes@.len() == 20,
                forall|j: int| 0 <= j < i ==> arr@[j] == bytes@[j],
            decreases 20 - i,
        {
            arr[i] = bytes[i];
            i = i + 1;
        }
        assert(arr@ =~= bytes@);
        Ok(Self(arr))
    }

    pub fn from_ascii_hex(hex: &[u8]) -> (r: Result<Self, Error>)
        ensures
            match sha1_from_hex_spec(hex@) {
                Ok(b) => r matches Ok(h) && h@ == b,
                Err(Error::InvalidData) => r matches Err(Error::InvalidData),
                Err(Error::WrongBufferSize(n)) => r matches Err(Error::WrongBufferSize(m)) && m == n,
            },
    {
        if hex.len() % 2 != 0 {
            return Err(Error::WrongBufferSize(hex.len()));
        }
        let mut bytes: Vec<u8> = Vec::new();
        let mut j: usize = 0;
        while j < hex.len() / 2
            invariant
                j <= hex@.len() / 2,
                hex@.len() % 2 == 0,
                bytes@.len() == j,
                forall|k: int|
                    0 <= k < j ==> (#[trigger] hex_pair_value(hex@[2 * k], hex@[2 * k + 1]))
                        == Some(bytes@[k] as nat),
            decreases hex@.len() / 2 - j,
        {
            let pair = &hex[2 * j..2 * j + 2];
            assert(pair@ =~= seq![hex@[2 * j as int], hex@[2 * j + 1]]);
            match parse_uint(pair, 16, 255) {
                Some(v) => {
                    bytes.push(v as u8);
                },
                None => {
                    proof {
                        let s = seq![hex@[2 * j as int], hex@[2 * j + 1]];
                        if parse_uint_spec(s, 16) is Some {
                            assert(crate::binary::all_digits(s.drop_first(), 16) ==> crate::binary::all_digits(s, 16) || s[0] == 43);
                            lemma_two_digit_bound(s);
                        }
                        assert(!hex_pairs_valid(hex@)) by {
                            assert(hex_pair_value(hex@[2 * j as int], hex@[2 * j + 1]) is None);
                        }
                    }
                    return Err(Error::InvalidData);
                },
            }
            j = j + 1;
        }
        assert(hex_pairs_valid(hex@));
        assert(bytes@ =~= hex_decode(hex@));
        Self::from_bytes(bytes.as_slice())
    }

    pub fn from_str(s: &str) -> (r: Result<Self, Error>)
        ensures
            match sha1_from_hex_spec(s.spec_bytes()) {
                Ok(b) => r matches Ok(h) && h@ == b,
                Err(Error::InvalidData) => r matches Err(Error::InvalidData),
                Err(Error::WrongBufferSize(n)) => r matches Err(Error::WrongBufferSize(m)) && m == n,
            },
    {
        Self::from_ascii_hex(s.as_bytes())
    }

    pub fn as_bytes(&self) -> (r: &[u8])
        ensures
            r@ == self@,
    {
        self.0.as_slice()
    }

    pub fn as_mut(&mut self) -> (r: &mut [u8])
        ensures
            r@ == old(self)@,
            final(self)@ == final(r)@,
    {
        vstd::array::ref_mut_array_unsizing_coercion(&mut self.0)
    }

    /// The lowercase hexadecimal text of the digest, as its `Display` writes it.
    pub fn to_hex(&self) -> (r: Vec<u8>)
        ensures
            r@ == hex_encode(self@),
    {
        let mut out: Vec<u8> = Vec::new();
        let mut i: usize = 0;
        while i < SHA1_SIZE_IN_BYTES
            invariant
                i <= 20,
                self@.len() == 20,
                out@ =~= hex_encode(self@.take(i as int)),
            decreases 20 - i,
        {
            let b = self.0[i];
            out.push(hex_digit(b / 16));
            out.push(hex_digit(b % 16));
            proof {
                let t = self@.take(i + 1);
                assert(t.take(i as int) =~= self@.take(i as int));
                assert forall|k: int| 0 <= k < 2 * (i + 1) implies out@[k] == hex_encode(t)[k] by {
                    if k < 2 * i {
                        assert(hex_encode(self@.take(i as int))[k] == out@[k]);
                        assert(k / 2 < i);
                        assert(t[k / 2] == self@.take(i as int)[k / 2]);
                    } else {
                        assert(k / 2 == i);
                    }
                }
            }
            i = i + 1;
        }
        assert(self@.take(20) =~= self@);
        out
    }
}

proof fn lemma_two_digit_bound(s: Seq<u8>)
    requires
        s.len() == 2,
        parse_uint_spec(s, 16) is Some,
    ensures
        parse_uint_spec(s, 16).unwrap() <= 255,
{
    crate::binary::lemma_digits_value_short(s[0], s[1], 16);
    crate::binary::lemma_digits_value_short(s[1], s[1], 16);
    if s[0] == 43 {
        let d = s.drop_first();
        assert(d =~= seq![s[1]]);
        assert(crate::binary::is_digit_of(d[0], 16));
    } else {
        assert(s =~= seq![s[0], s[1]]);
        assert(crate::binary::is_digit_of(s[0], 16));
        assert(crate::binary::is_digit_of(s[1], 16));
        let v0 = crate::binary::digit_value(s[0]);
        let v1 = crate::binary::digit_value(s[1]);
        assert(v0 < 16 && v1 < 16);
        assert(v0 * 16 + v1 <= 255) by (nonlinear_arith)
            requires
                v0 < 16,
                v1 < 16,
        ;
    }
}

/// The lowercase digit for `v < 16`.
pub fn hex_digit(v: u8) -> (c: u8)
    requires
        v < 16,
    ensures
        c == digit_char(v as nat),
{
    if v < 10 {
        v + 48
    } else {
        v + 87
    }
}

/// SHA-1 over data fed in pieces.
pub struct Sha1Hasher {
    hasher: Sha1State,
}

impl View for Sha1Hasher {
    type V = Seq<u8>;

    closed spec fn view(&self) -> Seq<u8> {
        sha1_input(self.hasher)
    }
}

impl Sha1Hasher {
    pub fn new() -> (r: Self)
        ensures
            r@ == Seq::<u8>::empty(),
    {
        Self { hasher: sha1_state_new() }
    }

    pub fn update(&mut self, data: &[u8])
        ensures
            final(self)@ == old(self)@ + data@,
    {
        sha1_state_update(&mut self.hasher, data);
    }

    pub fn finalize(self) -> (r: Sha1)
        ensures
            r@ == sha1_digest(self@),
    {
        Sha1(sha1_state_finalize(self.hasher))
    }

    pub fn finalize_reset(&mut self) -> (r: Sha1)
        ensures
            r@ == sha1_digest(old(self)@),
            final(self)@ == Seq::<u8>::empty(),
    {
        Sha1(sha1_state_finalize_reset(&mut self.hasher))
    }
}

/// The SHA-1 digest of `data`.
pub fn sha1_of(data: &[u8]) -> (r: Sha1)
    ensures
        r@ == sha1_digest(data@),
{
    let mut hasher = Sha1Hasher::new();
    hasher.update(data);
    assert(Seq::<u8>::empty() + data@ =~= data@);
    hasher.finalize()
}

} // verus!
