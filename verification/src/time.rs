use vstd::prelude::*;

use crate::binary::{
    all_digits, digit_char, digit_value, digits_of, digits_value, is_digit_of, lacks,
    lemma_digits_of, lemma_digits_value_short, lemma_parse_digits_of, lemma_split_until_concat,
    pad2, parse_uint_spec, push_pad2, push_uint, split_until_spec, u32_from_ascii, u64_from_ascii,
    BinaryReader,
};

verus! {

/// A moment as git records it: seconds since the Unix epoch and the offset from UTC.
#[derive(Debug, Clone, Copy, PartialEq, Eq, Structural)]
pub struct Time {
    pub unix_time: u64,
    pub offset: i32,
}

/// The sign that opens an offset: `+` or `-`.
pub open spec fn sign_of(b: u8) -> Option<int> {
    if b == 43 {
        Some(1)
    } else if b == 45 {
        Some(-1)
    } else {
        None
    }
}

/// A field of two characters read as a decimal number, if there are two characters.
pub open spec fn two_digit_field(s: Seq<u8>) -> Option<nat> {
    if s.len() < 2 {
        None
    } else {
        parse_uint_spec(s.take(2), 10)
    }
}

/// `seconds +hhmm` (or `-hhmm`); the offset is `sign * (hh * 3600 + mm)` and what follows the
/// minutes is not read.
pub open spec fn parse_time_spec(s: Seq<u8>) -> Option<Time> {
    match split_until_spec(s, 32) {
        None => None,
        Some((l, r)) => match parse_uint_spec(l, 10) {
            None => None,
            Some(t) => {
                if t > u64::MAX || r.len() < 1 || sign_of(r[0]) is None {
                    None
                } else {
                    let r2 = r.drop_first();
                    match (two_digit_field(r2), two_digit_field(r2.skip(2))) {
                        (Some(h), Some(m)) => Some(
                            Time {
                                unix_time: t as u64,
                                offset: (sign_of(r[0]).unwrap() * (h * 3600 + m)) as i32,
                            },
                        ),
                        _ => None,
                    }
                }
            },
        },
    }
}

/// The magnitude of the offset.
pub open spec fn offset_abs(t: Time) -> int {
    if t.offset < 0 {
        -t.offset
    } else {
        t.offset as int
    }
}

/// `seconds +hhmm`: hours are the offset over 3600 and minutes its remainder, each written with
/// two digits at least.
pub open spec fn time_bytes(t: Time) -> Seq<u8> {
    digits_of(t.unix_time as nat, 10) + seq![32u8, if t.offset < 0 { 45u8 } else { 43u8 }] + pad2(
        (offset_abs(t) / 3600) as nat,
    ) + pad2((offset_abs(t) % 3600) as nat)
}

/// Two characters read as a decimal number give at most 99.
proof fn lemma_two_chars_bound(s: Seq<u8>)
    requires
        s.len() == 2,
    ensures
        parse_uint_spec(s, 10) matches Some(n) ==> n <= 99,
{
    if s[0] == 43 {
        let d = s.drop_first();
        if d.len() > 0 && all_digits(d, 10) {
            assert(d =~= seq![d[0]]);
            assert(d.drop_last() =~= Seq::<u8>::empty());
            assert(is_digit_of(d[0], 10));
            assert(digits_value(d, 10) == digits_value(d.drop_last(), 10) * 10 + digit_value(
                d.last(),
            ));
            assert(digits_value(Seq::<u8>::empty(), 10) == 0);
        }
    } else if all_digits(s, 10) {
        assert(s =~= seq![s[0], s[1]]);
        lemma_digits_value_short(s[0], s[1], 10);
        assert(is_digit_of(s[0], 10) && is_digit_of(s[1], 10));
    }
}

/// `pad2` reads back as the number it writes, below 100.
proof fn lemma_pad2(n: nat)
    requires
        n < 100,
    ensures
        pad2(n).len() == 2,
        parse_uint_spec(pad2(n), 10) == Some(n),
        lacks(pad2(n), 32),
{
    lemma_digits_of(n, 10);
    if n < 10 {
        assert(digits_of(n, 10) == seq![digit_char(n)]);
        let p = pad2(n);
        assert(p =~= seq![48u8, digit_char(n)]);
        lemma_digits_value_short(48u8, digit_char(n), 10);
        assert(is_digit_of(48u8, 10));
        assert(is_digit_of(digit_char(n), 10));
        assert(all_digits(p, 10));
    } else {
        assert(n / 10 < 10);
        assert(digits_of(n / 10, 10) == seq![digit_char(n / 10)]);
        assert(digits_of(n, 10) == digits_of(n / 10, 10).push(digit_char(n % 10)));
        lemma_parse_digits_of(n, 10);
    }
    let p = pad2(n);
    assert forall|j: int| 0 <= j < p.len() implies p[j] != 32 by {
        if n < 10 {
            assert(p[j] == 48 || p[j] == digit_char(n));
        } else {
            assert(is_digit_of(digits_of(n, 10)[j], 10));
        }
    }
}

/// Decimal digits hold no space.
proof fn lemma_digits_lack_space(n: nat)
    ensures
        lacks(digits_of(n, 10), 32),
{
    lemma_digits_of(n, 10);
    let d = digits_of(n, 10);
    assert forall|j: int| 0 <= j < d.len() implies d[j] != 32 by {
        assert(is_digit_of(d[j], 10));
    }
}

/// Reading back what `to_bytes` writes gives the same time, when the hours and the remainder
/// of the offset each take two digits.
pub proof fn lemma_time_roundtrip(t: Time)
    requires
        offset_abs(t) / 3600 < 100,
        offset_abs(t) % 3600 < 100,
    ensures
        parse_time_spec(time_bytes(t)) == Some(t),
{
    let a = offset_abs(t);
    let h = (a / 3600) as nat;
    let m = (a % 3600) as nat;
    let sc: u8 = if t.offset < 0 { 45u8 } else { 43u8 };
    let d = digits_of(t.unix_time as nat, 10);
    let r = seq![sc] + pad2(h) + pad2(m);
    lemma_digits_lack_space(t.unix_time as nat);
    lemma_pad2(h);
    lemma_pad2(m);
    assert(time_bytes(t) =~= d + seq![32u8] + r);
    lemma_split_until_concat(d, 32, r);
    lemma_parse_digits_of(t.unix_time as nat, 10);
    let r2 = r.drop_first();
    assert(r2 =~= pad2(h) + pad2(m));
    assert(r2.take(2) =~= pad2(h));
    assert(r2.skip(2) =~= pad2(m));
    assert(r2.skip(2).take(2) =~= pad2(m));
    assert(r[0] == sc);
    assert(h * 3600 + m == a);
    assert(split_until_spec(time_bytes(t), 32) == Some((d, r)));
    assert(parse_uint_spec(d, 10) == Some(t.unix_time as nat));
    assert(two_digit_field(r2) == Some(h));
    assert(two_digit_field(r2.skip(2)) == Some(m));
    assert(sign_of(r[0]).unwrap() * (h * 3600 + m) == t.offset);
}

impl Time {
    pub fn new(seconds: u64, offset: i32) -> (r: Time)
        ensures
            r == (Time { unix_time: seconds, offset }),
    {
        Self { unix_time: seconds, offset }
    }

    /// Reads `seconds +hhmm`.
    pub fn try_from_bytes(bytes: &[u8]) -> (r: Option<Time>)
        ensures
            r == parse_time_spec(bytes@),
    {
        let mut reader = BinaryReader::new(bytes);
        let seconds = match reader.split_until_inclusive(32u8) {
            Some(l) => l,
            None => return None,
        };
        let unix_time = match u64_from_ascii(seconds) {
            Some(t) => t,
            None => return None,
        };
        let ghost r = reader@;
        let sign: i32 = match reader.first() {
            Some(c) => {
                if c == 43u8 {
                    1
                } else if c == 45u8 {
                    -1
                } else {
                    return None;
                }
            },
            None => return None,
        };
        let ghost r2 = reader@;
        assert(r2 == r.drop_first());
        let hours = match reader.split_n(2) {
            Some(h) => {
                proof {
                    lemma_two_chars_bound(h@);
                }
                match u32_from_ascii(h) {
                    Some(v) => v,
                    None => return None,
                }
            },
            None => return None,
        };
        assert(reader@ == r2.skip(2));
        let minutes = match reader.split_n(2) {
            Some(m) => {
                proof {
                    lemma_two_chars_bound(m@);
                }
                match u32_from_ascii(m) {
                    Some(v) => v,
                    None => return None,
                }
            },
            None => return None,
        };
        let offset = sign * ((hours * 3600 + minutes) as i32);
        Some(Time { unix_time, offset })
    }

    /// `seconds +hhmm`, as `Display` writes it.
    pub fn to_bytes(&self) -> (r: Vec<u8>)
        requires
            self.offset > i32::MIN,
        ensures
            r@ == time_bytes(*self),
    {
        let mut out: Vec<u8> = Vec::new();
        push_uint(&mut out, self.unix_time, 10);
        out.push(32u8);
        let abs: u32 = if self.offset < 0 {
            out.push(45u8);
            (-self.offset) as u32
        } else {
            out.push(43u8);
            self.offset as u32
        };
        push_pad2(&mut out, (abs / 3600) as u64);
        push_pad2(&mut out, (abs % 3600) as u64);
        assert(out@ =~= time_bytes(*self));
        out
    }
}

} // verus!
