use vstd::prelude::*;

verus! {

/// Position of the first occurrence of `b` in `s`.
pub open spec fn find_first(s: Seq<u8>, b: u8) -> Option<int>
    decreases s.len(),
{
    if s.len() == 0 {
        None
    } else if s[0] == b {
        Some(0)
    } else {
        match find_first(s.drop_first(), b) {
            Some(i) => Some(i + 1),
            None => None,
        }
    }
}

/// `s` holds no byte equal to `b`.
pub open spec fn lacks(s: Seq<u8>, b: u8) -> bool {
    forall|j: int| 0 <= j < s.len() ==> s[j] != b
}

/// Splits `s` at the first `b`: the bytes before it and the bytes after it.
pub open spec fn split_until_spec(s: Seq<u8>, b: u8) -> Option<(Seq<u8>, Seq<u8>)> {
    match find_first(s, b) {
        Some(i) => Some((s.take(i), s.skip(i + 1))),
        None => None,
    }
}

pub open spec fn starts_with(s: Seq<u8>, prefix: Seq<u8>) -> bool {
    prefix.len() <= s.len() && s.take(prefix.len() as int) == prefix
}

/// What is left of `s` after `prefix`, if `s` starts with it.
pub open spec fn strip_prefix_spec(s: Seq<u8>, prefix: Seq<u8>) -> Option<Seq<u8>> {
    if starts_with(s, prefix) {
        Some(s.skip(prefix.len() as int))
    } else {
        None
    }
}

pub proof fn lemma_find_first(s: Seq<u8>, b: u8)
    ensures
        match find_first(s, b) {
            Some(i) => 0 <= i < s.len() && s[i] == b && lacks(s.take(i), b),
            None => lacks(s, b),
        },
    decreases s.len(),
{
    if s.len() > 0 && s[0] != b {
        lemma_find_first(s.drop_first(), b);
        match find_first(s.drop_first(), b) {
            Some(i) => {
                assert forall|j: int| 0 <= j < i + 1 implies #[trigger] s.take(i + 1)[j] != b by {
                    if j > 0 {
                        assert(s.take(i + 1)[j] == s.drop_first().take(i)[j - 1]);
                    }
                }
            },
            None => {
                assert forall|j: int| 0 <= j < s.len() implies s[j] != b by {
                    if j > 0 {
                        assert(s[j] == s.drop_first()[j - 1]);
                    }
                }
            },
        }
    }
}

/// The first `b` in `x + [b] + y` is the one after `x` when `x` holds no `b`.
pub proof fn lemma_find_first_concat(x: Seq<u8>, b: u8, y: Seq<u8>)
    requires
        lacks(x, b),
    ensures
        find_first(x + seq![b] + y, b) == Some(x.len() as int),
    decreases x.len(),
{
    let s = x + seq![b] + y;
    if x.len() == 0 {
        assert(s[0] == b);
    } else {
        assert(s[0] == x[0]);
        assert(s.drop_first() =~= x.drop_first() + seq![b] + y);
        lemma_find_first_concat(x.drop_first(), b, y);
    }
}

/// Splitting `x + [b] + y` at `b` gives `x` and `y` when `x` holds no `b`.
pub proof fn lemma_split_until_concat(x: Seq<u8>, b: u8, y: Seq<u8>)
    requires
        lacks(x, b),
    ensures
        split_until_spec(x + seq![b] + y, b) == Some((x, y)),
{
    let s = x + seq![b] + y;
    lemma_find_first_concat(x, b, y);
    assert(s.take(x.len() as int) =~= x);
    assert(s.skip(x.len() as int + 1) =~= y);
}

pub proof fn lemma_strip_prefix_concat(p: Seq<u8>, y: Seq<u8>)
    ensures
        strip_prefix_spec(p + y, p) == Some(y),
{
    assert((p + y).take(p.len() as int) =~= p);
    assert((p + y).skip(p.len() as int) =~= y);
}

pub open spec fn is_digit_of(c: u8, radix: nat) -> bool {
    &&& radix <= 16
    &&& ((48 <= c < 58 && c - 48 < radix) || (97 <= c < 103 && c - 87 < radix) || (65 <= c < 71
        && c - 55 < radix))
}

pub open spec fn digit_value(c: u8) -> nat {
    if 48 <= c < 58 {
        (c - 48) as nat
    } else if 97 <= c < 103 {
        (c - 87) as nat
    } else {
        (c - 55) as nat
    }
}

pub open spec fn all_digits(s: Seq<u8>, radix: nat) -> bool {
    forall|i: int| 0 <= i < s.len() ==> is_digit_of(#[trigger] s[i], radix)
}

/// The number that the digits `s` write in base `radix`, most significant first.
pub open spec fn digits_value(s: Seq<u8>, radix: nat) -> nat
    decreases s.len(),
{
    if s.len() == 0 {
        0
    } else {
        digits_value(s.drop_last(), radix) * radix + digit_value(s.last())
    }
}

/// The unsigned number that `s` writes in base `radix`: an optional `+`, then one digit or more.
pub open spec fn parse_uint_spec(s: Seq<u8>, radix: nat) -> Option<nat> {
    let d = if s.len() > 0 && s[0] == 43 {
        s.drop_first()
    } else {
        s
    };
    if d.len() > 0 && all_digits(d, radix) {
        Some(digits_value(d, radix))
    } else {
        None
    }
}

/// The lowercase digit for `v`.
pub open spec fn digit_char(v: nat) -> u8 {
    if v < 10 {
        (v + 48) as u8
    } else {
        (v + 87) as u8
    }
}

/// The digits of `n` in base `radix`, most significant first, without leading zeros.
pub open spec fn digits_of(n: nat, radix: nat) -> Seq<u8>
    decreases n,
{
    if n < radix || radix < 2 {
        seq![digit_char(n)]
    } else {
        proof {
            assert(n / radix < n) by (nonlinear_arith)
                requires
                    radix >= 2,
                    n >= radix,
            ;
        }
        digits_of(n / radix, radix).push(digit_char(n % radix))
    }
}

pub proof fn lemma_digits_of(n: nat, radix: nat)
    requires
        2 <= radix <= 16,
    ensures
        digits_of(n, radix).len() > 0,
        all_digits(digits_of(n, radix), radix),
        digits_value(digits_of(n, radix), radix) == n,
        digits_of(n, radix)[0] != 43,
    decreases n,
{
    let s = digits_of(n, radix);
    if n >= radix {
        assert(n / radix < n) by (nonlinear_arith)
            requires
                radix >= 2,
                n >= radix,
        ;
        lemma_digits_of(n / radix, radix);
        let p = digits_of(n / radix, radix);
        assert(s.drop_last() =~= p);
        assert(s.last() == digit_char(n % radix));
        assert(s[0] == p[0]);
        assert forall|i: int| 0 <= i < s.len() implies is_digit_of(#[trigger] s[i], radix) by {
            if i < p.len() {
                assert(s[i] == p[i]);
            }
        }
        assert(n == (n / radix) * radix + n % radix && n % radix < radix) by (nonlinear_arith)
            requires
                radix > 0,
        ;
        assert(digit_value(digit_char(n % radix)) == n % radix);
        assert(digits_value(s, radix) == digits_value(p, radix) * radix + n % radix);
        assert(digits_value(s, radix) == n);
    } else {
        assert(s.drop_last() =~= Seq::<u8>::empty());
        assert(digits_value(s, radix) == digits_value(s.drop_last(), radix) * radix + digit_value(s.last()));
        assert(digit_value(digit_char(n)) == n);
        assert(digits_value(s.drop_last(), radix) == 0);
        assert(s.last() == digit_char(n));
        assert(0 * radix == 0);
        assert(digits_value(s, radix) == n);
    }
}

pub proof fn lemma_digits_value_short(c0: u8, c1: u8, radix: nat)
    ensures
        digits_value(seq![c0], radix) == digit_value(c0),
        digits_value(seq![c0, c1], radix) == digit_value(c0) * radix + digit_value(c1),
{
    assert(seq![c0].drop_last() =~= Seq::<u8>::empty());
    assert(seq![c0, c1].drop_last() =~= seq![c0]);
    assert(digits_value(Seq::<u8>::empty(), radix) == 0);
    assert(0 * radix == 0);
    assert(digits_value(seq![c0], radix) == digit_value(c0));
    assert(seq![c0, c1].last() == c1);
    assert(digits_value(seq![c0, c1], radix) == digits_value(seq![c0], radix) * radix + digit_value(
        c1,
    ));
}

pub proof fn lemma_parse_digits_of(n: nat, radix: nat)
    requires
        2 <= radix <= 16,
    ensures
        parse_uint_spec(digits_of(n, radix), radix) == Some(n),
{
    lemma_digits_of(n, radix);
}

/// Parses an unsigned number in base `radix` as `u64::from_str_radix` does, and accepts it
/// when it is at most `max`.
pub fn parse_uint(bytes: &[u8], radix: u64, max: u64) -> (res: Option<u64>)
    requires
        2 <= radix <= 16,
    ensures
        match res {
            Some(v) => parse_uint_spec(bytes@, radix as nat) == Some(v as nat) && v <= max,
            None => match parse_uint_spec(bytes@, radix as nat) {
                Some(n) => n > max,
                None => true,
            },
        },
{
    let start: usize = if bytes.len() > 0 && bytes[0] == 43u8 {
        1
    } else {
        0
    };
    let ghost d = if bytes@.len() > 0 && bytes@[0] == 43 {
        bytes@.drop_first()
    } else {
        bytes@
    };
    assert(d =~= bytes@.skip(start as int));
    if start >= bytes.len() {
        return None;
    }
    let mut value: u64 = 0;
    let mut i: usize = start;
    let mut overflow = false;
    while i < bytes.len()
        invariant
            start <= i <= bytes.len(),
            d =~= bytes@.skip(start as int),
            d == (if bytes@.len() > 0 && bytes@[0] == 43 {
                bytes@.drop_first()
            } else {
                bytes@
            }),
            2 <= radix <= 16,
            all_digits(bytes@.subrange(start as int, i as int), radix as nat),
            !overflow ==> value as nat == digits_value(bytes@.subrange(start as int, i as int), radix as nat) && value <= max,
            overflow ==> digits_value(bytes@.subrange(start as int, i as int), radix as nat) > max,
        decreases bytes.len() - i,
    {
        let c = bytes[i];
        let dv: u64 = if 48 <= c && c < 58 {
            (c - 48) as u64
        } else if 97 <= c && c < 103 {
            (c - 87) as u64
        } else if 65 <= c && c < 71 {
            (c - 55) as u64
        } else {
            radix
        };
        if dv >= radix {
            assert(!is_digit_of(c, radix as nat));
            assert(d[(i - start) as int] == c);
            assert(!all_digits(d, radix as nat));
            return None;
        }
        let ghost prev = bytes@.subrange(start as int, i as int);
        let ghost next = bytes@.subrange(start as int, i + 1);
        assert(next.drop_last() =~= prev);
        assert(next.last() == c);
        assert(digit_value(c) == dv);
        assert forall|j: int| 0 <= j < next.len() implies is_digit_of(#[trigger] next[j], radix as nat) by {
            if j < prev.len() {
                assert(next[j] == prev[j]);
            }
        }
        if !overflow {
            match value.checked_mul(radix) {
                Some(m) => match m.checked_add(dv) {
                    Some(v) => {
                        if v <= max {
                            value = v;
                        } else {
                            overflow = true;
                        }
                    },
                    None => {
                        overflow = true;
                    },
                },
                None => {
                    overflow = true;
                    assert(digits_value(next, radix as nat) >= value * radix) by (nonlinear_arith)
                        requires
                            digits_value(next, radix as nat) == value * radix + dv,
                    ;
                },
            }
        } else {
            assert(digits_value(next, radix as nat) >= digits_value(prev, radix as nat)) by (nonlinear_arith)
                requires
                    digits_value(next, radix as nat) == digits_value(prev, radix as nat) * radix + dv,
                    radix >= 2,
            ;
        }
        i = i + 1;
    }
    assert(bytes@.subrange(start as int, bytes@.len() as int) =~= d);
    if overflow {
        None
    } else {
        Some(value)
    }
}

/// Reads an unsigned decimal `u32` as `u32::from_str` does on the bytes taken as text.
pub fn u32_from_ascii(bytes: &[u8]) -> (res: Option<u32>)
    ensures
        match parse_uint_spec(bytes@, 10) {
            Some(n) => if n <= u32::MAX {
                res == Some(n as u32)
            } else {
                res is None
            },
            None => res is None,
        },
{
    match parse_uint(bytes, 10, 0xffff_ffff) {
        Some(v) => Some(v as u32),
        None => None,
    }
}

/// Reads an unsigned decimal `u64` as `u64::from_str` does on the bytes taken as text.
pub fn u64_from_ascii(bytes: &[u8]) -> (res: Option<u64>)
    ensures
        match parse_uint_spec(bytes@, 10) {
            Some(n) => if n <= u64::MAX {
                res == Some(n as u64)
            } else {
                res is None
            },
            None => res is None,
        },
{
    parse_uint(bytes, 10, 0xffff_ffff_ffff_ffff)
}

/// Appends the digits of `n` in base `radix`, as `{}` (or `{:o}` in base 8) writes them.
pub fn push_uint(dst: &mut Vec<u8>, n: u64, radix: u64)
    requires
        2 <= radix <= 16,
    ensures
        final(dst)@ == old(dst)@ + digits_of(n as nat, radix as nat),
    decreases n,
{
    if n < radix {
        dst.push(crate::sha1::hex_digit(n as u8));
        assert(old(dst)@ + digits_of(n as nat, radix as nat) =~= old(dst)@.push(digit_char(n as nat)));
    } else {
        assert(n / radix < n) by (nonlinear_arith)
            requires
                radix >= 2,
                n >= radix,
        ;
        push_uint(dst, n / radix, radix);
        dst.push(crate::sha1::hex_digit((n % radix) as u8));
        assert(digits_of(n as nat, radix as nat) == digits_of((n / radix) as nat, radix as nat).push(
            digit_char((n % radix) as nat),
        ));
        assert(final(dst)@ =~= old(dst)@ + digits_of(n as nat, radix as nat));
    }
}

/// The decimal digits of `n`, at least two of them: `{:02}`.
pub open spec fn pad2(n: nat) -> Seq<u8> {
    if n < 10 {
        seq![48u8] + digits_of(n, 10)
    } else {
        digits_of(n, 10)
    }
}

/// Appends `n` as `{:02}` writes it.
pub fn push_pad2(dst: &mut Vec<u8>, n: u64)
    ensures
        final(dst)@ == old(dst)@ + pad2(n as nat),
{
    if n < 10 {
        dst.push(48u8);
        push_uint(dst, n, 10);
        assert(final(dst)@ =~= old(dst)@ + pad2(n as nat));
    } else {
        push_uint(dst, n, 10);
    }
}

/// The position of the first `b` in `s`.
pub fn find_byte(s: &[u8], b: u8) -> (r: Option<usize>)
    ensures
        match find_first(s@, b) {
            Some(i) => r == Some(i as usize),
            None => r is None,
        },
{
    proof {
        lemma_find_first(s@, b);
    }
    let mut i: usize = 0;
    while i < s.len()
        invariant
            i <= s@.len(),
            forall|j: int| 0 <= j < i ==> s@[j] != b,
            match find_first(s@, b) {
                Some(k) => 0 <= k < s@.len() && s@[k] == b && lacks(s@.take(k), b),
                None => lacks(s@, b),
            },
        decreases s@.len() - i,
    {
        if s[i] == b {
            proof {
                match find_first(s@, b) {
                    Some(k) => {
                        if k > i {
                            assert(s@.take(k)[i as int] == s@[i as int]);
                        }
                    },
                    None => {},
                }
            }
            return Some(i);
        }
        i = i + 1;
    }
    proof {
        match find_first(s@, b) {
            Some(k) => {
                assert(s@[k] != b);
            },
            None => {},
        }
    }
    None
}

/// A cursor over bytes that splits them from the front.
pub struct BinaryReader<'a> {
    data: &'a [u8],
}

impl<'a> View for BinaryReader<'a> {
    type V = Seq<u8>;

    closed spec fn view(&self) -> Seq<u8> {
        self.data@
    }
}

impl<'a> BinaryReader<'a> {
    pub fn new(data: &'a [u8]) -> (r: Self)
        ensures
            r@ == data@,
    {
        Self { data }
    }

    pub fn is_empty(&self) -> (r: bool)
        ensures
            r == (self@.len() == 0),
    {
        self.data.len() == 0
    }

    pub fn skip_prefix(&mut self, prefix: &[u8]) -> (r: Option<()>)
        ensures
            strip_prefix_spec(old(self)@, prefix@) matches Some(rest) ==> r is Some && final(self)@
                == rest,
            strip_prefix_spec(old(self)@, prefix@) is None ==> r is None && final(self)@ == old(
                self,
            )@,
    {
        if prefix.len() > self.data.len() {
            return None;
        }
        let mut i: usize = 0;
        while i < prefix.len()
            invariant
                i <= prefix.len() <= self.data@.len(),
                forall|j: int| 0 <= j < i ==> self.data@[j] == prefix@[j],
            decreases prefix.len() - i,
        {
            if self.data[i] != prefix[i] {
                assert(self.data@.take(prefix@.len() as int)[i as int] != prefix@[i as int]);
                return None;
            }
            i = i + 1;
        }
        assert(self.data@.take(prefix@.len() as int) =~= prefix@);
        let len = self.data.len();
        self.data = &self.data[prefix.len()..len];
        assert(self.data@ =~= old(self)@.skip(prefix@.len() as int));
        Some(())
    }

    pub fn skip_byte(&mut self, byte: u8) -> (r: Option<()>)
        ensures
            strip_prefix_spec(old(self)@, seq![byte]) matches Some(rest) ==> r is Some
                && final(self)@ == rest,
            strip_prefix_spec(old(self)@, seq![byte]) is None ==> r is None && final(self)@ == old(
                self,
            )@,
    {
        let arr = [byte];
        assert(arr@ =~= seq![byte]);
        self.skip_prefix(&arr)
    }

    pub fn split_n(&mut self, n: usize) -> (r: Option<&'a [u8]>)
        ensures
            n <= old(self)@.len() ==> (r matches Some(s) && s@ == old(self)@.take(n as int)
                && final(self)@ == old(self)@.skip(n as int)),
            n > old(self)@.len() ==> r is None && final(self)@ == old(self)@,
    {
        if n > self.data.len() {
            return None;
        }
        let (left, rest) = self.data.split_at(n);
        self.data = rest;
        assert(left@ =~= old(self)@.take(n as int));
        assert(rest@ =~= old(self)@.skip(n as int));
        Some(left)
    }

    pub fn split_until_inclusive(&mut self, byte: u8) -> (r: Option<&'a [u8]>)
        ensures
            split_until_spec(old(self)@, byte) matches Some((left, rest)) ==> (r matches Some(s)
                && s@ == left && final(self)@ == rest),
            split_until_spec(old(self)@, byte) is None ==> r is None && final(self)@ == old(
                self,
            )@,
    {
        proof {
            lemma_find_first(self.data@, byte);
        }
        let mut pos: usize = 0;
        while pos < self.data.len()
            invariant
                pos <= self.data@.len(),
                lacks(self.data@.take(pos as int), byte),
                self.data@ == old(self)@,
            decreases self.data@.len() - pos,
        {
            if self.data[pos] == byte {
                let (left, rest) = self.data.split_at(pos);
                let len = rest.len();
                let rest2 = &rest[1..len];
                self.data = rest2;
                proof {
                    let s = old(self)@;
                    lemma_find_first(s, byte);
                    match find_first(s, byte) {
                        Some(i) => {
                            if i < pos {
                                assert(s.take(pos as int)[i] == s[i]);
                            } else if i > pos {
                                assert(s.take(i)[pos as int] == s[pos as int]);
                            }
                        },
                        None => {
                            assert(s[pos as int] == byte);
                        },
                    }
                    assert(left@ =~= s.take(pos as int));
                    assert(rest2@ =~= s.skip(pos + 1));
                }
                return Some(left);
            }
            assert(self.data@.take(pos + 1).drop_last() =~= self.data@.take(pos as int));
            assert(lacks(self.data@.take(pos + 1), byte)) by {
                assert forall|j: int| 0 <= j < pos + 1 implies #[trigger] self.data@.take(pos + 1)[j] != byte by {
                    if j < pos {
                        assert(self.data@.take(pos + 1)[j] == self.data@.take(pos as int)[j]);
                    }
                }
            }
            pos = pos + 1;
        }
        proof {
            let s = old(self)@;
            lemma_find_first(s, byte);
            assert(s.take(pos as int) =~= s);
            match find_first(s, byte) {
                Some(i) => {
                    assert(s.take(pos as int)[i] == s[i]);
                },
                None => {},
            }
        }
        None
    }

    pub fn first(&mut self) -> (r: Option<u8>)
        ensures
            old(self)@.len() > 0 ==> r == Some(old(self)@[0]) && final(self)@ == old(
                self,
            )@.drop_first(),
            old(self)@.len() == 0 ==> r is None && final(self)@ == old(self)@,
    {
        match self.split_n(1) {
            Some(first) => Some(first[0]),
            None => None,
        }
    }

    pub fn bytes(self) -> (r: &'a [u8])
        ensures
            r@ == self@,
    {
        self.data
    }
}

} // verus!
