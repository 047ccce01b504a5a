use vstd::prelude::*;
use vstd::utf8::*;

use crate::binary::{find_first, lemma_find_first, BinaryReader};
use crate::bytes::{
    compare_bytes, lemma_seq_lt_asym, lemma_seq_lt_irreflexive, lemma_seq_lt_total,
    lemma_seq_lt_transitive, push_all, seq_lt, to_vec,
};
use crate::object_id::ObjectId;
use crate::sha1::{sha1_digest, Sha1, Sha1Hasher};
use crate::text::string_from_utf8;

verus! {

/// A time stamp of the index: seconds and nanoseconds.
#[derive(Debug, Clone, Copy, PartialEq, Eq, Structural)]
pub struct IndexTime {
    pub seconds: u32,
    pub nanoseconds: u32,
}

/// One staged file: what `stat` said of it, its object, its flags and its path.
#[derive(Debug, Clone)]
pub struct IndexEntry {
    pub mtime: IndexTime,
    pub ctime: IndexTime,
    pub dev: u32,
    pub ino: u32,
    pub mode: u32,
    pub uid: u32,
    pub gid: u32,
    pub size: u32,
    pub id: ObjectId,
    pub flags: u16,
    pub path: Vec<u8>,
}

/// An entry as `(mtime, ctime, dev, ino, mode, uid, gid, size, id, flags, path)`.
pub type IndexEntryV = (
    IndexTime,
    IndexTime,
    u32,
    u32,
    u32,
    u32,
    u32,
    u32,
    Seq<u8>,
    u16,
    Seq<u8>,
);

impl View for IndexEntry {
    type V = IndexEntryV;

    open spec fn view(&self) -> IndexEntryV {
        (
            self.mtime,
            self.ctime,
            self.dev,
            self.ino,
            self.mode,
            self.uid,
            self.gid,
            self.size,
            self.id@,
            self.flags,
            self.path@,
        )
    }
}

pub open spec fn index_entries_view(es: Seq<IndexEntry>) -> Seq<IndexEntryV> {
    es.map_values(|e: IndexEntry| e@)
}

/// Paths strictly increasing, so that none occurs twice.
pub open spec fn sorted_paths(es: Seq<IndexEntryV>) -> bool {
    forall|i: int, j: int| 0 <= i < j < es.len() ==> seq_lt(#[trigger] es[i].10, #[trigger] es[j].10)
}

/// The outcome of searching sorted entries for a path: `Ok(i)` where entry `i` has the path,
/// `Err(i)` where the path would be inserted to keep them sorted.
pub open spec fn search_result(es: Seq<IndexEntryV>, path: Seq<u8>, r: Result<usize, usize>) -> bool {
    match r {
        Ok(i) => i < es.len() && es[i as int].10 == path,
        Err(i) => i <= es.len() && (forall|j: int| 0 <= j < i ==> seq_lt(#[trigger] es[j].10, path))
            && (forall|j: int| i <= j < es.len() ==> seq_lt(path, #[trigger] es[j].10)),
    }
}

/// The staging area: entries sorted by path.
#[derive(Debug)]
pub struct Index {
    version: u32,
    pub entries: Vec<IndexEntry>,
}

impl View for Index {
    type V = Seq<IndexEntryV>;

    closed spec fn view(&self) -> Seq<IndexEntryV> {
        index_entries_view(self.entries@)
    }
}

impl Index {
    /// The format version the index was read with; 0 for a new one.
    pub closed spec fn version(&self) -> u32 {
        self.version
    }

    pub open spec fn wf(&self) -> bool {
        sorted_paths(self@)
    }

    pub fn new() -> (r: Index)
        ensures
            r@.len() == 0,
            r.version() == 0,
            r.wf(),
    {
        Self { version: 0, entries: Vec::new() }
    }

    /// Binary search for a path among the entries.
    pub fn find_by_path(&self, path: &[u8]) -> (r: Result<usize, usize>)
        requires
            self.wf(),
        ensures
            search_result(self@, path@, r),
    {
        self.find_by_raw_path(path)
    }

    fn find_by_raw_path(&self, path_raw: &[u8]) -> (r: Result<usize, usize>)
        requires
            self.wf(),
        ensures
            search_result(self@, path_raw@, r),
    {
        let ghost es = index_entries_view(self.entries@);
        let mut lo: usize = 0;
        let mut hi: usize = self.entries.len();
        while lo < hi
            invariant
                es == index_entries_view(self.entries@),
                sorted_paths(es),
                lo <= hi <= es.len(),
                forall|j: int| 0 <= j < lo ==> seq_lt(#[trigger] es[j].10, path_raw@),
                forall|j: int| hi <= j < es.len() ==> seq_lt(path_raw@, #[trigger] es[j].10),
            decreases hi - lo,
        {
            let mid = lo + (hi - lo) / 2;
            let c = compare_bytes(self.entries[mid].path.as_slice(), path_raw);
            assert(es[mid as int].10 == self.entries@[mid as int].path@);
            if c == 0 {
                return Ok(mid);
            } else if c < 0 {
                assert forall|j: int| 0 <= j < mid + 1 implies seq_lt(#[trigger] es[j].10, path_raw@) by {
                    if j < mid {
                        lemma_seq_lt_transitive(es[j].10, es[mid as int].10, path_raw@);
                    }
                }
                lo = mid + 1;
            } else {
                assert forall|j: int| mid <= j < es.len() implies seq_lt(path_raw@, #[trigger] es[j].10) by {
                    if j > mid {
                        lemma_seq_lt_transitive(path_raw@, es[mid as int].10, es[j].10);
                    }
                }
                hi = mid;
            }
        }
        Err(lo)
    }

    /// Adds an entry, or replaces the one with the same path.
    pub fn add(&mut self, entry: IndexEntry)
        requires
            old(self).wf(),
        ensures
            final(self).wf(),
            final(self).version() == old(self).version(),
            exists|r: Result<usize, usize>|
                search_result(old(self)@, entry.path@, r) && match r {
                    Ok(i) => final(self)@ == old(self)@.update(i as int, entry@),
                    Err(i) => final(self)@ == old(self)@.insert(i as int, entry@),
                },
    {
        let ghost es = index_entries_view(self.entries@);
        let ghost p = entry.path@;
        let r = self.find_by_raw_path(entry.path.as_slice());
        let ghost e = entry@;
        match r {
            Ok(i) => {
                self.entries[i] = entry;
                proof {
                    let ns = index_entries_view(self.entries@);
                    assert(ns =~= es.update(i as int, e));
                    assert forall|a: int, b: int| 0 <= a < b < ns.len() implies seq_lt(
                        #[trigger] ns[a].10,
                        #[trigger] ns[b].10,
                    ) by {
                        assert(ns[a].10 == es[a].10);
                        assert(ns[b].10 == es[b].10);
                    }
                }
            },
            Err(i) => {
                self.entries.insert(i, entry);
                proof {
                    let ns = index_entries_view(self.entries@);
                    assert(ns =~= es.insert(i as int, e));
                    assert forall|a: int, b: int| 0 <= a < b < ns.len() implies seq_lt(
                        #[trigger] ns[a].10,
                        #[trigger] ns[b].10,
                    ) by {
                        if b < i {
                            assert(ns[a] == es[a] && ns[b] == es[b]);
                        } else if b == i {
                            assert(ns[a] == es[a]);
                        } else if a < i {
                            assert(ns[a] == es[a] && ns[b] == es[b - 1]);
                            lemma_seq_lt_transitive(es[a].10, p, es[b - 1].10);
                        } else if a == i {
                            assert(ns[b] == es[b - 1]);
                        } else {
                            assert(ns[a] == es[a - 1] && ns[b] == es[b - 1]);
                        }
                    }
                }
            },
        }
    }

    /// Removes entry `i`.
    pub fn remove(&mut self, i: usize)
        requires
            i < old(self)@.len(),
            old(self).wf(),
        ensures
            final(self).wf(),
            final(self).version() == old(self).version(),
            final(self)@ == old(self)@.remove(i as int),
    {
        let ghost es = index_entries_view(self.entries@);
        self.entries.remove(i);
        proof {
            let ns = index_entries_view(self.entries@);
            assert(ns =~= es.remove(i as int));
            assert forall|a: int, b: int| 0 <= a < b < ns.len() implies seq_lt(
                #[trigger] ns[a].10,
                #[trigger] ns[b].10,
            ) by {
                if b < i {
                    assert(ns[a] == es[a] && ns[b] == es[b]);
                } else if a < i {
                    assert(ns[a] == es[a] && ns[b] == es[b + 1]);
                } else {
                    assert(ns[a] == es[a + 1] && ns[b] == es[b + 1]);
                }
            }
        }
    }

    pub fn get_unchecked(&self, i: usize) -> (r: &IndexEntry)
        requires
            i < self@.len(),
            self.wf(),
        ensures
            r@ == self@[i as int],
    {
        &self.entries[i]
    }

    pub fn get_mut_unchecked(&mut self, i: usize) -> (r: &mut IndexEntry)
        requires
            i < old(self)@.len(),
            old(self).wf(),
        ensures
            r@ == old(self)@[i as int],
            final(self)@ == old(self)@.update(i as int, final(r)@),
            final(self).version() == old(self).version(),
    {
        &mut self.entries[i]
    }

    pub fn count_entries(&self) -> (r: usize)
        requires
            self.wf(),
        ensures
            r == self@.len(),
    {
        self.entries.len()
    }
}

/// Searching sorted entries has one outcome.
pub proof fn lemma_search_unique(
    es: Seq<IndexEntryV>,
    path: Seq<u8>,
    r1: Result<usize, usize>,
    r2: Result<usize, usize>,
)
    requires
        sorted_paths(es),
        search_result(es, path, r1),
        search_result(es, path, r2),
    ensures
        r1 == r2,
{
    match (r1, r2) {
        (Ok(i), Ok(j)) => {
            if i < j {
                assert(seq_lt(es[i as int].10, es[j as int].10));
                lemma_seq_lt_irreflexive(path);
            } else if j < i {
                assert(seq_lt(es[j as int].10, es[i as int].10));
                lemma_seq_lt_irreflexive(path);
            }
        },
        (Ok(i), Err(j)) => {
            if (i as int) < (j as int) {
                assert(seq_lt(es[i as int].10, path));
            } else {
                assert(seq_lt(path, es[i as int].10));
            }
            lemma_seq_lt_irreflexive(path);
        },
        (Err(i), Ok(j)) => {
            if (j as int) < (i as int) {
                assert(seq_lt(es[j as int].10, path));
            } else {
                assert(seq_lt(path, es[j as int].10));
            }
            lemma_seq_lt_irreflexive(path);
        },
        (Err(i), Err(j)) => {
            if i < j {
                assert(seq_lt(es[i as int].10, path));
                assert(seq_lt(path, es[i as int].10));
                lemma_seq_lt_asym(path, es[i as int].10);
            } else if j < i {
                assert(seq_lt(es[j as int].10, path));
                assert(seq_lt(path, es[j as int].10));
                lemma_seq_lt_asym(path, es[j as int].10);
            }
        },
    }
}

/// An added entry is found again: after `add`, searching for the entry's path finds the
/// entry that was added, where the search before it pointed.
pub proof fn lemma_add_then_find(
    before: Seq<IndexEntryV>,
    e: IndexEntryV,
    r: Result<usize, usize>,
    after: Seq<IndexEntryV>,
)
    requires
        sorted_paths(before),
        search_result(before, e.10, r),
        match r {
            Ok(i) => after == before.update(i as int, e),
            Err(i) => after == before.insert(i as int, e),
        },
    ensures
        ({
            let i = match r {
                Ok(i) => i,
                Err(i) => i,
            };
            search_result(after, e.10, Ok(i)) && after[i as int] == e
        }),
{
}

/// A removed path is gone: once the entry found for a path is removed from sorted entries,
/// searching for the path finds nothing.
pub proof fn lemma_remove_then_missing(before: Seq<IndexEntryV>, path: Seq<u8>, i: usize)
    requires
        sorted_paths(before),
        search_result(before, path, Ok(i)),
    ensures
        search_result(before.remove(i as int), path, Err(i)),
{
    let after = before.remove(i as int);
    assert forall|j: int| 0 <= j < i implies seq_lt(#[trigger] after[j].10, path) by {
        assert(after[j] == before[j]);
    }
    assert forall|j: int| i <= j < after.len() implies seq_lt(path, #[trigger] after[j].10) by {
        assert(after[j] == before[j + 1]);
    }
}

/// Removes the entry of a path, if there is one.
pub fn remove_path_from_index(path: &[u8], index: &mut Index)
    requires
        old(index).wf(),
    ensures
        final(index).wf(),
        match old(index).find_result(path@) {
            Ok(i) => final(index)@ == old(index)@.remove(i as int),
            Err(_) => final(index)@ == old(index)@,
        },
{
    let r = index.find_by_path(path);
    proof {
        lemma_search_unique(index@, path@, r, index.find_result(path@));
    }
    if let Ok(i) = r {
        index.remove(i);
    }
}

impl Index {
    /// The one outcome of searching for a path.
    pub open spec fn find_result(&self, path: Seq<u8>) -> Result<usize, usize> {
        choose|r: Result<usize, usize>| search_result(self@, path, r)
    }
}


/// A number of four bytes, most significant first.
pub open spec fn be32(s: Seq<u8>) -> int {
    s[0] * 16777216 + s[1] * 65536 + s[2] * 256 + s[3]
}

/// A number of two bytes, most significant first.
pub open spec fn be16(s: Seq<u8>) -> int {
    s[0] * 256 + s[1]
}

/// `n.to_be_bytes()`.
pub open spec fn u32_be(n: u32) -> Seq<u8> {
    seq![(n / 16777216) as u8, ((n / 65536) % 256) as u8, ((n / 256) % 256) as u8, (n % 256) as u8]
}

/// `n.to_be_bytes()`.
pub open spec fn u16_be(n: u16) -> Seq<u8> {
    seq![(n / 256) as u8, (n % 256) as u8]
}

proof fn lemma_be32(n: u32)
    ensures
        u32_be(n).len() == 4,
        be32(u32_be(n)) == n,
{
    assert(n / 16777216 < 256 && (n / 16777216) * 16777216 + ((n / 65536) % 256) * 65536 + ((n
        / 256) % 256) * 256 + n % 256 == n) by (bit_vector);
}

proof fn lemma_be16(n: u16)
    ensures
        u16_be(n).len() == 2,
        be16(u16_be(n)) == n,
{
    assert(n / 256 < 256 && (n / 256) * 256 + n % 256 == n) by (bit_vector);
}

fn u16_from_be_slice(b: &[u8]) -> (r: u16)
    requires
        b@.len() == 2,
    ensures
        r == be16(b@),
{
    (b[0] as u16) * 256 + (b[1] as u16)
}

fn u32_from_be_slice(b: &[u8]) -> (r: u32)
    requires
        b@.len() == 4,
    ensures
        r == be32(b@),
{
    (b[0] as u32) * 16777216 + (b[1] as u32) * 65536 + (b[2] as u32) * 256 + (b[3] as u32)
}

/// The zero bytes that bring `size` to a multiple of eight.
pub open spec fn pad_of(size: int) -> int {
    (8 - size % 8) % 8
}

fn align_padding_size(size: usize) -> (r: usize)
    ensures
        r == pad_of(size as int),
        r < 8,
{
    (8 - (size % 8)) % 8
}

/// The path of an entry, after its fixed fields: as long as the flags say, or up to the first
/// `0` character when they hold the largest length.
pub open spec fn parse_path_spec(rest: Seq<u8>, flags: u16) -> Option<Seq<u8>> {
    let len = flags % 4096;
    if len == 4095 {
        match find_first(rest, 48) {
            Some(i) => Some(rest.take(i)),
            None => None,
        }
    } else if len <= rest.len() {
        Some(rest.take(len as int))
    } else {
        None
    }
}

/// Field `k` of the ten four-byte fields that open an entry.
pub open spec fn field32(s: Seq<u8>, k: int) -> u32 {
    be32(s.subrange(4 * k, 4 * k + 4)) as u32
}

/// The entry whose fixed fields open `s`, with this path.
pub open spec fn fixed_view(s: Seq<u8>, path: Seq<u8>) -> IndexEntryV {
    (
        IndexTime { seconds: field32(s, 2), nanoseconds: field32(s, 3) },
        IndexTime { seconds: field32(s, 0), nanoseconds: field32(s, 1) },
        field32(s, 4),
        field32(s, 5),
        field32(s, 6),
        field32(s, 7),
        field32(s, 8),
        field32(s, 9),
        s.subrange(40, 60),
        be16(s.subrange(60, 62)) as u16,
        path,
    )
}

/// One entry at the front of `s` when `consumed` bytes of entries came before it: the entry,
/// what follows it, and the bytes consumed after it. The NUL and the padding are skipped when
/// they are there.
pub open spec fn parse_entry_spec(s: Seq<u8>, consumed: int) -> Option<(IndexEntryV, Seq<u8>, int)> {
    if s.len() < 62 {
        None
    } else {
        let flags = be16(s.subrange(60, 62)) as u16;
        let rest = s.skip(62);
        match parse_path_spec(rest, flags) {
            None => None,
            Some(path) => {
                let r2 = rest.skip(path.len() as int);
                let c1 = consumed + 62 + path.len();
                let n = pad_of(c1 + 1);
                if r2.len() >= n + 1 {
                    Some((fixed_view(s, path), r2.skip(n + 1), c1 + n + 1))
                } else {
                    Some((fixed_view(s, path), r2, c1))
                }
            },
        }
    }
}

/// `n` entries at the front of `s`, or the number of the first that fails.
pub open spec fn parse_entries_spec(s: Seq<u8>, consumed: int, n: nat, k: nat) -> Result<
    (Seq<IndexEntryV>, Seq<u8>),
    nat,
>
    decreases n,
{
    if n == 0 {
        Ok((seq![], s))
    } else {
        match parse_entry_spec(s, consumed) {
            None => Err(k),
            Some((e, r, c)) => match parse_entries_spec(r, c, (n - 1) as nat, k + 1) {
                Ok((es, r2)) => Ok((seq![e] + es, r2)),
                Err(i) => Err(i),
            },
        }
    }
}

/// Why an index cannot be read, as plain data.
#[derive(Debug, PartialEq, Eq, Structural)]
pub enum ParsingErrorKind {
    TooShort,
    InvalidSignature,
    UnsupportedVersion(u32),
    UnsupportedExtension(u8, u8, u8, u8),
    EntryParseFail(u32),
    InvalidCheckSum,
    WrongEntriesOrder,
}

/// Extensions after the entries: each a four-byte signature, a four-byte size and that many
/// bytes; those whose signature does not start with an uppercase letter are refused.
pub open spec fn parse_extensions_spec(s: Seq<u8>) -> Result<(), ParsingErrorKind>
    decreases s.len(),
{
    if s.len() == 0 {
        Ok(())
    } else if s.len() < 4 {
        Err(ParsingErrorKind::TooShort)
    } else if !(65 <= s[0] <= 90) {
        Err(ParsingErrorKind::UnsupportedExtension(s[0], s[1], s[2], s[3]))
    } else if s.len() < 8 {
        Err(ParsingErrorKind::TooShort)
    } else {
        let size = be32(s.subrange(4, 8));
        let r = s.skip(8);
        if size > r.len() {
            Err(ParsingErrorKind::TooShort)
        } else {
            parse_extensions_spec(r.skip(size))
        }
    }
}

pub open spec fn dirc() -> Seq<u8> {
    seq![68u8, 73, 82, 67]
}

/// What reading an index file gives: its version and entries, or why it is refused.
pub open spec fn parse_index_spec(data: Seq<u8>) -> Result<(u32, Seq<IndexEntryV>), ParsingErrorKind> {
    if data.len() < 32 {
        Err(ParsingErrorKind::TooShort)
    } else {
        let d = data.take(data.len() - 20);
        if sha1_digest(d) != data.skip(data.len() - 20) {
            Err(ParsingErrorKind::InvalidCheckSum)
        } else if d.take(4) != dirc() {
            Err(ParsingErrorKind::InvalidSignature)
        } else {
            let version = be32(d.subrange(4, 8)) as u32;
            let n = be32(d.subrange(8, 12)) as u32;
            if version != 2 {
                Err(ParsingErrorKind::UnsupportedVersion(version))
            } else {
                match parse_entries_spec(d.skip(12), 0, n as nat, 0) {
                    Err(i) => Err(ParsingErrorKind::EntryParseFail(i as u32)),
                    Ok((es, rest)) => match parse_extensions_spec(rest) {
                        Err(e) => Err(e),
                        Ok(_) => if sorted_paths(es) {
                            Ok((2u32, es))
                        } else {
                            Err(ParsingErrorKind::WrongEntriesOrder)
                        },
                    },
                }
            }
        }
    }
}

/// Why an index file cannot be read.
#[derive(Debug)]
pub enum ParsingError {
    TooShort,
    InvalidSignature,
    UnsupportedVersion(u32),
    UnsupportedExtension(String),
    EntryParseFail(u32),
    InvalidCheckSum,
    WrongEntriesOrder,
}

/// The name given to an extension that is refused: its signature as text, or `unknown`.
pub open spec fn extension_name(sig: Seq<u8>) -> Seq<char> {
    if valid_utf8(sig) {
        decode_utf8(sig)
    } else {
        seq!['u', 'n', 'k', 'n', 'o', 'w', 'n']
    }
}

/// The error is the one described.
pub open spec fn error_is(e: ParsingError, k: ParsingErrorKind) -> bool {
    match k {
        ParsingErrorKind::TooShort => e is TooShort,
        ParsingErrorKind::InvalidSignature => e is InvalidSignature,
        ParsingErrorKind::UnsupportedVersion(v) => e matches ParsingError::UnsupportedVersion(w) && w == v,
        ParsingErrorKind::UnsupportedExtension(a, b, c, d) => e matches ParsingError::UnsupportedExtension(s)
            && s@ == extension_name(seq![a, b, c, d]),
        ParsingErrorKind::EntryParseFail(i) => e matches ParsingError::EntryParseFail(j) && j == i,
        ParsingErrorKind::InvalidCheckSum => e is InvalidCheckSum,
        ParsingErrorKind::WrongEntriesOrder => e is WrongEntriesOrder,
    }
}

/// Reads the entries of an index file one after the other.
pub struct EntryParser<'a> {
    data: &'a [u8],
    consumed: usize,
}

impl<'a> EntryParser<'a> {
    pub closed spec fn rest(&self) -> Seq<u8> {
        self.data@
    }

    pub closed spec fn consumed(&self) -> int {
        self.consumed as int
    }

    pub open spec fn inv(&self) -> bool {
        self.consumed() + self.rest().len() < usize::MAX
    }

    pub fn new(data: &'a [u8]) -> (r: Self)
        requires
            data@.len() < usize::MAX,
        ensures
            r.inv(),
            r.rest() == data@,
            r.consumed() == 0,
    {
        Self { data, consumed: 0 }
    }

    fn take(&mut self, n: usize) -> (r: Option<&'a [u8]>)
        requires
            old(self).inv(),
        ensures
            final(self).inv(),
            final(self).rest().len() <= old(self).rest().len(),
            n <= old(self).rest().len() ==> (r matches Some(b) && b@ == old(self).rest().take(
                n as int,
            )) && final(self).rest() == old(self).rest().skip(n as int) && final(self).consumed()
                == old(self).consumed() + n,
            n > old(self).rest().len() ==> r is None && final(self).rest() == old(self).rest()
                && final(self).consumed() == old(self).consumed(),
    {
        if n > self.data.len() {
            return None;
        }
        let (left, rest) = self.data.split_at(n);
        self.data = rest;
        self.consumed = self.consumed + n;
        assert(left@ =~= old(self).rest().take(n as int));
        assert(rest@ =~= old(self).rest().skip(n as int));
        Some(left)
    }

    fn parse_u16(&mut self) -> (r: Option<u16>)
        requires
            old(self).inv(),
        ensures
            final(self).inv(),
            final(self).rest().len() <= old(self).rest().len(),
            old(self).rest().len() >= 2 ==> r == Some(be16(old(self).rest().take(2)) as u16)
                && final(self).rest() == old(self).rest().skip(2) && final(self).consumed()
                == old(self).consumed() + 2,
            old(self).rest().len() < 2 ==> r is None,
    {
        match self.take(2) {
            Some(n) => Some(u16_from_be_slice(n)),
            None => None,
        }
    }

    fn parse_u32(&mut self) -> (r: Option<u32>)
        requires
            old(self).inv(),
        ensures
            final(self).inv(),
            final(self).rest().len() <= old(self).rest().len(),
            old(self).rest().len() >= 4 ==> r == Some(be32(old(self).rest().take(4)) as u32)
                && final(self).rest() == old(self).rest().skip(4) && final(self).consumed()
                == old(self).consumed() + 4,
            old(self).rest().len() < 4 ==> r is None,
    {
        match self.take(4) {
            Some(n) => Some(u32_from_be_slice(n)),
            None => None,
        }
    }

    fn parse_time(&mut self) -> (r: Option<IndexTime>)
        requires
            old(self).inv(),
        ensures
            final(self).inv(),
            final(self).rest().len() <= old(self).rest().len(),
            old(self).rest().len() >= 8 ==> r == Some(
                IndexTime {
                    seconds: be32(old(self).rest().take(4)) as u32,
                    nanoseconds: be32(old(self).rest().subrange(4, 8)) as u32,
                },
            ) && final(self).rest() == old(self).rest().skip(8) && final(self).consumed()
                == old(self).consumed() + 8,
            old(self).rest().len() < 8 ==> r is None,
    {
        let seconds = match self.parse_u32() {
            Some(s) => s,
            None => return None,
        };
        let nanoseconds = match self.parse_u32() {
            Some(n) => n,
            None => return None,
        };
        assert(old(self).rest().skip(4).take(4) =~= old(self).rest().subrange(4, 8));
        assert(old(self).rest().skip(4).skip(4) =~= old(self).rest().skip(8));
        Some(IndexTime { seconds, nanoseconds })
    }

    fn parse_object_id(&mut self) -> (r: Option<ObjectId>)
        requires
            old(self).inv(),
        ensures
            final(self).inv(),
            final(self).rest().len() <= old(self).rest().len(),
            old(self).rest().len() >= 20 ==> (r matches Some(id) && id@ == old(self).rest().take(20))
                && final(self).rest() == old(self).rest().skip(20) && final(self).consumed()
                == old(self).consumed() + 20,
            old(self).rest().len() < 20 ==> r is None,
    {
        let hash = match self.take(20) {
            Some(h) => h,
            None => return None,
        };
        match ObjectId::from_bytes(hash) {
            Ok(id) => Some(id),
            Err(_) => None,
        }
    }

    fn parse_path_name_by_len(&mut self, size: usize) -> (r: Option<Vec<u8>>)
        requires
            old(self).inv(),
        ensures
            final(self).inv(),
            final(self).rest().len() <= old(self).rest().len(),
            size <= old(self).rest().len() ==> (r matches Some(p) && p@ == old(self).rest().take(
                size as int,
            )) && final(self).rest() == old(self).rest().skip(size as int)
                && final(self).consumed() == old(self).consumed() + size,
            size > old(self).rest().len() ==> r is None,
    {
        match self.take(size) {
            Some(p) => Some(to_vec(p)),
            None => None,
        }
    }

    fn parse_path_name_until_null(&mut self) -> (r: Option<Vec<u8>>)
        requires
            old(self).inv(),
        ensures
            final(self).inv(),
            final(self).rest().len() <= old(self).rest().len(),
            match find_first(old(self).rest(), 48) {
                Some(i) => (r matches Some(p) && p@ == old(self).rest().take(i))
                    && final(self).rest() == old(self).rest().skip(i) && final(self).consumed()
                    == old(self).consumed() + i,
                None => r is None,
            },
    {
        proof {
            lemma_find_first(self.data@, 48);
        }
        let mut i: usize = 0;
        while i < self.data.len()
            invariant
                i <= self.data@.len(),
                self.data@ == old(self).rest(),
                self.consumed == old(self).consumed(),
                old(self).inv(),
                forall|j: int| 0 <= j < i ==> self.data@[j] != 48,
            decreases self.data@.len() - i,
        {
            if self.data[i] == 48u8 {
                proof {
                    let s = old(self).rest();
                    lemma_find_first(s, 48);
                    match find_first(s, 48) {
                        Some(k) => {
                            if k < i {
                                assert(self.data@[k] != 48);
                            } else if k > i {
                                assert(s.take(k)[i as int] == s[i as int]);
                            }
                        },
                        None => {},
                    }
                }
                return self.parse_path_name_by_len(i);
            }
            i = i + 1;
        }
        proof {
            let s = old(self).rest();
            lemma_find_first(s, 48);
            match find_first(s, 48) {
                Some(k) => {
                    assert(self.data@[k] != 48);
                },
                None => {},
            }
        }
        None
    }

    fn parse_path(&mut self, flags: u16) -> (r: Option<Vec<u8>>)
        requires
            old(self).inv(),
        ensures
            final(self).inv(),
            final(self).rest().len() <= old(self).rest().len(),
            match parse_path_spec(old(self).rest(), flags) {
                Some(p) => (r matches Some(q) && q@ == p) && final(self).rest() == old(self).rest().skip(
                    p.len() as int,
                ) && final(self).consumed() == old(self).consumed() + p.len(),
                None => r is None,
            },
    {
        let path_len = flags & 0xFFF;
        assert(flags & 0xFFF == flags % 4096) by (bit_vector);
        if path_len == 0xFFF {
            let r = self.parse_path_name_until_null();
            proof {
                lemma_find_first(old(self).rest(), 48);
            }
            r
        } else {
            self.parse_path_name_by_len(path_len as usize)
        }
    }

    fn skip_null_byte_and_padding(&mut self) -> (r: Option<()>)
        requires
            old(self).inv(),
        ensures
            final(self).inv(),
            final(self).rest().len() <= old(self).rest().len(),
            old(self).rest().len() >= pad_of(old(self).consumed() + 1) + 1 ==> final(self).rest()
                == old(self).rest().skip(pad_of(old(self).consumed() + 1) + 1) && final(self).consumed()
                == old(self).consumed() + pad_of(old(self).consumed() + 1) + 1,
            old(self).rest().len() < pad_of(old(self).consumed() + 1) + 1 ==> final(self).rest()
                == old(self).rest() && final(self).consumed() == old(self).consumed(),
    {
        let n = align_padding_size(self.consumed + 1);
        match self.take(n + 1) {
            Some(_) => Some(()),
            None => None,
        }
    }

    /// Reads the fixed fields of an entry, with an empty path.
    fn parse_fixed(&mut self) -> (r: Option<IndexEntry>)
        requires
            old(self).inv(),
        ensures
            final(self).inv(),
            final(self).rest().len() <= old(self).rest().len(),
            old(self).rest().len() >= 62 ==> (r matches Some(e) && e@ == fixed_view(
                old(self).rest(),
                Seq::<u8>::empty(),
            )) && final(self).rest() == old(self).rest().skip(62) && final(self).consumed()
                == old(self).consumed() + 62,
            old(self).rest().len() < 62 ==> r is None,
    {
        let ghost s = self.data@;
        let ctime = match self.parse_time() {
            Some(t) => t,
            None => return None,
        };
        let mtime = match self.parse_time() {
            Some(t) => t,
            None => return None,
        };
        let dev = match self.parse_u32() {
            Some(v) => v,
            None => return None,
        };
        let ino = match self.parse_u32() {
            Some(v) => v,
            None => return None,
        };
        let mode = match self.parse_u32() {
            Some(v) => v,
            None => return None,
        };
        let uid = match self.parse_u32() {
            Some(v) => v,
            None => return None,
        };
        let gid = match self.parse_u32() {
            Some(v) => v,
            None => return None,
        };
        let size = match self.parse_u32() {
            Some(v) => v,
            None => return None,
        };
        let id = match self.parse_object_id() {
            Some(v) => v,
            None => return None,
        };
        let flags = match self.parse_u16() {
            Some(v) => v,
            None => return None,
        };
        proof {
            assert(s.skip(8).take(4) =~= s.subrange(8, 12));
            assert(s.skip(8).subrange(4, 8) =~= s.subrange(12, 16));
            assert(s.take(4) =~= s.subrange(0, 4));
            assert(s.skip(16).take(4) =~= s.subrange(16, 20));
            assert(s.skip(20).take(4) =~= s.subrange(20, 24));
            assert(s.skip(24).take(4) =~= s.subrange(24, 28));
            assert(s.skip(28).take(4) =~= s.subrange(28, 32));
            assert(s.skip(32).take(4) =~= s.subrange(32, 36));
            assert(s.skip(36).take(4) =~= s.subrange(36, 40));
            assert(s.skip(40).take(20) =~= s.subrange(40, 60));
            assert(s.skip(60).take(2) =~= s.subrange(60, 62));
            assert(s.skip(8).skip(8) =~= s.skip(16));
            assert(s.skip(16).skip(4) =~= s.skip(20));
            assert(s.skip(20).skip(4) =~= s.skip(24));
            assert(s.skip(24).skip(4) =~= s.skip(28));
            assert(s.skip(28).skip(4) =~= s.skip(32));
            assert(s.skip(32).skip(4) =~= s.skip(36));
            assert(s.skip(36).skip(4) =~= s.skip(40));
            assert(s.skip(40).skip(20) =~= s.skip(60));
            assert(s.skip(60).skip(2) =~= s.skip(62));
        }
        let path: Vec<u8> = Vec::new();
        let e = IndexEntry { mtime, ctime, dev, ino, mode, uid, gid, size, id, flags, path };
        assert(e@ =~= fixed_view(s, Seq::<u8>::empty()));
        Some(e)
    }

    /// Reads one entry and skips its NUL and padding.
    pub fn parse_one_entry(&mut self) -> (r: Option<IndexEntry>)
        requires
            old(self).inv(),
        ensures
            final(self).inv(),
            final(self).rest().len() <= old(self).rest().len(),
            match parse_entry_spec(old(self).rest(), old(self).consumed()) {
                None => r is None,
                Some((e, rest, c)) => (r matches Some(entry) && entry@ == e) && final(self).rest()
                    == rest && final(self).consumed() == c,
            },
    {
        let ghost s = self.data@;
        let mut entry = match self.parse_fixed() {
            Some(e) => e,
            None => return None,
        };
        assert(be16(s.subrange(60, 62)) as u16 == entry.flags);
        let path = match self.parse_path(entry.flags) {
            Some(p) => p,
            None => return None,
        };
        let ghost mid = self.data@;
        let _ = self.skip_null_byte_and_padding();
        entry.path = path;
        proof {
            let p = entry.path@;
            assert(mid =~= s.skip(62).skip(p.len() as int));
            assert(entry@ =~= fixed_view(s, p));
        }
        Some(entry)
    }

    pub fn data(self) -> (r: &'a [u8])
        ensures
            r@ == self.rest(),
    {
        self.data
    }
}


/// The version and the number of entries of an index file.
#[derive(Debug, Clone, Copy)]
struct IndexHeader {
    version: u32,
    number_of_entries: u32,
}

/// Whether the first character of an extension's signature is an uppercase letter.
fn is_extension_ignorable(signature: &[u8]) -> (r: bool)
    requires
        signature@.len() == 4,
    ensures
        r == (65 <= signature@[0] <= 90),
{
    65u8 <= signature[0] && signature[0] <= 90u8
}

impl Index {
    /// Whether the paths strictly increase.
    pub fn is_entries_sorted(&self) -> (r: bool)
        ensures
            r == sorted_paths(self@),
    {
        let ghost es = self@;
        let mut i: usize = 1;
        if self.entries.len() == 0 {
            return true;
        }
        while i < self.entries.len()
            invariant
                1 <= i <= self.entries@.len(),
                es == self@,
                forall|a: int, b: int| 0 <= a < b < i ==> seq_lt(#[trigger] es[a].10, #[trigger] es[b].10),
            decreases self.entries@.len() - i,
        {
            let c = compare_bytes(self.entries[i - 1].path.as_slice(), self.entries[i].path.as_slice());
            assert(es[i - 1].10 == self.entries@[i - 1].path@ && es[i as int].10 == self.entries@[i as int].path@);
            if c >= 0 {
                return false;
            }
            assert forall|a: int, b: int| 0 <= a < b < i + 1 implies seq_lt(#[trigger] es[a].10, #[trigger] es[b].10) by {
                if b == i && a < i - 1 {
                    lemma_seq_lt_transitive(es[a].10, es[i - 1].10, es[b].10);
                }
            }
            i = i + 1;
        }
        true
    }
}

/// Reads an index file.
pub struct IndexParser<'a> {
    data: &'a [u8],
}

impl<'a> View for IndexParser<'a> {
    type V = Seq<u8>;

    closed spec fn view(&self) -> Seq<u8> {
        self.data@
    }
}

impl<'a> IndexParser<'a> {
    pub fn new(data: &'a [u8]) -> (r: Self)
        ensures
            r@ == data@,
    {
        Self { data }
    }

    /// Reads the whole file: checksum, header, entries, extensions.
    pub fn parse_index(&mut self) -> (r: Result<Index, ParsingError>)
        requires
            old(self)@.len() < usize::MAX,
        ensures
            match parse_index_spec(old(self)@) {
                Ok((v, es)) => r matches Ok(index) && index@ == es && index.version() == v
                    && index.wf(),
                Err(k) => r matches Err(e) && error_is(e, k),
            },
    {
        if self.data.len() < 32 {
            return Err(ParsingError::TooShort);
        }
        let ghost all = self.data@;
        match self.validate_checksum() {
            Ok(()) => {},
            Err(e) => return Err(e),
        }
        let ghost d = self.data@;
        let header = match self.parse_header() {
            Ok(h) => h,
            Err(e) => return Err(e),
        };
        if header.version != 2 {
            return Err(ParsingError::UnsupportedVersion(header.version));
        }
        assert(self.data@ == d.skip(12));
        let entries = match self.parse_entries(header.number_of_entries) {
            Ok(es) => es,
            Err(e) => return Err(e),
        };
        match self.parse_extensions() {
            Ok(()) => {},
            Err(e) => return Err(e),
        }
        let index = Index { entries, version: header.version };
        if !index.is_entries_sorted() {
            return Err(ParsingError::WrongEntriesOrder);
        }
        Ok(index)
    }

    fn validate_checksum(&mut self) -> (r: Result<(), ParsingError>)
        requires
            old(self)@.len() >= 20,
        ensures
            sha1_digest(old(self)@.take(old(self)@.len() - 20)) == old(self)@.skip(old(self)@.len() - 20)
                ==> r is Ok && final(self)@ == old(self)@.take(old(self)@.len() - 20),
            sha1_digest(old(self)@.take(old(self)@.len() - 20)) != old(self)@.skip(old(self)@.len() - 20)
                ==> r matches Err(ParsingError::InvalidCheckSum),
    {
        let (data, checksum) = self.data.split_at(self.data.len() - 20);
        let mut hasher = Sha1Hasher::new();
        hasher.update(data);
        let digest = hasher.finalize();
        assert(Seq::<u8>::empty() + data@ =~= data@);
        assert(data@ =~= old(self)@.take(old(self)@.len() - 20));
        assert(checksum@ =~= old(self)@.skip(old(self)@.len() - 20));
        if !crate::bytes::bytes_eq(digest.as_bytes(), checksum) {
            return Err(ParsingError::InvalidCheckSum);
        }
        self.data = data;
        Ok(())
    }

    fn parse_entries(&mut self, number_of_entries: u32) -> (r: Result<Vec<IndexEntry>, ParsingError>)
        requires
            old(self)@.len() < usize::MAX,
        ensures
            match parse_entries_spec(old(self)@, 0, number_of_entries as nat, 0) {
                Ok((es, rest)) => (r matches Ok(v) && index_entries_view(v@) == es) && final(self)@
                    == rest,
                Err(i) => r matches Err(ParsingError::EntryParseFail(j)) && j == i,
            },
    {
        let mut entries: Vec<IndexEntry> = Vec::new();
        let mut parser = EntryParser::new(self.data);
        let ghost s0 = self.data@;
        let mut i: u32 = 0;
        while i < number_of_entries
            invariant
                i <= number_of_entries,
                s0 == old(self)@,
                parser.inv(),
                parse_entries_spec(s0, 0, number_of_entries as nat, 0) == match parse_entries_spec(
                    parser.rest(),
                    parser.consumed(),
                    (number_of_entries - i) as nat,
                    i as nat,
                ) {
                    Ok((es, rest)) => Ok((index_entries_view(entries@) + es, rest)),
                    Err(k) => Err(k),
                },
            decreases number_of_entries - i,
        {
            let ghost before = parser.rest();
            let ghost c0 = parser.consumed();
            let ghost prev = index_entries_view(entries@);
            let entry = match parser.parse_one_entry() {
                Some(e) => e,
                None => {
                    assert(parse_entries_spec(before, c0, (number_of_entries - i) as nat, i as nat)
                        == Err::<(Seq<IndexEntryV>, Seq<u8>), nat>(i as nat));
                    return Err(ParsingError::EntryParseFail(i));
                },
            };
            entries.push(entry);
            proof {
                assert(index_entries_view(entries@) =~= prev.push(entry@));
                match parse_entries_spec(parser.rest(), parser.consumed(), (number_of_entries - i - 1) as nat, (i + 1) as nat) {
                    Ok((es, rest)) => {
                        assert(prev + (seq![entry@] + es) =~= index_entries_view(entries@) + es);
                    },
                    Err(k) => {},
                }
            }
            i = i + 1;
        }
        assert(index_entries_view(entries@) + Seq::<IndexEntryV>::empty() =~= index_entries_view(entries@));
        self.data = parser.data();
        Ok(entries)
    }

    fn parse_header(&mut self) -> (r: Result<IndexHeader, ParsingError>)
        requires
            old(self)@.len() >= 12,
        ensures
            old(self)@.take(4) != dirc() ==> r matches Err(ParsingError::InvalidSignature),
            old(self)@.take(4) == dirc() ==> (r matches Ok(h) && h.version == be32(
                old(self)@.subrange(4, 8),
            ) && h.number_of_entries == be32(old(self)@.subrange(8, 12))) && final(self)@ == old(
                self,
            )@.skip(12),
    {
        let data = self.data;
        let signature = &data[0..4];
        let sig: &[u8] = &[68u8, 73, 82, 67];
        assert(sig@ =~= dirc());
        assert(signature@ =~= old(self)@.take(4));
        if !crate::bytes::bytes_eq(signature, sig) {
            return Err(ParsingError::InvalidSignature);
        }
        let version = u32_from_be_slice(&data[4..8]);
        let number_of_entries = u32_from_be_slice(&data[8..12]);
        assert(data@.subrange(4, 8) =~= old(self)@.subrange(4, 8));
        self.data = &data[12..data.len()];
        assert(self.data@ =~= old(self)@.skip(12));
        Ok(IndexHeader { version, number_of_entries })
    }

    fn parse_extensions(&mut self) -> (r: Result<(), ParsingError>)
        ensures
            match parse_extensions_spec(old(self)@) {
                Ok(_) => r is Ok,
                Err(k) => r matches Err(e) && error_is(e, k),
            },
    {
        loop
            invariant
                parse_extensions_spec(old(self)@) == parse_extensions_spec(self.data@),
            decreases self.data@.len(),
        {
            if self.data.len() == 0 {
                return Ok(());
            }
            if self.data.len() < 4 {
                return Err(ParsingError::TooShort);
            }
            let signature = &self.data[0..4];
            if !is_extension_ignorable(signature) && !self.is_extension_supported(signature) {
                let name = match string_from_utf8(to_vec(signature)) {
                    Some(s) => s,
                    None => "unknown".to_owned(),
                };
                proof {
                    reveal_strlit("unknown");
                    assert("unknown"@ =~= seq!['u', 'n', 'k', 'n', 'o', 'w', 'n']);
                    assert(signature@ =~= seq![self.data@[0], self.data@[1], self.data@[2], self.data@[3]]);
                }
                return Err(ParsingError::UnsupportedExtension(name));
            }
            if self.data.len() < 8 {
                return Err(ParsingError::TooShort);
            }
            let size = u32_from_be_slice(&self.data[4..8]);
            assert(self.data@.subrange(4, 8) =~= self.data@.subrange(4, 8));
            let rest = &self.data[8..self.data.len()];
            if size as usize > rest.len() {
                return Err(ParsingError::TooShort);
            }
            let ghost before = self.data@;
            self.data = &rest[size as usize..rest.len()];
            assert(self.data@ =~= before.skip(8).skip(size as int));
        }
    }

    fn is_extension_supported(&self, signature: &[u8]) -> (r: bool)
        ensures
            !r,
    {
        false
    }
}


/// `n` zero bytes.
#[verifier::opaque]
pub open spec fn zeros(n: int) -> Seq<u8> {
    Seq::new(n as nat, |i: int| 0u8)
}

/// How the writer lays out one entry: ctime, mtime, the six numbers, the object, the flags,
/// the path, a NUL, and zeros up to a multiple of eight bytes.
#[verifier::opaque]
pub open spec fn entry_bytes_spec(e: IndexEntryV) -> Seq<u8> {
    u32_be(e.1.seconds) + u32_be(e.1.nanoseconds) + u32_be(e.0.seconds) + u32_be(e.0.nanoseconds)
        + u32_be(e.2) + u32_be(e.3) + u32_be(e.4) + u32_be(e.5) + u32_be(e.6) + u32_be(e.7) + e.8
        + u16_be(e.9) + e.10 + seq![0u8] + zeros(pad_of(63 + e.10.len() as int))
}

/// The entries one after the other.
pub open spec fn entries_bytes(es: Seq<IndexEntryV>) -> Seq<u8>
    decreases es.len(),
{
    if es.len() == 0 {
        seq![]
    } else {
        entry_bytes_spec(es[0]) + entries_bytes(es.drop_first())
    }
}

/// An index file without its checksum: signature, version, number of entries, entries.
pub open spec fn index_body(version: u32, es: Seq<IndexEntryV>) -> Seq<u8> {
    dirc() + u32_be(version) + u32_be(es.len() as u32) + entries_bytes(es)
}

proof fn lemma_entries_bytes_push(es: Seq<IndexEntryV>, i: int)
    requires
        0 <= i < es.len(),
    ensures
        entries_bytes(es.take(i + 1)) == entries_bytes(es.take(i)) + entry_bytes_spec(es[i]),
    decreases i,
{
    if i == 0 {
        assert(es.take(1).drop_first() =~= Seq::<IndexEntryV>::empty());
        assert(es.take(1)[0] == es[0]);
        assert(entries_bytes(es.take(1).drop_first()) == Seq::<u8>::empty());
        assert(entries_bytes(es.take(0)) == Seq::<u8>::empty());
        assert(entries_bytes(es.take(1)) =~= entries_bytes(es.take(0)) + entry_bytes_spec(es[i]));
    } else {
        let t = es.drop_first();
        lemma_entries_bytes_push(t, i - 1);
        assert(es.take(i + 1).drop_first() =~= t.take(i));
        assert(es.take(i).drop_first() =~= t.take(i - 1));
        assert(es.take(i + 1)[0] == es[0] && es.take(i)[0] == es[0]);
        assert(t[i - 1] == es[i]);
        assert(entries_bytes(es.take(i + 1)) =~= entries_bytes(es.take(i)) + entry_bytes_spec(es[i]));
    }
}

/// Writes an index file, hashing what it writes.
pub struct IndexWriter {
    buffer: Vec<u8>,
    hasher: Sha1Hasher,
    written: usize,
}

impl View for IndexWriter {
    /// What was written, and what was hashed since the last checksum.
    type V = (Seq<u8>, Seq<u8>);

    closed spec fn view(&self) -> (Seq<u8>, Seq<u8>) {
        (self.buffer@, self.hasher@)
    }
}

impl IndexWriter {
    /// The bytes of the entry being written so far.
    pub closed spec fn written(&self) -> int {
        self.written as int
    }

    pub fn new() -> (r: Self)
        ensures
            r@ == (Seq::<u8>::empty(), Seq::<u8>::empty()),
            r.written() == 0,
    {
        Self { buffer: Vec::new(), hasher: Sha1Hasher::new(), written: 0 }
    }

    /// What was written.
    pub fn into_bytes(self) -> (r: Vec<u8>)
        ensures
            r@ == self@.0,
    {
        self.buffer
    }

    fn write_all(&mut self, buf: &[u8])
        ensures
            final(self)@ == (old(self)@.0 + buf@, old(self)@.1 + buf@),
            final(self).written() == old(self).written(),
    {
        push_all(&mut self.buffer, buf);
        self.hasher.update(buf);
    }

    /// Writes a whole index and its checksum.
    pub fn write_index(&mut self, index: &Index)
        requires
            old(self).written() == 0,
            forall|i: int| 0 <= i < index@.len() ==> (#[trigger] index@[i]).10.len() + 64 <= usize::MAX,
        ensures
            final(self)@.0 == old(self)@.0 + index_body(index.version(), index@) + sha1_digest(
                old(self)@.1 + index_body(index.version(), index@),
            ),
            final(self)@.1 == sha1_digest(old(self)@.1 + index_body(index.version(), index@)),
            final(self).written() == 0,
    {
        let ghost b0 = self@.0;
        let ghost h0 = self@.1;
        self.write_index_header(IndexHeader {
            version: index.version,
            number_of_entries: index.entries.len() as u32,
        });
        let ghost es = index@;
        let ghost head = dirc() + u32_be(index.version) + u32_be(index.entries@.len() as u32);
        assert(es.take(0) =~= Seq::<IndexEntryV>::empty());
        assert(head + entries_bytes(es.take(0)) =~= head);
        let mut i: usize = 0;
        while i < index.entries.len()
            invariant
                i <= index.entries@.len(),
                es == index@,
                self.written() == 0,
                forall|k: int| 0 <= k < es.len() ==> (#[trigger] es[k]).10.len() + 64 <= usize::MAX,
                self@.0 == b0 + head + entries_bytes(es.take(i as int)),
                self@.1 == h0 + head + entries_bytes(es.take(i as int)),
            decreases index.entries@.len() - i,
        {
            proof {
                lemma_entries_bytes_push(es, i as int);
            }
            assert(es[i as int] == index.entries@[i as int]@);
            self.write_one_entry(&index.entries[i]);
            assert(self@.0 =~= b0 + head + entries_bytes(es.take(i + 1)));
            assert(self@.1 =~= h0 + head + entries_bytes(es.take(i + 1)));
            i = i + 1;
        }
        assert(es.take(index.entries@.len() as int) =~= es);
        assert(head + entries_bytes(es) =~= index_body(index.version(), index@));
        assert(b0 + head + entries_bytes(es) =~= b0 + index_body(index.version(), index@));
        assert(h0 + head + entries_bytes(es) =~= h0 + index_body(index.version(), index@));
        let checksum = self.checksum();
        self.write_all(checksum.as_bytes());
        assert(self@.0 =~= b0 + index_body(index.version(), index@) + sha1_digest(
            h0 + index_body(index.version(), index@),
        ));
        assert(self@.1 =~= sha1_digest(h0 + index_body(index.version(), index@)));
    }

    fn write_index_header(&mut self, header: IndexHeader)
        ensures
            final(self)@.0 == old(self)@.0 + dirc() + u32_be(header.version) + u32_be(
                header.number_of_entries,
            ),
            final(self)@.1 == old(self)@.1 + dirc() + u32_be(header.version) + u32_be(
                header.number_of_entries,
            ),
            final(self).written() == old(self).written(),
    {
        let sig: &[u8] = &[68u8, 73, 82, 67];
        assert(sig@ =~= dirc());
        self.write_all(sig);
        let v = u32_to_be_bytes(header.version);
        self.write_all(v.as_slice());
        let n = u32_to_be_bytes(header.number_of_entries);
        self.write_all(n.as_slice());
    }

    #[verifier::spinoff_prover]
    fn write_one_entry(&mut self, entry: &IndexEntry)
        requires
            old(self).written() == 0,
            entry.path@.len() + 64 <= usize::MAX,
        ensures
            final(self)@.0 == old(self)@.0 + entry_bytes_spec(entry@),
            final(self)@.1 == old(self)@.1 + entry_bytes_spec(entry@),
            final(self).written() == 0,
    {
        self.write_time(entry.ctime);
        self.write_time(entry.mtime);
        self.write_u32(entry.dev);
        self.write_u32(entry.ino);
        self.write_u32(entry.mode);
        self.write_u32(entry.uid);
        self.write_u32(entry.gid);
        self.write_u32(entry.size);
        self.write_object_id(&entry.id);
        self.write_u16(entry.flags);
        self.write_path(entry.path.as_slice());
        let padding = [0u8; 8];
        let n = align_padding_size(self.written);
        let z = &padding.as_slice()[0..n];
        reveal(zeros);
        assert(z@ =~= zeros(pad_of(63 + entry.path@.len() as int)));
        self.write_all(z);
        self.written = 0;
        reveal(entry_bytes_spec);
        assert(self@.0 =~= old(self)@.0 + entry_bytes_spec(entry@));
        assert(self@.1 =~= old(self)@.1 + entry_bytes_spec(entry@));
    }

    fn write_time(&mut self, time: IndexTime)
        requires
            old(self).written() + 8 <= usize::MAX,
        ensures
            final(self)@.0 == old(self)@.0 + u32_be(time.seconds) + u32_be(time.nanoseconds),
            final(self)@.1 == old(self)@.1 + u32_be(time.seconds) + u32_be(time.nanoseconds),
            final(self).written() == old(self).written() + 8,
    {
        self.write_u32(time.seconds);
        self.write_u32(time.nanoseconds);
    }

    fn write_u16(&mut self, n: u16)
        requires
            old(self).written() + 2 <= usize::MAX,
        ensures
            final(self)@.0 == old(self)@.0 + u16_be(n),
            final(self)@.1 == old(self)@.1 + u16_be(n),
            final(self).written() == old(self).written() + 2,
    {
        let bytes = [(n / 256) as u8, (n % 256) as u8];
        assert(bytes@ =~= u16_be(n));
        self.write_all(bytes.as_slice());
        self.written = self.written + 2;
    }

    fn write_u32(&mut self, n: u32)
        requires
            old(self).written() + 4 <= usize::MAX,
        ensures
            final(self)@.0 == old(self)@.0 + u32_be(n),
            final(self)@.1 == old(self)@.1 + u32_be(n),
            final(self).written() == old(self).written() + 4,
    {
        let bytes = u32_to_be_bytes(n);
        self.write_all(bytes.as_slice());
        self.written = self.written + 4;
    }

    fn write_object_id(&mut self, hash: &ObjectId)
        requires
            old(self).written() + 20 <= usize::MAX,
        ensures
            final(self)@.0 == old(self)@.0 + hash@,
            final(self)@.1 == old(self)@.1 + hash@,
            final(self).written() == old(self).written() + 20,
    {
        proof {
            hash.lemma_len();
        }
        let h = hash.as_bytes();
        self.write_all(h);
        self.written = self.written + h.len();
    }

    fn write_path(&mut self, path: &[u8])
        requires
            old(self).written() + path@.len() + 1 <= usize::MAX,
        ensures
            final(self)@.0 == old(self)@.0 + path@ + seq![0u8],
            final(self)@.1 == old(self)@.1 + path@ + seq![0u8],
            final(self).written() == old(self).written() + path@.len() + 1,
    {
        self.write_all(path);
        let nul: &[u8] = &[0u8];
        self.write_all(nul);
        self.written = self.written + path.len() + 1;
    }

    fn checksum(&mut self) -> (r: Sha1)
        ensures
            r@ == sha1_digest(old(self)@.1),
            final(self)@ == (old(self)@.0, Seq::<u8>::empty()),
            final(self).written() == old(self).written(),
    {
        self.hasher.finalize_reset()
    }
}

/// `n.to_be_bytes()`.
fn u32_to_be_bytes(n: u32) -> (r: [u8; 4])
    ensures
        r@ == u32_be(n),
{
    let r = [(n / 16777216) as u8, ((n / 65536) % 256) as u8, ((n / 256) % 256) as u8, (n % 256) as u8];
    assert(r@ =~= u32_be(n));
    r
}


/// The 62 bytes of fixed fields that open an entry.
pub open spec fn fixed_part(e: IndexEntryV) -> Seq<u8> {
    u32_be(e.1.seconds) + u32_be(e.1.nanoseconds) + u32_be(e.0.seconds) + u32_be(e.0.nanoseconds)
        + u32_be(e.2) + u32_be(e.3) + u32_be(e.4) + u32_be(e.5) + u32_be(e.6) + u32_be(e.7) + e.8
        + u16_be(e.9)
}

/// An entry that the writer lays out and the reader reads back: its object is named by 20
/// bytes and its flags hold the length of its path, which is below the largest length.
pub open spec fn entry_reads_back(e: IndexEntryV) -> bool {
    &&& e.8.len() == 20
    &&& e.9 % 4096 == e.10.len()
    &&& e.10.len() < 4095
}

#[verifier::rlimit(100)]
#[verifier::spinoff_prover]
proof fn lemma_fixed_part(e: IndexEntryV, tail: Seq<u8>)
    requires
        e.8.len() == 20,
    ensures
        fixed_part(e).len() == 62,
        fixed_view(fixed_part(e) + tail, e.10) == e,
        be16((fixed_part(e) + tail).subrange(60, 62)) == e.9,
{
    lemma_be32(e.1.seconds);
    lemma_be32(e.1.nanoseconds);
    lemma_be32(e.0.seconds);
    lemma_be32(e.0.nanoseconds);
    lemma_be32(e.2);
    lemma_be32(e.3);
    lemma_be32(e.4);
    lemma_be32(e.5);
    lemma_be32(e.6);
    lemma_be32(e.7);
    lemma_be16(e.9);
    let s = fixed_part(e) + tail;
    assert(s.subrange(0, 4) =~= u32_be(e.1.seconds));
    assert(s.subrange(4, 8) =~= u32_be(e.1.nanoseconds));
    assert(s.subrange(8, 12) =~= u32_be(e.0.seconds));
    assert(s.subrange(12, 16) =~= u32_be(e.0.nanoseconds));
    assert(s.subrange(16, 20) =~= u32_be(e.2));
    assert(s.subrange(20, 24) =~= u32_be(e.3));
    assert(s.subrange(24, 28) =~= u32_be(e.4));
    assert(s.subrange(28, 32) =~= u32_be(e.5));
    assert(s.subrange(32, 36) =~= u32_be(e.6));
    assert(s.subrange(36, 40) =~= u32_be(e.7));
    assert(s.subrange(40, 60) =~= e.8);
    assert(s.subrange(60, 62) =~= u16_be(e.9));
    assert(field32(s, 0) == e.1.seconds);
    assert(field32(s, 1) == e.1.nanoseconds);
    assert(field32(s, 2) == e.0.seconds);
    assert(field32(s, 3) == e.0.nanoseconds);
    assert(field32(s, 4) == e.2);
    assert(field32(s, 5) == e.3);
    assert(field32(s, 6) == e.4);
    assert(field32(s, 7) == e.5);
    assert(field32(s, 8) == e.6);
    assert(field32(s, 9) == e.7);
}

proof fn lemma_pad_shift(c: int, x: int)
    requires
        c % 8 == 0,
        c >= 0,
        x >= 0,
    ensures
        pad_of(c + x) == pad_of(x),
        (x + pad_of(x)) % 8 == 0,
{
    assert((c + x) % 8 == x % 8) by (nonlinear_arith)
        requires
            c % 8 == 0,
            c >= 0,
            x >= 0,
    ;
}

proof fn lemma_entry_bytes_parts(e: IndexEntryV)
    ensures
        entry_bytes_spec(e) == fixed_part(e) + e.10 + seq![0u8] + zeros(
            pad_of(63 + e.10.len() as int),
        ),
{
    reveal(entry_bytes_spec);
    assert(entry_bytes_spec(e) =~= fixed_part(e) + e.10 + seq![0u8] + zeros(
        pad_of(63 + e.10.len() as int),
    ));
}

proof fn lemma_zeros_len(n: int)
    requires
        n >= 0,
    ensures
        zeros(n).len() == n,
{
    reveal(zeros);
}

/// Where the parts of a written entry lie.
#[verifier::rlimit(100)]
#[verifier::spinoff_prover]
proof fn lemma_entry_layout(e: IndexEntryV, tail: Seq<u8>)
    requires
        entry_reads_back(e),
    ensures
        ({
            let p = pad_of(63 + e.10.len() as int);
            let s = entry_bytes_spec(e) + tail;
            let after = s.skip(62);
            let r2 = after.skip(e.10.len() as int);
            &&& s.len() >= 62
            &&& s == fixed_part(e) + after
            &&& after.take(e.10.len() as int) == e.10
            &&& e.10.len() <= after.len()
            &&& r2.len() >= p + 1
            &&& r2.skip(p + 1) == tail
            &&& entry_bytes_spec(e).len() == 63 + e.10.len() + p
        }),
{
    let p = pad_of(63 + e.10.len() as int);
    let z = zeros(p);
    lemma_zeros_len(p);
    lemma_entry_bytes_parts(e);
    lemma_fixed_part(e, tail);
    let after = e.10 + seq![0u8] + z + tail;
    let s = entry_bytes_spec(e) + tail;
    assert(s =~= fixed_part(e) + after);
    assert(s.skip(62) =~= after);
    assert(after.take(e.10.len() as int) =~= e.10);
    let r2 = after.skip(e.10.len() as int);
    assert(r2 =~= seq![0u8] + z + tail);
    assert(r2.skip(p + 1) =~= tail);
}

/// One entry that the writer laid out reads back, and the bytes consumed stay a multiple of
/// eight.
#[verifier::rlimit(100)]
#[verifier::spinoff_prover]
proof fn lemma_entry_parse(e: IndexEntryV, tail: Seq<u8>, c: int)
    requires
        entry_reads_back(e),
        c % 8 == 0,
        c >= 0,
    ensures
        parse_entry_spec(entry_bytes_spec(e) + tail, c) == Some(
            (e, tail, c + entry_bytes_spec(e).len()),
        ),
        (c + entry_bytes_spec(e).len()) % 8 == 0,
{
    let p = pad_of(63 + e.10.len() as int);
    let s = entry_bytes_spec(e) + tail;
    let after = s.skip(62);
    lemma_entry_layout(e, tail);
    lemma_fixed_part(e, after);
    lemma_pad_shift(c, 63 + e.10.len() as int);
    assert(c + 62 + e.10.len() + 1 == c + (63 + e.10.len()));
    let flags = be16(s.subrange(60, 62)) as u16;
    assert(flags == e.9);
    assert(parse_path_spec(s.skip(62), flags) == Some(e.10));
    assert(pad_of(c + 62 + e.10.len() + 1) == p);
    assert(fixed_view(s, e.10) == e);
}

/// Entries that the writer laid out read back.
#[verifier::rlimit(60)]
#[verifier::spinoff_prover]
proof fn lemma_entries_parse(es: Seq<IndexEntryV>, tail: Seq<u8>, c: int, k: nat)
    requires
        forall|i: int| 0 <= i < es.len() ==> entry_reads_back(#[trigger] es[i]),
        c % 8 == 0,
        c >= 0,
    ensures
        parse_entries_spec(entries_bytes(es) + tail, c, es.len(), k) == Ok::<
            (Seq<IndexEntryV>, Seq<u8>),
            nat,
        >((es, tail)),
    decreases es.len(),
{
    if es.len() == 0 {
        assert(entries_bytes(es) + tail =~= tail);
        assert(es =~= Seq::<IndexEntryV>::empty());
    } else {
        let t = es.drop_first();
        let rest = entries_bytes(t) + tail;
        assert(entry_reads_back(es[0]));
        lemma_entry_parse(es[0], rest, c);
        assert(entries_bytes(es) + tail =~= entry_bytes_spec(es[0]) + rest);
        assert forall|i: int| 0 <= i < t.len() implies entry_reads_back(#[trigger] t[i]) by {
            assert(t[i] == es[i + 1]);
        }
        lemma_entries_parse(t, tail, c + entry_bytes_spec(es[0]).len(), k + 1);
        assert(seq![es[0]] + t =~= es);
        assert((es.len() - 1) as nat == t.len());
    }
}

/// Reading back an index file that the writer wrote gives its entries, when the index is at
/// version 2, its paths strictly increase, it holds fewer than 2^32 entries, and each entry
/// reads back. The checksum is the 20-byte digest of what precedes it.
#[verifier::rlimit(60)]
#[verifier::spinoff_prover]
pub proof fn lemma_index_roundtrip(es: Seq<IndexEntryV>)
    requires
        sorted_paths(es),
        es.len() < 0x1_0000_0000,
        forall|i: int| 0 <= i < es.len() ==> entry_reads_back(#[trigger] es[i]),
        sha1_digest(index_body(2, es)).len() == 20,
    ensures
        parse_index_spec(index_body(2, es) + sha1_digest(index_body(2, es))) == Ok::<
            (u32, Seq<IndexEntryV>),
            ParsingErrorKind,
        >((2u32, es)),
{
    let body = index_body(2, es);
    let data = body + sha1_digest(body);
    lemma_be32(2);
    lemma_be32(es.len() as u32);
    assert(data.take(data.len() - 20) =~= body);
    assert(data.skip(data.len() - 20) =~= sha1_digest(body));
    assert(body.take(4) =~= dirc());
    assert(body.subrange(4, 8) =~= u32_be(2));
    assert(body.subrange(8, 12) =~= u32_be(es.len() as u32));
    assert(body.skip(12) =~= entries_bytes(es) + Seq::<u8>::empty());
    lemma_entries_parse(es, Seq::<u8>::empty(), 0, 0);
    assert(data.len() >= 32);
}


/// What `stat` says of a file, as the index records it.
#[derive(Debug, Clone, Copy)]
pub struct FileStat {
    pub mtime: i64,
    pub mtime_nsec: i64,
    pub ctime: i64,
    pub ctime_nsec: i64,
    pub dev: u64,
    pub ino: u64,
    pub mode: u32,
    pub uid: u32,
    pub gid: u32,
    pub size: u64,
    pub is_file: bool,
    pub is_symlink: bool,
}

/// The mode the index gives a file: executable or not for a regular file, link for a symbolic
/// link.
pub open spec fn index_mode(stat: FileStat) -> u32 {
    if stat.is_file {
        if stat.mode & 0o100 != 0 {
            crate::GIT_MODE_BLOB_EXECUTABLE
        } else {
            crate::GIT_MODE_BLOB
        }
    } else {
        crate::GIT_MODE_LINK
    }
}

/// The mode the index gives a regular file or a symbolic link.
pub fn stat_mode_to_index_mode(stat: &FileStat) -> (r: u32)
    requires
        stat.is_file || stat.is_symlink,
    ensures
        r == index_mode(*stat),
{
    if stat.is_file {
        if stat.mode & 0o100 != 0 {
            crate::GIT_MODE_BLOB_EXECUTABLE
        } else {
            crate::GIT_MODE_BLOB
        }
    } else {
        crate::GIT_MODE_LINK
    }
}

/// The entry for a file at `path` with this `stat` and object: times and numbers cut to 32
/// bits, and the path length in the flags, or 0xFFF for a longer path.
pub fn create_index_entry(path: &[u8], stat: &FileStat, id: ObjectId) -> (r: IndexEntry)
    requires
        stat.is_file || stat.is_symlink,
    ensures
        r.mtime == (IndexTime { seconds: stat.mtime as u32, nanoseconds: stat.mtime_nsec as u32 }),
        r.ctime == (IndexTime { seconds: stat.ctime as u32, nanoseconds: stat.ctime_nsec as u32 }),
        r.dev == stat.dev as u32,
        r.ino == stat.ino as u32,
        r.uid == stat.uid,
        r.gid == stat.gid,
        r.size == stat.size as u32,
        r.mode == index_mode(*stat),
        r.id == id,
        r.path@ == path@,
        r.flags == (if path@.len() < 0xFFF { path@.len() as u16 } else { 0xFFFu16 }),
{
    let mtime = IndexTime { seconds: stat.mtime as u32, nanoseconds: stat.mtime_nsec as u32 };
    let ctime = IndexTime { seconds: stat.ctime as u32, nanoseconds: stat.ctime_nsec as u32 };
    let dev = stat.dev as u32;
    let ino = stat.ino as u32;
    let uid = stat.uid;
    let gid = stat.gid;
    let size = stat.size as u32;
    let mode = stat_mode_to_index_mode(stat);
    let path = to_vec(path);
    let path_len = path.len();
    let flags: u16 = if path_len < 0xFFF {
        path_len as u16
    } else {
        0xFFF
    };
    IndexEntry { mtime, ctime, dev, ino, mode, uid, gid, size, id, flags, path }
}


/// Why the index file could not be opened.
#[derive(Debug)]
pub enum OpenIndexError {
    FileNotFound(std::io::Error),
    ParseFailed(ParsingError),
    ReadFileFailed(std::io::Error),
}

/// Why a file could not be added to the index.
#[derive(Debug)]
pub enum UpdateIndexError {
    StatFailed(std::io::Error),
    NotRegularFile,
    FileNotFound(std::io::Error),
    WriteObjectFailed(crate::object_db::Error),
}

} // verus!
