use vstd::prelude::*;
use vstd::string::*;

use crate::binary::{
    digits_of, is_digit_of, lacks, lemma_digits_of, lemma_parse_digits_of,
    lemma_split_until_concat, parse_uint, parse_uint_spec, push_uint, split_until_spec,
    BinaryReader,
};
use crate::binary::{find_byte, find_first, lemma_find_first};
use crate::bytes::{bytes_eq, push_all, to_vec};
use crate::index::{Index, IndexEntryV};
use crate::object_db::{hash_buffer, object_name, Error as OdbError, IOdb, Object, ObjectV};
use crate::object_id::ObjectId;
use crate::object_type::ObjectType;

verus! {

/// One name in a directory: its mode, its name and the object it names.
#[derive(Debug, PartialEq, Clone)]
pub struct TreeEntry {
    pub mode: u32,
    pub filename: Vec<u8>,
    pub id: ObjectId,
}

/// A directory: its entries in order.
#[derive(Debug, PartialEq, Clone)]
pub struct Tree {
    pub entries: Vec<TreeEntry>,
}

/// An entry as its mode, its name and its object.
pub type TreeEntryV = (u32, Seq<u8>, Seq<u8>);

impl View for TreeEntry {
    type V = TreeEntryV;

    open spec fn view(&self) -> TreeEntryV {
        (self.mode, self.filename@, self.id@)
    }
}

pub open spec fn entries_view(es: Seq<TreeEntry>) -> Seq<TreeEntryV> {
    es.map_values(|e: TreeEntry| e@)
}

impl View for Tree {
    type V = Seq<TreeEntryV>;

    open spec fn view(&self) -> Seq<TreeEntryV> {
        entries_view(self.entries@)
    }
}

impl Tree {
    /// A copy with the same entries.
    pub fn duplicate(&self) -> (r: Tree)
        ensures
            r@ == self@,
    {
        let mut entries: Vec<TreeEntry> = Vec::new();
        let mut i: usize = 0;
        while i < self.entries.len()
            invariant
                i <= self.entries@.len(),
                entries@.len() == i,
                forall|k: int| 0 <= k < i ==> (#[trigger] entries@[k])@ == self.entries@[k]@,
            decreases self.entries@.len() - i,
        {
            let e = &self.entries[i];
            entries.push(TreeEntry { mode: e.mode, filename: to_vec(e.filename.as_slice()), id: e.id });
            i = i + 1;
        }
        let r = Tree { entries };
        assert(r@ =~= self@);
        r
    }
}

/// `mode name\0id`: the mode in octal, the name, a NUL and the 20 bytes of the name.
pub open spec fn entry_bytes(e: TreeEntryV) -> Seq<u8> {
    digits_of(e.0 as nat, 8) + seq![32u8] + e.1 + seq![0u8] + e.2
}

/// The text of a tree object: its entries one after the other.
pub open spec fn tree_bytes(es: Seq<TreeEntryV>) -> Seq<u8>
    decreases es.len(),
{
    if es.len() == 0 {
        seq![]
    } else {
        entry_bytes(es[0]) + tree_bytes(es.drop_first())
    }
}

/// One entry at the front of `s`, and what follows it.
pub open spec fn parse_entry(s: Seq<u8>) -> Option<(TreeEntryV, Seq<u8>)> {
    match split_until_spec(s, 32) {
        None => None,
        Some((l, r)) => match parse_uint_spec(l, 8) {
            None => None,
            Some(mode) => if mode > u32::MAX {
                None
            } else {
                match split_until_spec(r, 0) {
                    None => None,
                    Some((name, r2)) => if r2.len() < 20 {
                        None
                    } else {
                        Some(((mode as u32, name, r2.take(20)), r2.skip(20)))
                    },
                }
            },
        },
    }
}

/// The entries that `s` writes, to its end.
pub open spec fn parse_tree_spec(s: Seq<u8>) -> Option<Seq<TreeEntryV>>
    decreases s.len(),
{
    if s.len() == 0 {
        Some(seq![])
    } else {
        match parse_entry(s) {
            None => None,
            Some((e, r)) => if r.len() < s.len() {
                match parse_tree_spec(r) {
                    None => None,
                    Some(es) => Some(seq![e] + es),
                }
            } else {
                None
            },
        }
    }
}

impl Tree {
    pub fn new() -> (r: Tree)
        ensures
            r@ == Seq::<TreeEntryV>::empty(),
    {
        Self { entries: Vec::new() }
    }
}

/// What follows an entry is shorter than what holds it.
proof fn lemma_parse_entry_shorter(s: Seq<u8>)
    ensures
        parse_entry(s) matches Some((e, r)) ==> r.len() < s.len(),
{
    crate::binary::lemma_find_first(s, 32);
    if let Some((l, r)) = split_until_spec(s, 32) {
        crate::binary::lemma_find_first(r, 0);
    }
}

/// Reads one entry.
fn read_entry(reader: &mut BinaryReader) -> (r: Option<TreeEntry>)
    ensures
        r is Some <==> parse_entry(old(reader)@) is Some,
        r matches Some(e) ==> parse_entry(old(reader)@) == Some((e@, final(reader)@)),
{
    let l = match reader.split_until_inclusive(32u8) {
        Some(l) => l,
        None => return None,
    };
    let mode = match parse_uint(l, 8, 0xffff_ffff) {
        Some(m) => m as u32,
        None => return None,
    };
    let name = match reader.split_until_inclusive(0u8) {
        Some(n) => n,
        None => return None,
    };
    let filename = to_vec(name);
    let idb = match reader.split_n(20) {
        Some(b) => b,
        None => return None,
    };
    let id = match ObjectId::from_bytes(idb) {
        Ok(id) => id,
        Err(_) => return None,
    };
    Some(TreeEntry { mode, filename, id })
}

/// Reads the text of a tree object.
pub fn read_tree_from_buffer(buffer: &[u8]) -> (r: Option<Tree>)
    ensures
        r is Some <==> parse_tree_spec(buffer@) is Some,
        r matches Some(t) ==> t@ == parse_tree_spec(buffer@).unwrap(),
{
    let mut reader = BinaryReader::new(buffer);
    let mut tree = Tree::new();
    loop
        invariant_except_break
            parse_tree_spec(buffer@) == match parse_tree_spec(reader@) {
                None => None,
                Some(es) => Some(tree@ + es),
            },
        ensures
            parse_tree_spec(buffer@) == Some(tree@),
        decreases reader@.len(),
    {
        if reader.is_empty() {
            assert(tree@ + Seq::<TreeEntryV>::empty() =~= tree@);
            break;
        }
        let ghost before = reader@;
        let entry = match read_entry(&mut reader) {
            Some(e) => e,
            None => return None,
        };
        proof {
            lemma_parse_entry_shorter(before);
        }
        let ghost prev = tree@;
        tree.entries.push(entry);
        proof {
            assert(tree@ =~= prev.push(entry@));
            match parse_tree_spec(reader@) {
                None => {},
                Some(es) => {
                    assert(prev + (seq![entry@] + es) =~= tree@ + es);
                },
            }
        }
    }
    Some(tree)
}

/// Appends one entry.
pub fn write_entry(out: &mut Vec<u8>, mode: u32, filename: &[u8], id: &ObjectId)
    ensures
        final(out)@ == old(out)@ + entry_bytes((mode, filename@, id@)),
{
    push_uint(out, mode as u64, 8);
    out.push(32u8);
    push_all(out, filename);
    out.push(0u8);
    push_all(out, id.as_bytes());
    assert(final(out)@ =~= old(out)@ + entry_bytes((mode, filename@, id@)));
}

/// The entries of the first `i` then entry `i`.
proof fn lemma_tree_bytes_push(es: Seq<TreeEntryV>, i: int)
    requires
        0 <= i < es.len(),
    ensures
        tree_bytes(es.take(i + 1)) == tree_bytes(es.take(i)) + entry_bytes(es[i]),
    decreases i,
{
    if i == 0 {
        assert(es.take(1).drop_first() =~= Seq::<TreeEntryV>::empty());
        assert(es.take(1)[0] == es[0]);
        assert(tree_bytes(es.take(1).drop_first()) == Seq::<u8>::empty());
        assert(tree_bytes(es.take(0)) == Seq::<u8>::empty());
        assert(tree_bytes(es.take(1)) =~= tree_bytes(es.take(0)) + entry_bytes(es[i]));
    } else {
        let t = es.drop_first();
        lemma_tree_bytes_push(t, i - 1);
        assert(es.take(i + 1).drop_first() =~= t.take(i));
        assert(es.take(i).drop_first() =~= t.take(i - 1));
        assert(es.take(i + 1)[0] == es[0] && es.take(i)[0] == es[0]);
        assert(t[i - 1] == es[i]);
        assert(tree_bytes(es.take(i + 1)) =~= tree_bytes(es.take(i)) + entry_bytes(es[i]));
    }
}

/// The text of a tree object, as the tree writer produces it.
pub fn write_tree(tree: &Tree) -> (r: Vec<u8>)
    ensures
        r@ == tree_bytes(tree@),
{
    let mut out: Vec<u8> = Vec::new();
    let ghost es = tree@;
    let mut i: usize = 0;
    assert(es.take(0) =~= Seq::<TreeEntryV>::empty());
    while i < tree.entries.len()
        invariant
            i <= tree.entries@.len(),
            es == tree@,
            out@ == tree_bytes(es.take(i as int)),
        decreases tree.entries@.len() - i,
    {
        proof {
            lemma_tree_bytes_push(es, i as int);
        }
        let e = &tree.entries[i];
        write_entry(&mut out, e.mode, e.filename.as_slice(), &e.id);
        i = i + 1;
    }
    assert(es.take(tree.entries@.len() as int) =~= es);
    out
}

/// Reading back one written entry gives the entry, when its name holds no NUL.
proof fn lemma_entry_roundtrip(e: TreeEntryV, rest: Seq<u8>)
    requires
        lacks(e.1, 0),
        e.2.len() == 20,
    ensures
        parse_entry(entry_bytes(e) + rest) == Some((e, rest)),
{
    let d = digits_of(e.0 as nat, 8);
    lemma_digits_of(e.0 as nat, 8);
    lemma_parse_digits_of(e.0 as nat, 8);
    assert forall|j: int| 0 <= j < d.len() implies d[j] != 32 by {
        assert(is_digit_of(d[j], 8));
    }
    let r = e.1 + seq![0u8] + e.2 + rest;
    assert(entry_bytes(e) + rest =~= d + seq![32u8] + r);
    lemma_split_until_concat(d, 32, r);
    assert(r =~= e.1 + seq![0u8] + (e.2 + rest));
    lemma_split_until_concat(e.1, 0, e.2 + rest);
    assert((e.2 + rest).take(20) =~= e.2);
    assert((e.2 + rest).skip(20) =~= rest);
}

/// Reading back the text of a tree gives its entries, when no name holds a NUL and every
/// object is named by 20 bytes.
pub proof fn lemma_tree_roundtrip(es: Seq<TreeEntryV>)
    requires
        forall|i: int| 0 <= i < es.len() ==> lacks((#[trigger] es[i]).1, 0) && es[i].2.len() == 20,
    ensures
        parse_tree_spec(tree_bytes(es)) == Some(es),
    decreases es.len(),
{
    if es.len() == 0 {
        assert(es =~= Seq::<TreeEntryV>::empty());
    } else {
        let t = es.drop_first();
        assert(lacks(es[0].1, 0) && es[0].2.len() == 20);
        lemma_entry_roundtrip(es[0], tree_bytes(t));
        assert forall|i: int| 0 <= i < t.len() implies lacks((#[trigger] t[i]).1, 0)
            && t[i].2.len() == 20 by {
            assert(t[i] == es[i + 1]);
        }
        lemma_tree_roundtrip(t);
        assert(entry_bytes(es[0]).len() > 0);
        assert(seq![es[0]] + t =~= es);
    }
}


/// `p` lies below the directory prefix `dir`.
pub open spec fn under(p: Seq<u8>, dir: Seq<u8>) -> bool {
    p.len() > dir.len() && p.take(dir.len() as int) == dir
}

/// The first entry from `i` on that does not lie below `dir`.
pub open spec fn block_end(es: Seq<IndexEntryV>, dir: Seq<u8>, i: int) -> int
    decreases es.len() - i,
{
    if i < 0 || i >= es.len() || !under(es[i].10, dir) {
        i
    } else {
        block_end(es, dir, i + 1)
    }
}

/// The longest path.
pub open spec fn max_path_len(es: Seq<IndexEntryV>) -> int
    decreases es.len(),
{
    if es.len() == 0 {
        0
    } else {
        let m = max_path_len(es.drop_first());
        if es[0].10.len() > m {
            es[0].10.len() as int
        } else {
            m
        }
    }
}

/// No path ends with a slash.
pub open spec fn no_trailing_slash(es: Seq<IndexEntryV>) -> bool {
    forall|i: int| 0 <= i < es.len() ==> (#[trigger] es[i].10).len() > 0 ==> es[i].10.last() != 47
}

/// The tree of directory `dir` from the entries `i..end` that lie below it, and the trees of
/// its subdirectories, each after those of its own subdirectories. A file directly in `dir`
/// gives an entry with its mode, name and object; a run of entries below a subdirectory gives
/// one entry for the subdirectory, whose object is the tree built from that run.
pub open spec fn listing(es: Seq<IndexEntryV>, dir: Seq<u8>, i: int, end: int) -> (
    Seq<u8>,
    Seq<Seq<u8>>,
)
    decreases max_path_len(es) - dir.len(), end - i,
{
    if i < 0 || i >= end || end > es.len() || dir.len() > max_path_len(es) {
        (seq![], seq![])
    } else {
        let e = es[i];
        let rest = e.10.skip(dir.len() as int);
        match find_first(rest, 47) {
            None => {
                let (b, ts) = listing(es, dir, i + 1, end);
                (entry_bytes((e.4, rest, e.8)) + b, ts)
            },
            Some(k) => {
                let sub = e.10.take(dir.len() + k + 1);
                let e2 = block_end(es, sub, i);
                if e2 <= i || e2 > end || sub.len() <= dir.len() || sub.len() > max_path_len(es) {
                    (seq![], seq![])
                } else {
                    let (sb, sts) = listing(es, sub, i, e2);
                    let (b, ts) = listing(es, dir, e2, end);
                    (
                        entry_bytes((crate::GIT_MODE_TREE, rest.take(k), object_name(ObjectType::Tree, sb)))
                            + b,
                        sts.push(sb) + ts,
                    )
                }
            },
        }
    }
}

/// The tree entry each index entry gives when it is a file directly in the directory: its
/// mode, its path and its object.
pub open spec fn file_entries(es: Seq<IndexEntryV>) -> Seq<TreeEntryV> {
    es.map_values(|e: IndexEntryV| (e.4, e.10, e.8))
}

/// The root tree of an index whose paths name files directly in the root lists each file with
/// the mode, the name and the object of its index entry, in order, and builds no other tree.
pub proof fn lemma_flat_index_tree(es: Seq<IndexEntryV>)
    requires
        forall|i: int| 0 <= i < es.len() ==> lacks(#[trigger] es[i].10, 47) && es[i].10.len() > 0,
    ensures
        block_end(es, seq![], 0) == es.len(),
        listing(es, seq![], 0, es.len() as int).0 == tree_bytes(file_entries(es)),
        listing(es, seq![], 0, es.len() as int).1 == Seq::<Seq<u8>>::empty(),
{
    lemma_block_end(es, seq![], 0);
    if block_end(es, seq![], 0) < es.len() {
        let j = block_end(es, seq![], 0);
        assert(es[j].10.take(0) =~= Seq::<u8>::empty());
    }
    lemma_max_path_len(es);
    lemma_flat_listing_from(es, 0);
    assert(file_entries(es).skip(0) =~= file_entries(es));
}

proof fn lemma_flat_listing_from(es: Seq<IndexEntryV>, i: int)
    requires
        forall|k: int| 0 <= k < es.len() ==> lacks(#[trigger] es[k].10, 47) && es[k].10.len() > 0,
        forall|k: int| 0 <= k < es.len() ==> (#[trigger] es[k].10).len() <= max_path_len(es),
        max_path_len(es) >= 0,
        0 <= i <= es.len(),
    ensures
        listing(es, seq![], i, es.len() as int).0 == tree_bytes(file_entries(es).skip(i)),
        listing(es, seq![], i, es.len() as int).1 == Seq::<Seq<u8>>::empty(),
    decreases es.len() - i,
{
    if i < es.len() {
        let e = es[i];
        assert(e.10.skip(0) =~= e.10);
        lemma_find_first(e.10, 47);
        if find_first(e.10, 47) is Some {
            let k = find_first(e.10, 47)->0;
            assert(e.10[k] == 47);
        }
        lemma_flat_listing_from(es, i + 1);
        assert(file_entries(es).skip(i).drop_first() =~= file_entries(es).skip(i + 1));
        assert(file_entries(es).skip(i)[0] == (e.4, e.10, e.8));
    } else {
        assert(file_entries(es).skip(i) =~= Seq::<TreeEntryV>::empty());
    }
}

pub open spec fn bufs_view(v: Seq<Vec<u8>>) -> Seq<Seq<u8>> {
    v.map_values(|b: Vec<u8>| b@)
}

proof fn lemma_max_path_len(es: Seq<IndexEntryV>)
    ensures
        forall|i: int| 0 <= i < es.len() ==> (#[trigger] es[i].10).len() <= max_path_len(es),
        max_path_len(es) >= 0,
    decreases es.len(),
{
    if es.len() > 0 {
        lemma_max_path_len(es.drop_first());
        assert forall|i: int| 0 <= i < es.len() implies (#[trigger] es[i].10).len() <= max_path_len(
            es,
        ) by {
            if i > 0 {
                assert(es[i] == es.drop_first()[i - 1]);
            }
        }
    }
}

proof fn lemma_block_end(es: Seq<IndexEntryV>, dir: Seq<u8>, i: int)
    requires
        0 <= i <= es.len(),
    ensures
        i <= block_end(es, dir, i) <= es.len(),
        forall|j: int| i <= j < block_end(es, dir, i) ==> under(#[trigger] es[j].10, dir),
        block_end(es, dir, i) < es.len() ==> !under(es[block_end(es, dir, i)].10, dir),
    decreases es.len() - i,
{
    if i < es.len() && under(es[i].10, dir) {
        lemma_block_end(es, dir, i + 1);
    }
}

/// Skipping entries that lie below `dir` keeps the end of the run.
proof fn lemma_block_end_skip(es: Seq<IndexEntryV>, dir: Seq<u8>, i: int, j: int)
    requires
        0 <= i <= j <= es.len(),
        forall|k: int| i <= k < j ==> under(#[trigger] es[k].10, dir),
    ensures
        block_end(es, dir, i) == block_end(es, dir, j),
    decreases j - i,
{
    if i < j {
        assert(under(es[i].10, dir));
        lemma_block_end_skip(es, dir, i + 1, j);
    }
}

/// What lies below a subdirectory lies below its parent.
proof fn lemma_under_sub(p: Seq<u8>, sub: Seq<u8>, dir: Seq<u8>)
    requires
        under(p, sub),
        sub.len() > dir.len(),
        sub.take(dir.len() as int) == dir,
    ensures
        under(p, dir),
{
    assert(p.take(dir.len() as int) =~= p.take(sub.len() as int).take(dir.len() as int));
}

/// Builds the tree of directory `dir` from the entries from `start` on that lie below it, and
/// those of its subdirectories; each tree is appended to `trees` after those of its own
/// subdirectories. Returns the first entry not below `dir` and the name of the tree.
pub fn create_trees_from_index_impl(
    index: &Index,
    dir: &[u8],
    start: usize,
    trees: &mut Vec<Vec<u8>>,
) -> (r: (usize, ObjectId))
    requires
        index.wf(),
        no_trailing_slash(index@),
        start <= index@.len(),
        dir@.len() <= max_path_len(index@),
    ensures
        r.0 == block_end(index@, dir@, start as int),
        bufs_view(final(trees)@) == bufs_view(old(trees)@) + listing(
            index@,
            dir@,
            start as int,
            r.0 as int,
        ).1.push(listing(index@, dir@, start as int, r.0 as int).0),
        r.1@ == object_name(ObjectType::Tree, listing(index@, dir@, start as int, r.0 as int).0),
    decreases max_path_len(index@) - dir@.len(),
{
    let ghost es = index@;
    let ghost end = block_end(es, dir@, start as int);
    let ghost t0 = bufs_view(trees@);
    proof {
        lemma_block_end(es, dir@, start as int);
        lemma_max_path_len(es);
    }
    let mut i = start;
    let mut buffer: Vec<u8> = Vec::new();
    let ghost mut acc_t: Seq<Seq<u8>> = seq![];
    assert(buffer@ + listing(es, dir@, i as int, end).0 =~= listing(es, dir@, start as int, end).0);
    assert(acc_t + listing(es, dir@, i as int, end).1 =~= listing(es, dir@, start as int, end).1);
    while i < index.count_entries()
        invariant
            es == index@,
            index.wf(),
            no_trailing_slash(es),
            start <= i <= es.len(),
            dir@.len() <= max_path_len(es),
            end == block_end(es, dir@, start as int),
            block_end(es, dir@, i as int) == end,
            end <= es.len(),
            forall|k: int| 0 <= k < es.len() ==> (#[trigger] es[k].10).len() <= max_path_len(es),
            buffer@ + listing(es, dir@, i as int, end).0 == listing(es, dir@, start as int, end).0,
            acc_t + listing(es, dir@, i as int, end).1 == listing(es, dir@, start as int, end).1,
            bufs_view(trees@) == t0 + acc_t,
        ensures
            i as int == end,
            buffer@ == listing(es, dir@, start as int, end).0,
            acc_t == listing(es, dir@, start as int, end).1,
            bufs_view(trees@) == t0 + acc_t,
        decreases es.len() - i,
    {
        let entry = index.get_unchecked(i);
        let path = entry.path.as_slice();
        if path.len() <= dir.len() {
            assert(listing(es, dir@, i as int, end) == (Seq::<u8>::empty(), Seq::<Seq<u8>>::empty()));
            assert(buffer@ =~= listing(es, dir@, start as int, end).0);
            assert(acc_t =~= listing(es, dir@, start as int, end).1);
            break;
        }
        let left = &path[0..dir.len()];
        let rest = &path[dir.len()..path.len()];
        assert(left@ =~= path@.take(dir@.len() as int));
        assert(rest@ =~= path@.skip(dir@.len() as int));
        if !bytes_eq(left, dir) {
            assert(listing(es, dir@, i as int, end) == (Seq::<u8>::empty(), Seq::<Seq<u8>>::empty()));
            assert(buffer@ =~= listing(es, dir@, start as int, end).0);
            assert(acc_t =~= listing(es, dir@, start as int, end).1);
            break;
        }
        assert(under(es[i as int].10, dir@));
        proof {
            lemma_block_end(es, dir@, i as int);
        }
        assert(i < end);
        match find_byte(rest, 47u8) {
            Some(slash) => {
                proof {
                    lemma_find_first(rest@, 47);
                }
                let mid = &rest[0..slash];
                let sub = &path[0..dir.len() + slash + 1];
                let ghost p = es[i as int].10;
                proof {
                    lemma_find_first(rest@, 47);
                    assert(p[dir@.len() + slash] == 47);
                    assert(p.len() > sub@.len());
                    assert(sub@ =~= p.take(dir@.len() + slash + 1));
                    assert(under(p, sub@));
                    assert(sub@.take(dir@.len() as int) =~= dir@);
                    lemma_block_end(es, sub@, i as int);
                }
                let (next, id) = create_trees_from_index_impl(index, sub, i, trees);
                proof {
                    let e2 = next as int;
                    assert forall|k: int| i <= k < e2 implies under(#[trigger] es[k].10, dir@) by {
                        lemma_under_sub(es[k].10, sub@, dir@);
                    }
                    lemma_block_end_skip(es, dir@, i as int, e2);
                    lemma_block_end(es, dir@, i as int);
                    let (sb, sts) = listing(es, sub@, i as int, e2);
                    assert(mid@ =~= rest@.take(slash as int));
                    assert(listing(es, dir@, i as int, end) == (
                        entry_bytes((crate::GIT_MODE_TREE, rest@.take(slash as int), object_name(ObjectType::Tree, sb)))
                            + listing(es, dir@, e2, end).0,
                        sts.push(sb) + listing(es, dir@, e2, end).1,
                    ));
                    acc_t = acc_t + sts.push(sb);
                }
                write_entry(&mut buffer, crate::GIT_MODE_TREE, mid, &id);
                i = next;
            },
            None => {
                proof {
                    assert(listing(es, dir@, i as int, end) == (
                        entry_bytes((es[i as int].4, rest@, es[i as int].8))
                            + listing(es, dir@, i + 1, end).0,
                        listing(es, dir@, i + 1, end).1,
                    ));
                }
                write_entry(&mut buffer, entry.mode, rest, &entry.id);
                i = i + 1;
            },
        }
    }
    let id = hash_buffer(buffer.as_slice(), ObjectType::Tree);
    let ghost b = buffer@;
    let ghost prev = trees@;
    trees.push(buffer);
    assert(bufs_view(trees@) =~= bufs_view(prev).push(b));
    assert(bufs_view(trees@) =~= t0 + acc_t.push(b));
    (i, id)
}

/// Builds the trees of a whole index: the name of the root tree, and every tree in the order
/// they are to be stored.
pub fn create_trees_from_index(index: &Index) -> (r: (ObjectId, Vec<Vec<u8>>))
    requires
        index.wf(),
        no_trailing_slash(index@),
    ensures
        r.0@ == object_name(
            ObjectType::Tree,
            listing(index@, seq![], 0, block_end(index@, seq![], 0)).0,
        ),
        bufs_view(r.1@) == listing(index@, seq![], 0, block_end(index@, seq![], 0)).1.push(
            listing(index@, seq![], 0, block_end(index@, seq![], 0)).0,
        ),
        (forall|i: int| 0 <= i < index@.len() ==> lacks(#[trigger] index@[i].10, 47) && index@[i].10.len()
            > 0) ==> r.0@ == object_name(ObjectType::Tree, tree_bytes(file_entries(index@))) && bufs_view(
            r.1@,
        ) == seq![tree_bytes(file_entries(index@))],
{
    proof {
        if forall|i: int| 0 <= i < index@.len() ==> lacks(#[trigger] index@[i].10, 47) && index@[i].10.len() > 0 {
            lemma_flat_index_tree(index@);
            assert(Seq::<Seq<u8>>::empty().push(tree_bytes(file_entries(index@))) =~= seq![tree_bytes(file_entries(index@))]);
        }
    }
    let mut trees: Vec<Vec<u8>> = Vec::new();
    let empty: &[u8] = &[];
    proof {
        lemma_max_path_len(index@);
    }
    assert(empty@ =~= Seq::<u8>::empty());
    let (_, id) = create_trees_from_index_impl(index, empty, 0, &mut trees);
    assert(bufs_view(Seq::<Vec<u8>>::empty()) =~= Seq::<Seq<u8>>::empty());
    (id, trees)
}


/// Why a tree could not be walked or found.
#[derive(Debug)]
pub enum Error {
    OdbReadFailed(OdbError),
    LookupRefFailed(crate::refs::Error),
    InvalidTreeish,
    EmptyDirs,
    WalkTooLong,
}

/// An entry met by a walk, and the path of its directory.
pub struct WalkEntry<'a> {
    tree_entry: &'a TreeEntry,
    dir_path: &'a [u8],
}

/// `dir/name`, or `name` at the top.
pub open spec fn full_path(dir: Seq<u8>, name: Seq<u8>) -> Seq<u8> {
    if dir.len() == 0 {
        name
    } else {
        dir + seq![47u8] + name
    }
}

impl<'a> WalkEntry<'a> {
    pub closed spec fn entry(&self) -> TreeEntryV {
        self.tree_entry@
    }

    pub closed spec fn dir(&self) -> Seq<u8> {
        self.dir_path@
    }

    pub fn new(tree_entry: &'a TreeEntry, dir_path: &'a [u8]) -> (r: WalkEntry<'a>)
        ensures
            r.entry() == tree_entry@,
            r.dir() == dir_path@,
    {
        WalkEntry { tree_entry, dir_path }
    }

    /// The path of the entry from the top of the walk.
    pub fn make_fullpath(&self) -> (r: Vec<u8>)
        ensures
            r@ == full_path(self.dir(), self.entry().1),
    {
        let mut path: Vec<u8> = Vec::new();
        if self.dir_path.len() != 0 {
            push_all(&mut path, self.dir_path);
            path.push(47u8);
        }
        push_all(&mut path, self.tree_entry.filename.as_slice());
        assert(path@ =~= full_path(self.dir(), self.entry().1));
        path
    }

    pub fn dir_path(&self) -> (r: &[u8])
        ensures
            r@ == self.dir(),
    {
        self.dir_path
    }

    pub fn object_id(&self) -> (r: ObjectId)
        ensures
            r@ == self.entry().2,
    {
        self.tree_entry.id
    }

    pub fn mode(&self) -> (r: u32)
        ensures
            r == self.entry().0,
    {
        self.tree_entry.mode
    }
}

/// One directory on the way down: its entries, the one being visited, and the length of the
/// path before the directory's name was added to it.
struct StackNode {
    entries: Vec<TreeEntry>,
    idx: usize,
    prev_len: usize,
}

/// The entry visited in the innermost directory.
pub open spec fn top_entry(ls: Seq<(Seq<TreeEntryV>, int)>) -> TreeEntryV {
    ls.last().0[ls.last().1]
}

/// The innermost directory that has an entry after the one visited; -1 when none has.
pub open spec fn deepest_open(ls: Seq<(Seq<TreeEntryV>, int)>) -> int
    decreases ls.len(),
{
    if ls.len() == 0 {
        -1
    } else if ls.last().1 + 1 < ls.last().0.len() {
        ls.len() - 1
    } else {
        deepest_open(ls.drop_last())
    }
}

proof fn lemma_deepest_open(ls: Seq<(Seq<TreeEntryV>, int)>, d: int)
    requires
        -1 <= d < ls.len(),
        d >= 0 ==> ls[d].1 + 1 < ls[d].0.len(),
        forall|k: int| d < k < ls.len() ==> #[trigger] ls[k].1 + 1 == ls[k].0.len(),
    ensures
        deepest_open(ls) == d,
    decreases ls.len(),
{
    if ls.len() > 0 && d < ls.len() - 1 {
        let p = ls.drop_last();
        assert(ls[ls.len() - 1].1 + 1 == ls[ls.len() - 1].0.len());
        assert forall|k: int| d < k < p.len() implies #[trigger] p[k].1 + 1 == p[k].0.len() by {
            assert(p[k] == ls[k]);
        }
        if d >= 0 {
            assert(p[d] == ls[d]);
        }
        lemma_deepest_open(p, d);
    }
}

/// One step of a depth-first walk: the deepest directory with an entry after the visited one
/// moves on to it, the directories above it stay, those below it were at their last entry;
/// or, with no such directory, the walk is over.
pub open spec fn next_levels(before: Seq<(Seq<TreeEntryV>, int)>, after: Seq<(Seq<TreeEntryV>, int)>) -> bool {
    ||| after.len() == 0 && forall|k: int| 0 <= k < before.len() ==> #[trigger] before[k].1 + 1 == before[k].0.len()
    ||| exists|d: int| 0 <= d < before.len() && d < after.len() && {
        &&& forall|k: int| 0 <= k < d ==> #[trigger] after[k] == before[k]
        &&& after[d] == (before[d].0, before[d].1 + 1)
        &&& forall|k: int| d < k < before.len() ==> #[trigger] before[k].1 + 1 == before[k].0.len()
    }
}

/// The path of the directory that the first `n` levels of a walk lead into: the names of the
/// entries visited in them, joined by `/`, as `full_path` joins a name to its directory.
pub open spec fn dir_of(ls: Seq<(Seq<TreeEntryV>, int)>, n: int) -> Seq<u8>
    decreases n,
{
    if n <= 0 {
        seq![]
    } else {
        full_path(dir_of(ls, n - 1), ls[n - 1].0[ls[n - 1].1].1)
    }
}

/// Levels that agree below `n` lead into the same directory.
proof fn lemma_dir_of_prefix(a: Seq<(Seq<TreeEntryV>, int)>, b: Seq<(Seq<TreeEntryV>, int)>, n: int)
    requires
        n <= a.len(),
        n <= b.len(),
        forall|k: int| 0 <= k < n ==> #[trigger] a[k] == b[k],
    ensures
        dir_of(a, n) == dir_of(b, n),
    decreases n,
{
    if n > 0 {
        lemma_dir_of_prefix(a, b, n - 1);
        assert(a[n - 1] == b[n - 1]);
    }
}

/// A directory's path starts each path below it.
proof fn lemma_full_path_prefix(dir: Seq<u8>, name: Seq<u8>)
    ensures
        full_path(dir, name).len() >= dir.len(),
        full_path(dir, name).take(dir.len() as int) == dir,
{
    if dir.len() > 0 {
        assert((dir + seq![47u8] + name).take(dir.len() as int) =~= dir);
    }
}

/// Visits the files of a tree, depth first, reading subdirectories from an object store.
pub struct TreeWalker<'a, T: IOdb> {
    odb: &'a T,
    path: Vec<u8>,
    stack: Vec<StackNode>,
}

impl<'a, T: IOdb> TreeWalker<'a, T> {
    /// Every directory on the stack has an entry being visited.
    pub closed spec fn inv(&self) -> bool {
        &&& forall|k: int| 0 <= k < self.stack@.len() ==> (#[trigger] self.stack@[k]).idx
            < self.stack@[k].entries@.len()
        &&& self.path@ == dir_of(self.levels(), self.levels().len() - 1)
        &&& forall|k: int| 0 <= k < self.stack@.len() ==> (#[trigger] self.stack@[k]).prev_len
            == dir_of(self.levels(), k - 1).len()
    }

    /// The path of the directory being visited joins, with `/`, the names of the directories
    /// the walk went down through, outermost first.
    pub proof fn lemma_walk_dir(&self)
        requires
            self.inv(),
        ensures
            self.dir_path_spec() == dir_of(self.levels(), self.levels().len() - 1),
    {
    }

    /// The path of the directory being visited.
    pub closed spec fn dir_path_spec(&self) -> Seq<u8> {
        self.path@
    }

    /// The entry being visited and its directory's path, if the walk is not over.
    pub open spec fn current_spec(&self) -> Option<(TreeEntryV, Seq<u8>)> {
        if self.levels().len() == 0 {
            None
        } else {
            let top = self.levels().last();
            Some((top.0[top.1], self.dir_path_spec()))
        }
    }

    /// The walk rests on a file, or is over.
    pub open spec fn settled(&self) -> bool {
        self.inv() && (self.current_spec() matches Some(c) ==> c.0.0 != crate::GIT_MODE_TREE)
    }

    /// The directories on the way down, outermost first: each one's entries and the position
    /// of the entry being visited.
    pub closed spec fn levels(&self) -> Seq<(Seq<TreeEntryV>, int)> {
        self.stack@.map_values(|n: StackNode| (entries_view(n.entries@), n.idx as int))
    }

    fn advance_to_next_non_tree(&mut self) -> (r: Result<(), Error>)
        requires
            old(self).inv(),
            old(self).stack@.len() > 0,
        ensures
            r is Ok ==> final(self).settled() && final(self).stack@.len() > 0,
            r is Ok ==> final(self).levels().len() >= old(self).levels().len() && forall|k: int|
                0 <= k < old(self).levels().len() ==> #[trigger] final(self).levels()[k] == old(
                self,
            ).levels()[k],
            top_entry(old(self).levels()).0 != crate::GIT_MODE_TREE ==> r is Ok && final(self).levels()
                == old(self).levels() && final(self).dir_path_spec() == old(self).dir_path_spec(),
            r is Err ==> top_entry(old(self).levels()).0 == crate::GIT_MODE_TREE,
    {
        proof {
            let n = self.stack@.len();
            assert(top_entry(old(self).levels()) == self.stack@[n - 1].entries@[self.stack@[n - 1].idx as int]@);
        }
        loop
            invariant
                self.inv(),
                self.stack@.len() > 0,
                self.stack@.len() >= old(self).stack@.len(),
                forall|k: int| 0 <= k < old(self).stack@.len() ==> #[trigger] self.stack@[k] == old(
                    self,
                ).stack@[k],
                self.stack@.len() == old(self).stack@.len() ==> self.path@ == old(self).path@,
                self.stack@.len() > old(self).stack@.len() ==> top_entry(old(self).levels()).0
                    == crate::GIT_MODE_TREE,
            decreases usize::MAX - self.stack@.len(),
        {
            let n = self.stack.len();
            let top = &self.stack[n - 1];
            let entry = &top.entries[top.idx];
            if entry.mode != crate::GIT_MODE_TREE {
                proof {
                    if self.stack@.len() == old(self).stack@.len() {
                        assert(self.stack@ =~= old(self).stack@);
                    }
                }
                return Ok(());
            }
            proof {
                if self.stack@.len() == old(self).stack@.len() {
                    assert(self.stack@[n - 1] == old(self).stack@[n - 1]);
                }
            }
            let tree = match self.odb.read_tree(entry.id) {
                Ok(t) => t,
                Err(e) => return Err(Error::OdbReadFailed(e)),
            };
            if tree.entries.len() == 0 {
                return Err(Error::EmptyDirs);
            }
            let ghost ls0 = self.levels();
            let ghost st0 = self.stack@;
            let ghost p0 = self.path@;
            let ghost name = self.stack@[n - 1].entries@[self.stack@[n - 1].idx as int].filename@;
            let prev_len = self.path.len();
            if prev_len != 0 {
                self.path.push(47u8);
            }
            push_all(&mut self.path, self.stack[n - 1].entries[self.stack[n - 1].idx].filename.as_slice());
            self.stack.push(StackNode { entries: tree.entries, idx: 0, prev_len });
            proof {
                let ls = self.levels();
                assert(ls.len() == n + 1);
                assert forall|k: int| 0 <= k < n implies #[trigger] ls[k] == ls0[k] by {
                    assert(self.stack@[k] == st0[k]);
                }
                lemma_dir_of_prefix(ls, ls0, n - 1);
                assert(ls[n - 1] == ls0[n - 1]);
                assert(ls0[n - 1].0[ls0[n - 1].1].1 == name);
                assert(self.path@ =~= full_path(p0, name));
                assert(self.path@ == dir_of(ls, n as int));
                assert forall|k: int| 0 <= k < self.stack@.len() implies (#[trigger] self.stack@[k]).prev_len
                    == dir_of(ls, k - 1).len() by {
                    if k < n {
                        assert(self.stack@[k] == st0[k]);
                        if k >= 1 {
                            lemma_dir_of_prefix(ls, ls0, k - 1);
                        }
                    } else {
                        lemma_dir_of_prefix(ls, ls0, n - 1);
                    }
                }
                assert forall|k: int| 0 <= k < self.stack@.len() implies (#[trigger] self.stack@[k]).idx
                    < self.stack@[k].entries@.len() by {
                    if k < n {
                        assert(self.stack@[k] == st0[k]);
                    }
                }
            }
            let _ = self.stack.len();
        }
    }

    /// A walk of the tree stored under `id`, resting on its first file; a tree without entries
    /// gives `EmptyDirs`.
    pub fn from_id(odb: &'a T, id: ObjectId) -> (r: Result<Self, Error>)
        ensures
            r matches Ok(w) ==> w.settled(),
    {
        let tree = match odb.read_tree(id) {
            Ok(t) => t,
            Err(e) => return Err(Error::OdbReadFailed(e)),
        };
        if tree.entries.len() == 0 {
            return Err(Error::EmptyDirs);
        }
        Self::from_tree(odb, tree)
    }

    /// A walk of a tree that has entries, resting on its first file.
    pub fn from_tree(odb: &'a T, tree: Tree) -> (r: Result<Self, Error>)
        requires
            tree.entries@.len() > 0,
        ensures
            r matches Ok(w) ==> w.settled() && w.levels().len() >= 1 && w.levels()[0] == (tree@, 0int),
            tree@[0].0 != crate::GIT_MODE_TREE ==> (r matches Ok(w) && w.levels() == seq![(tree@, 0int)]
                && w.dir_path_spec() == Seq::<u8>::empty()),
            r is Err ==> tree@[0].0 == crate::GIT_MODE_TREE,
    {
        let ghost tv = tree@;
        let mut walker = Self { odb, path: Vec::new(), stack: Vec::new() };
        walker.stack.push(StackNode { entries: tree.entries, idx: 0, prev_len: 0 });
        proof {
            assert(walker.levels()[0] == (tv, 0int));
            assert(walker.levels() =~= seq![(tv, 0int)]);
            assert(walker.path@ =~= Seq::<u8>::empty());
        }
        match walker.advance_to_next_non_tree() {
            Ok(()) => Ok(walker),
            Err(e) => Err(e),
        }
    }

    /// The file the walk rests on, and the path of its directory.
    pub fn current(&self) -> (r: Option<WalkEntry<'_>>)
        requires
            self.inv(),
        ensures
            match self.current_spec() {
                None => r is None,
                Some((e, d)) => r matches Some(w) && w.entry() == e && w.dir() == d,
            },
            r matches Some(w) ==> w.dir() == dir_of(self.levels(), self.levels().len() - 1),
    {
        let n = self.stack.len();
        if n == 0 {
            return None;
        }
        let top = &self.stack[n - 1];
        let entry = &top.entries[top.idx];
        Some(WalkEntry::new(entry, self.path.as_slice()))
    }

    /// Moves to the next file, depth first: the deepest directory on the way down that has an
    /// entry after the one visited moves on to it, the directories below it are left, and the
    /// walk goes down into subdirectories until it rests on a file. With no such directory the
    /// walk is over.
    pub fn advance(&mut self) -> (r: Result<(), Error>)
        requires
            old(self).inv(),
        ensures
            r is Ok ==> final(self).settled(),
            r is Ok ==> next_levels(old(self).levels(), final(self).levels()),
            deepest_open(old(self).levels()) < 0 ==> r is Ok && final(self).levels().len() == 0,
            ({
                let ls = old(self).levels();
                let d = deepest_open(ls);
                d >= 0 && ls[d].0[ls[d].1 + 1].0 != crate::GIT_MODE_TREE ==> r is Ok && final(self).levels()
                    == ls.take(d).push((ls[d].0, ls[d].1 + 1)) && (d == ls.len() - 1
                    ==> final(self).dir_path_spec() == old(self).dir_path_spec())
            }),
            r is Err ==> ({
                let ls = old(self).levels();
                let d = deepest_open(ls);
                d >= 0 && ls[d].0[ls[d].1 + 1].0 == crate::GIT_MODE_TREE
            }),
    {
        let ghost before = self.levels();
        loop
            invariant_except_break
                self.inv(),
                self.stack@.len() <= old(self).stack@.len(),
                forall|k: int| 0 <= k < self.stack@.len() ==> #[trigger] self.stack@[k] == old(
                    self,
                ).stack@[k],
                forall|k: int| self.stack@.len() <= k < old(self).stack@.len() ==> #[trigger] old(
                    self,
                ).stack@[k].idx + 1 == old(self).stack@[k].entries@.len(),
                self.stack@.len() == old(self).stack@.len() ==> self.path@ == old(self).path@,
            ensures
                self.inv(),
                self.stack@.len() <= old(self).stack@.len(),
                self.stack@.len() == old(self).stack@.len() ==> self.path@ == old(self).path@,
                self.stack@.len() == 0 ==> forall|k: int| 0 <= k < old(self).stack@.len() ==> #[trigger] old(
                    self,
                ).stack@[k].idx + 1 == old(self).stack@[k].entries@.len(),
                self.stack@.len() > 0 ==> {
                    let d = self.stack@.len() - 1;
                    &&& forall|k: int| 0 <= k < d ==> #[trigger] self.stack@[k] == old(self).stack@[k]
                    &&& self.stack@[d].entries == old(self).stack@[d].entries
                    &&& self.stack@[d].idx == old(self).stack@[d].idx + 1
                    &&& forall|k: int| d < k < old(self).stack@.len() ==> #[trigger] old(
                        self,
                    ).stack@[k].idx + 1 == old(self).stack@[k].entries@.len()
                },
            decreases self.stack@.len(),
        {
            let n = self.stack.len();
            if n == 0 {
                break;
            }
            assert(self.stack@[n - 1].idx < self.stack@[n - 1].entries@.len());
            let ghost ls0 = self.levels();
            let ghost st0 = self.stack@;
            let ghost p0 = self.path@;
            let mut top = self.stack.pop().unwrap();
            let len = top.entries.len();
            top.idx = top.idx + 1;
            if top.idx != len {
                self.stack.push(top);
                assert forall|k: int| 0 <= k < self.stack@.len() implies (#[trigger] self.stack@[k]).idx
                    < self.stack@[k].entries@.len() by {
                    if k < n - 1 {
                        assert(self.stack@[k] == old(self).stack@[k]);
                    }
                }
                proof {
                    let ls = self.levels();
                    assert forall|k: int| 0 <= k < n - 1 implies #[trigger] ls[k] == ls0[k] by {
                        assert(self.stack@[k] == st0[k]);
                    }
                    lemma_dir_of_prefix(ls, ls0, n - 1);
                    assert forall|k: int| 0 <= k < self.stack@.len() implies (#[trigger] self.stack@[k]).prev_len
                        == dir_of(ls, k - 1).len() by {
                        if k < n - 1 {
                            assert(self.stack@[k] == st0[k]);
                        } else {
                            assert(self.stack@[k].prev_len == st0[k].prev_len);
                        }
                        if k >= 1 {
                            lemma_dir_of_prefix(ls, ls0, k - 1);
                        }
                    }
                }
                break;
            }
            self.path.truncate(top.prev_len);
            proof {
                let ls = self.levels();
                assert forall|k: int| 0 <= k < n - 1 implies #[trigger] ls[k] == ls0[k] by {
                    assert(self.stack@[k] == st0[k]);
                }
                if n >= 2 {
                    lemma_dir_of_prefix(ls, ls0, n - 2);
                    lemma_full_path_prefix(dir_of(ls0, n - 2), ls0[n - 2].0[ls0[n - 2].1].1);
                    assert(st0[n - 1].prev_len == dir_of(ls0, n - 2).len());
                    assert(self.path@ =~= dir_of(ls0, n - 2));
                } else {
                    assert(self.path@ =~= Seq::<u8>::empty());
                }
                assert forall|k: int| 0 <= k < self.stack@.len() implies (#[trigger] self.stack@[k]).prev_len
                    == dir_of(ls, k - 1).len() by {
                    assert(self.stack@[k] == st0[k]);
                    if k >= 1 {
                        lemma_dir_of_prefix(ls, ls0, k - 1);
                    }
                }
            }
        }
        proof {
            let after = self.levels();
            if self.stack@.len() > 0 {
                let d = self.stack@.len() - 1;
                assert forall|k: int| 0 <= k < d implies #[trigger] after[k] == before[k] by {
                    assert(self.stack@[k] == old(self).stack@[k]);
                }
                assert(after[d] == (before[d].0, before[d].1 + 1));
                assert forall|k: int| d < k < before.len() implies #[trigger] before[k].1 + 1
                    == before[k].0.len() by {
                    assert(old(self).stack@[k].idx + 1 == old(self).stack@[k].entries@.len());
                }
                assert(before[d].1 + 1 < before[d].0.len());
                lemma_deepest_open(before, d);
                assert(after =~= before.take(d).push((before[d].0, before[d].1 + 1)));
                assert(top_entry(after) == before[d].0[before[d].1 + 1]);
            } else {
                assert forall|k: int| -1 < k < before.len() implies #[trigger] before[k].1 + 1
                    == before[k].0.len() by {
                    assert(old(self).stack@[k].idx + 1 == old(self).stack@[k].entries@.len());
                }
                lemma_deepest_open(before, -1);
            }
        }
        if self.stack.len() == 0 {
            proof {
                assert(self.levels().len() == 0);
            }
            return Ok(());
        }
        let ghost mid = self.levels();
        let ghost mid_path = self.path@;
        let r = self.advance_to_next_non_tree();
        proof {
            if r is Ok {
                let d = mid.len() - 1;
                assert(self.levels()[d] == mid[d]);
                assert forall|k: int| 0 <= k < d implies #[trigger] self.levels()[k] == before[k] by {
                    assert(self.levels()[k] == mid[k]);
                }
                assert(self.levels()[d] == (before[d].0, before[d].1 + 1));
            }
        }
        r
    }
}

/// In a directory without subdirectories a walk visits the entries in order: from the `k`-th,
/// `advance` moves on to the next one, and from the last it ends the walk.
pub proof fn lemma_flat_walk_advances(tv: Seq<TreeEntryV>, k: int)
    requires
        flat(tv),
        0 <= k < tv.len(),
    ensures
        k + 1 < tv.len() ==> {
            &&& deepest_open(seq![(tv, k)]) == 0
            &&& tv[k + 1].0 != crate::GIT_MODE_TREE
            &&& seq![(tv, k)].take(0).push((tv, k + 1)) == seq![(tv, k + 1)]
        },
        k + 1 == tv.len() ==> deepest_open(seq![(tv, k)]) < 0,
{
    let ls = seq![(tv, k)];
    if k + 1 < tv.len() {
        lemma_deepest_open(ls, 0);
        assert(ls.take(0).push((tv, k + 1)) =~= seq![(tv, k + 1)]);
    } else {
        lemma_deepest_open(ls, -1);
    }
}

/// A file met by a walk: its path from the top, its object and its mode.
pub type WalkItemV = (Seq<u8>, Seq<u8>, u32);

pub open spec fn walk_items_view(v: Seq<(Vec<u8>, ObjectId, u32)>) -> Seq<WalkItemV> {
    v.map_values(|x: (Vec<u8>, ObjectId, u32)| (x.0@, x.1@, x.2))
}

/// A directory with no subdirectory.
pub open spec fn flat(es: Seq<TreeEntryV>) -> bool {
    forall|k: int| 0 <= k < es.len() ==> (#[trigger] es[k]).0 != crate::GIT_MODE_TREE
}

/// The walk of a directory with no subdirectory: each entry's name, object and mode, in order.
pub open spec fn flat_listing(es: Seq<TreeEntryV>) -> Seq<WalkItemV> {
    es.map_values(|e: TreeEntryV| (e.1, e.2, e.0))
}

/// The files of a tree that has entries, in the order a walk meets them. A walk of 2^64 steps
/// or more stops with `WalkTooLong`.
pub fn flatten_tree<T: IOdb>(odb: &T, tree: Tree) -> (r: Result<Vec<(Vec<u8>, ObjectId, u32)>, Error>)
    requires
        tree.entries@.len() > 0,
    ensures
        r matches Ok(items) ==> forall|k: int| 0 <= k < items@.len() ==> (#[trigger] items@[k]).2
            != crate::GIT_MODE_TREE,
        flat(tree@) ==> (r matches Ok(items) && walk_items_view(items@) == flat_listing(tree@)),
{
    let ghost tv = tree@;
    let ghost is_flat = flat(tv);
    let count = tree.entries.len();
    assert(tv.len() == count);
    let mut walker = match TreeWalker::from_tree(odb, tree) {
        Ok(w) => w,
        Err(e) => return Err(e),
    };
    let mut out: Vec<(Vec<u8>, ObjectId, u32)> = Vec::new();
    let mut steps: u64 = 0;
    loop
        invariant
            walker.settled(),
            forall|k: int| 0 <= k < out@.len() ==> (#[trigger] out@[k]).2 != crate::GIT_MODE_TREE,
            is_flat == flat(tv),
            tv == tree@,
            tv.len() > 0,
            tv.len() <= usize::MAX,
            is_flat ==> steps == out@.len(),
            is_flat && out@.len() < tv.len() ==> walker.dir_path_spec() == Seq::<u8>::empty(),
            is_flat ==> walk_items_view(out@) == flat_listing(tv).take(out@.len() as int),
            is_flat ==> (out@.len() < tv.len() && walker.levels() == seq![(tv, out@.len() as int)])
                || (out@.len() == tv.len() && walker.levels().len() == 0),
        ensures
            forall|k: int| 0 <= k < out@.len() ==> (#[trigger] out@[k]).2 != crate::GIT_MODE_TREE,
            tv == tree@,
            is_flat == flat(tv),
            is_flat ==> walk_items_view(out@) == flat_listing(tv).take(out@.len() as int)
                && out@.len() == tv.len(),
        decreases u64::MAX - steps,
    {
        let item = match walker.current() {
            Some(w) => (w.make_fullpath(), w.object_id(), w.mode()),
            None => break,
        };
        let ghost prev = out@;
        out.push(item);
        assert forall|k: int| 0 <= k < out@.len() implies (#[trigger] out@[k]).2 != crate::GIT_MODE_TREE by {
            if k < prev.len() {
                assert(out@[k] == prev[k]);
            }
        }
        proof {
            if is_flat {
                let i = prev.len() as int;
                assert(walk_items_view(out@) =~= flat_listing(tv).take(i + 1)) by {
                    assert(walk_items_view(out@)[i] == (tv[i].1, tv[i].2, tv[i].0));
                    assert forall|k: int| 0 <= k < i implies walk_items_view(out@)[k] == flat_listing(tv)[k] by {
                        assert(out@[k] == prev[k]);
                        assert(walk_items_view(prev)[k] == flat_listing(tv).take(i)[k]);
                    }
                }
            }
        }
        proof {
            if is_flat {
                assert(prev.len() < tv.len());
                assert(steps == prev.len());
                assert(steps < u64::MAX);
            }
        }
        if steps == u64::MAX {
            return Err(Error::WalkTooLong);
        }
        steps = steps + 1;
        proof {
            if is_flat {
                let ls = walker.levels();
                let i = prev.len() as int;
                if i + 1 < tv.len() {
                    lemma_deepest_open(ls, 0);
                    assert(tv[i + 1].0 != crate::GIT_MODE_TREE);
                    assert(ls[0].0[ls[0].1 + 1] == tv[i + 1]);
                    assert(ls.take(0).push((ls[0].0, ls[0].1 + 1)) =~= seq![(tv, i + 1)]);
                } else {
                    lemma_deepest_open(ls, -1);
                }
            }
        }
        match walker.advance() {
            Ok(()) => {},
            Err(e) => return Err(e),
        }
    }
    proof {
        if is_flat {
            assert(flat_listing(tv).take(out@.len() as int) =~= flat_listing(tv));
        }
    }
    Ok(out)
}

/// How a name given for a tree or a commit is read: `HEAD`, the name of an object, or a
/// branch.
#[derive(Debug)]
pub enum Treeish {
    Head,
    Object(ObjectId),
    Branch,
}

/// `HEAD`, then an object name in hexadecimal, then a branch name.
pub fn classify_treeish(treeish: &str) -> (r: Treeish)
    ensures
        treeish@ == "HEAD"@ ==> r is Head,
        treeish@ != "HEAD"@ ==> match crate::sha1::sha1_from_hex_spec(treeish.spec_bytes()) {
            Ok(b) => r matches Treeish::Object(id) && id@ == b,
            Err(_) => r is Branch,
        },
{
    let head = "HEAD";
    if crate::bytes::bytes_eq(treeish.as_bytes(), head.as_bytes()) {
        proof {
            vstd::utf8::encode_utf8_decode_utf8(treeish@);
            vstd::utf8::encode_utf8_decode_utf8(head@);
        }
        return Treeish::Head;
    }
    proof {
        if treeish@ == head@ {
            assert(treeish.spec_bytes() == head.spec_bytes());
        }
    }
    match ObjectId::from_str(treeish) {
        Ok(id) => Treeish::Object(id),
        Err(_) => Treeish::Branch,
    }
}

/// The tree of a commit, and its name.
pub fn tree_of_commit<T: IOdb>(odb: &T, commit_id: ObjectId) -> (r: Result<(Tree, ObjectId), Error>)
    ensures
        odb.obeys_store_laws() ==> (r matches Ok((t, x)) ==> {
            &&& odb.object_at(commit_id@) matches Some(ObjectV::Commit(c))
            &&& x@ == c.0
            &&& odb.object_at(x@) == Some(ObjectV::Tree(t@))
        }),
        odb.obeys_store_laws() ==> (odb.object_at(commit_id@) matches Some(o) && !(o is Commit)
            ==> r is Err),
        r matches Err(e) ==> e is OdbReadFailed,
{
    let commit = match odb.read_commit(commit_id) {
        Ok(c) => c,
        Err(e) => return Err(Error::OdbReadFailed(e)),
    };
    match odb.read_tree(commit.tree_id) {
        Ok(tree) => Ok((tree, commit.tree_id)),
        Err(e) => Err(Error::OdbReadFailed(e)),
    }
}

/// Whether `x` names the tree that the object stored under `id` leads to: a tree leads to
/// itself, a commit to the tree it records, a tag to the tree of the commit it names.
pub open spec fn leads_to_tree<T: IOdb>(odb: &T, id: Seq<u8>, x: Seq<u8>) -> bool {
    match odb.object_at(id) {
        Some(ObjectV::Tree(_)) => x == id,
        Some(ObjectV::Commit(c)) => x == c.0,
        Some(ObjectV::Tag(g)) => odb.object_at(g.0) matches Some(ObjectV::Commit(c)) && x == c.0,
        _ => false,
    }
}

/// Where the tree of an object is found.
pub enum TreeLead {
    /// The object is the tree.
    Here(Tree),
    /// The object is a commit of the tree with this name.
    TreeNamed(ObjectId),
    /// The object is a tag of the commit with this name.
    CommitNamed(ObjectId),
    /// The object is a blob, which leads to no tree.
    NoTree,
}

/// Where the tree of an object is: the object itself if it is a tree, the tree a commit
/// records, the tree of the commit a tag names; a blob leads to none.
pub fn tree_lead(object: Object) -> (r: TreeLead)
    ensures
        match object {
            Object::Tree(t) => r matches TreeLead::Here(u) && u == t,
            Object::Commit(c) => r matches TreeLead::TreeNamed(x) && x@ == c.tree_id@,
            Object::Tag(g) => r matches TreeLead::CommitNamed(x) && x@ == g.object_id@,
            Object::Blob(_) => r is NoTree,
        },
{
    match object {
        Object::Tree(tree) => TreeLead::Here(tree),
        Object::Commit(commit) => TreeLead::TreeNamed(commit.tree_id),
        Object::Tag(tag) => TreeLead::CommitNamed(tag.object_id),
        Object::Blob(_) => TreeLead::NoTree,
    }
}

/// The tree that an object leads to, as `tree_lead` says, read from the store, and the tree's
/// name. A blob gives `InvalidTreeish`; a failed read gives `OdbReadFailed`.
pub fn tree_of_object<T: IOdb>(odb: &T, id: ObjectId) -> (r: Result<(Tree, ObjectId), Error>)
    ensures
        odb.obeys_store_laws() ==> (r matches Ok((t, x)) ==> leads_to_tree(odb, id@, x@)
            && odb.object_at(x@) == Some(ObjectV::Tree(t@))),
        odb.obeys_store_laws() ==> (r matches Err(Error::InvalidTreeish) ==> odb.object_at(id@) matches Some(
            ObjectV::Blob(_),
        )),
        odb.obeys_store_laws() ==> (odb.object_at(id@) matches Some(ObjectV::Blob(_)) ==> r is Err),
        r matches Err(e) ==> e is OdbReadFailed || e is InvalidTreeish,
{
    let object = match odb.read_object(id) {
        Ok(o) => o,
        Err(e) => return Err(Error::OdbReadFailed(e)),
    };
    match tree_lead(object) {
        TreeLead::Here(tree) => Ok((tree, id)),
        TreeLead::TreeNamed(tree_id) => match odb.read_tree(tree_id) {
            Ok(tree) => Ok((tree, tree_id)),
            Err(e) => Err(Error::OdbReadFailed(e)),
        },
        TreeLead::CommitNamed(commit_id) => tree_of_commit(odb, commit_id),
        TreeLead::NoTree => Err(Error::InvalidTreeish),
    }
}

} // verus!
