use vstd::prelude::*;

use crate::blob::Blob;
use crate::bytes::{bytes_eq, compare_bytes, push_all, seq_lt, to_vec};
use crate::commit::Commit;
use crate::diff::Status as FileStatus;
use crate::diff3::{chunks_view, Chunk, ChunkV, Diff3};
use crate::merge_base::{find_merge_bases, Error as MergeBaseError};
use crate::myers::{max_lines, LineV};
use crate::object_db::{keeps, keeps_lawfully, Error as OdbError, IOdb, ObjectV};
use crate::object_id::ObjectId;
use crate::tree::{flat, flat_listing, flatten_tree, walk_items_view, Error as TreeError, WalkItemV};
use crate::{mode_number, FileMode};

verus! {

/// Why two commits could not be merged.
#[derive(Debug)]
pub enum Error {
    OdbReadFailed(OdbError),
    OdbWriteFailed(OdbError),
    CannotComputeMergeBase(MergeBaseError),
    CannotCreateIterator(TreeError),
    IteratorAdvanceFailed(TreeError),
    MergeConflict,
    NoMergeBase,
    UnsupportedMode(u32),
    TooLarge,
    MergeTooDeep,
}

/// A file of a merge: its kind, its path, its object and its flags.
#[derive(Debug, Clone, PartialEq, Eq)]
pub struct TreeEntry {
    pub mode: FileMode,
    pub filename: Vec<u8>,
    pub id: ObjectId,
    pub flags: u16,
}

pub type MergeEntryV = (FileMode, Seq<u8>, Seq<u8>, u16);

impl View for TreeEntry {
    type V = MergeEntryV;

    open spec fn view(&self) -> MergeEntryV {
        (self.mode, self.filename@, self.id@, self.flags)
    }
}

pub open spec fn opt_view(e: Option<TreeEntry>) -> Option<MergeEntryV> {
    match e {
        Some(x) => Some(x@),
        None => None,
    }
}

/// A path of a merged index: merged, or in conflict with what each side has.
#[derive(Debug, Clone, PartialEq, Eq)]
pub enum IndexEntry {
    Normal(TreeEntry),
    Conflict { o: Option<TreeEntry>, a: Option<TreeEntry>, b: Option<TreeEntry> },
}

/// The path of an entry: its own, or that of the first side that has the file.
pub open spec fn entry_name(e: IndexEntry) -> Option<Seq<u8>> {
    match e {
        IndexEntry::Normal(t) => Some(t.filename@),
        IndexEntry::Conflict { o, a, b } => match (o, a, b) {
            (Some(x), _, _) => Some(x.filename@),
            (_, Some(x), _) => Some(x.filename@),
            (_, _, Some(x)) => Some(x.filename@),
            _ => None,
        },
    }
}

impl IndexEntry {
    fn filename(&self) -> (r: &[u8])
        requires
            entry_name(*self) is Some,
        ensures
            r@ == entry_name(*self).unwrap(),
    {
        match self {
            IndexEntry::Normal(e) => e.filename.as_slice(),
            IndexEntry::Conflict { o, a, b } => match o {
                Some(x) => x.filename.as_slice(),
                None => match a {
                    Some(x) => x.filename.as_slice(),
                    None => match b {
                        Some(x) => x.filename.as_slice(),
                        None => {
                            assert(false);
                            &[]
                        },
                    },
                },
            },
        }
    }
}

/// The result of a merge: entries in path order.
#[derive(Debug, Clone, PartialEq, Eq)]
pub struct InMemoryIndex {
    pub entries: Vec<IndexEntry>,
}

/// A commit that exists only during a merge: the merge of several bases.
pub struct InMemoryCommit {
    pub parents: Vec<ObjectId>,
    pub index: InMemoryIndex,
}

/// A commit to merge: stored, or made during the merge.
pub enum Elem {
    CommitFromOdb { commit: Commit, id: ObjectId },
    InMemoryCommit(InMemoryCommit),
}

impl Elem {
    pub fn from_pair(value: (Commit, ObjectId)) -> (r: Elem)
        ensures
            r matches Elem::CommitFromOdb { commit, id } && commit == value.0 && id == value.1,
    {
        Elem::CommitFromOdb { commit: value.0, id: value.1 }
    }

    /// The commits a merge made from this one has as parents.
    fn get_parents(&self) -> (r: Vec<ObjectId>)
        ensures
            match self {
                Elem::CommitFromOdb { id, .. } => r@ == seq![*id],
                Elem::InMemoryCommit(c) => r@ == c.parents@,
            },
    {
        match self {
            Elem::CommitFromOdb { id, .. } => {
                let mut v: Vec<ObjectId> = Vec::new();
                v.push(*id);
                v
            },
            Elem::InMemoryCommit(commit) => {
                let mut v: Vec<ObjectId> = Vec::new();
                let mut i: usize = 0;
                while i < commit.parents.len()
                    invariant
                        i <= commit.parents@.len(),
                        v@ == commit.parents@.take(i as int),
                    decreases commit.parents@.len() - i,
                {
                    v.push(commit.parents[i]);
                    assert(v@ =~= commit.parents@.take(i + 1));
                    i = i + 1;
                }
                assert(commit.parents@.take(commit.parents@.len() as int) =~= commit.parents@);
                v
            },
        }
    }
}

/// How a file changed from the base to a side: its type, its object, or its presence.
pub open spec fn status_between(base: Option<MergeEntryV>, other: Option<MergeEntryV>) -> FileStatus {
    match (base, other) {
        (Some(o), Some(a)) => if (o.0 == FileMode::Tree) != (a.0 == FileMode::Tree) {
            FileStatus::TypeChanged
        } else if o.2 != a.2 {
            FileStatus::Modified
        } else {
            FileStatus::Unmodified
        },
        (Some(_), None) => FileStatus::Deleted,
        (None, Some(_)) => FileStatus::Added,
        (None, None) => FileStatus::Unmodified,
    }
}

fn from_base_and_other(base: &Option<TreeEntry>, other: &Option<TreeEntry>) -> (r: FileStatus)
    ensures
        r == status_between(opt_view(*base), opt_view(*other)),
{
    match (base, other) {
        (Some(o), Some(a)) => get_status_between(o, a),
        (Some(_), None) => FileStatus::Deleted,
        (None, Some(_)) => FileStatus::Added,
        (None, None) => FileStatus::Unmodified,
    }
}

fn get_status_between(a: &TreeEntry, b: &TreeEntry) -> (r: FileStatus)
    ensures
        r == status_between(Some(a@), Some(b@)),
{
    if a.mode.is_tree() != b.mode.is_tree() {
        FileStatus::TypeChanged
    } else if !(a.id == b.id) {
        FileStatus::Modified
    } else {
        FileStatus::Unmodified
    }
}

/// One path seen from the base and both sides, with how each side changed it.
#[derive(Debug, Clone)]
struct MergeDiff {
    o: Option<TreeEntry>,
    a: Option<TreeEntry>,
    status_o_to_a: FileStatus,
    b: Option<TreeEntry>,
    status_o_to_b: FileStatus,
}

/// Paths that merge without thought, and those that need it.
struct DiffList {
    staged: Vec<TreeEntry>,
    conflicts: Vec<MergeDiff>,
}

impl DiffList {
    fn new() -> (r: DiffList)
        ensures
            r.staged@.len() == 0,
            r.conflicts@.len() == 0,
    {
        DiffList { staged: Vec::new(), conflicts: Vec::new() }
    }

    /// A path that all three have unchanged is staged; any other goes on to be resolved.
    fn add(&mut self, o: Option<TreeEntry>, a: Option<TreeEntry>, b: Option<TreeEntry>)
        ensures
            ({
                let sa = status_between(opt_view(o), opt_view(a));
                let sb = status_between(opt_view(o), opt_view(b));
                if o is Some && a is Some && b is Some && sa == FileStatus::Unmodified && sb
                    == FileStatus::Unmodified {
                    final(self).staged@ == old(self).staged@.push(o.unwrap())
                        && final(self).conflicts@ == old(self).conflicts@
                } else {
                    final(self).staged@ == old(self).staged@ && final(self).conflicts@.len()
                        == old(self).conflicts@.len() + 1 && final(self).conflicts@.last()
                        == (MergeDiff { o, a, status_o_to_a: sa, b, status_o_to_b: sb })
                        && final(self).conflicts@.drop_last() == old(self).conflicts@
                }
            }),
    {
        let status_a = from_base_and_other(&o, &a);
        let status_b = from_base_and_other(&o, &b);
        if o.is_some() && a.is_some() && b.is_some() && status_a == FileStatus::Unmodified && status_b
            == FileStatus::Unmodified {
            self.staged.push(o.unwrap());
        } else {
            self.conflicts.push(MergeDiff { o, a, status_o_to_a: status_a, b, status_o_to_b: status_b });
            assert(self.conflicts@.drop_last() =~= old(self).conflicts@);
        }
    }
}

/// What becomes of a path that changed on some side.
#[derive(Debug, Clone, Copy, PartialEq, Eq, Structural)]
pub enum Resolution {
    /// The path is gone from the merge.
    Drop,
    /// The path takes what the first side has.
    TakeA,
    /// The path takes what the second side has.
    TakeB,
    /// Both sides changed the file: its lines are merged.
    MergeLines,
    /// The sides clash.
    Conflict,
}

/// The merge table, from how each side changed a path: a side that changed wins over one that
/// did not, a file deleted on a side and unchanged or deleted on the other is gone, a file
/// modified on both sides is merged line by line, and anything else is a conflict.
pub open spec fn resolution(sa: FileStatus, sb: FileStatus) -> Resolution {
    match (sa, sb) {
        (FileStatus::Unmodified, FileStatus::Deleted)
        | (FileStatus::Deleted, FileStatus::Unmodified)
        | (FileStatus::Deleted, FileStatus::Deleted) => Resolution::Drop,
        (FileStatus::Unmodified, FileStatus::Modified)
        | (FileStatus::Unmodified, FileStatus::Added) => Resolution::TakeB,
        (FileStatus::Modified, FileStatus::Unmodified)
        | (FileStatus::Added, FileStatus::Unmodified) => Resolution::TakeA,
        (FileStatus::Modified, FileStatus::Modified) => Resolution::MergeLines,
        _ => Resolution::Conflict,
    }
}

/// The merge table with its sides swapped.
pub open spec fn mirrored(r: Resolution) -> Resolution {
    match r {
        Resolution::TakeA => Resolution::TakeB,
        Resolution::TakeB => Resolution::TakeA,
        _ => r,
    }
}

/// A side changed the file: it added or modified it.
pub open spec fn changes(s: FileStatus) -> bool {
    s == FileStatus::Added || s == FileStatus::Modified
}

/// The laws of the merge table. The sides are treated alike: swapping them swaps what is
/// taken. A side's version is taken only where that side changed the file and the other left
/// it as it was, and every such path takes the changed side. A path goes only where no side
/// keeps a change, and goes where one side or both deleted it and the other left it. Lines are
/// merged exactly where both sides modified the file. A side deleting what the other changed
/// clashes.
pub proof fn lemma_resolution_laws(sa: FileStatus, sb: FileStatus)
    ensures
        resolution(sb, sa) == mirrored(resolution(sa, sb)),
        resolution(sa, sb) == Resolution::TakeA <==> changes(sa) && sb == FileStatus::Unmodified,
        resolution(sa, sb) == Resolution::TakeB <==> sa == FileStatus::Unmodified && changes(sb),
        resolution(sa, sb) == Resolution::Drop ==> !changes(sa) && !changes(sb) && (sa
            == FileStatus::Deleted || sb == FileStatus::Deleted),
        (sa == FileStatus::Deleted && sb == FileStatus::Unmodified) || (sa == FileStatus::Unmodified
            && sb == FileStatus::Deleted) ==> resolution(sa, sb) == Resolution::Drop,
        resolution(sa, sb) == Resolution::MergeLines <==> sa == FileStatus::Modified && sb
            == FileStatus::Modified,
        sa == FileStatus::Deleted && sb == FileStatus::Deleted ==> resolution(sa, sb) == Resolution::Drop,
        (sa == FileStatus::Deleted && changes(sb)) || (changes(sa) && sb == FileStatus::Deleted)
            ==> resolution(sa, sb) == Resolution::Conflict,
{
}

/// Looks up the merge table.
pub fn resolve(sa: FileStatus, sb: FileStatus) -> (r: Resolution)
    ensures
        r == resolution(sa, sb),
{
    match (sa, sb) {
        (FileStatus::Unmodified, FileStatus::Deleted)
        | (FileStatus::Deleted, FileStatus::Unmodified)
        | (FileStatus::Deleted, FileStatus::Deleted) => Resolution::Drop,
        (FileStatus::Unmodified, FileStatus::Modified)
        | (FileStatus::Unmodified, FileStatus::Added) => Resolution::TakeB,
        (FileStatus::Modified, FileStatus::Unmodified)
        | (FileStatus::Added, FileStatus::Unmodified) => Resolution::TakeA,
        (FileStatus::Modified, FileStatus::Modified) => Resolution::MergeLines,
        _ => Resolution::Conflict,
    }
}

/// A path seen from the base and both sides.
pub type TripleV = (Option<MergeEntryV>, Option<MergeEntryV>, Option<MergeEntryV>);

/// What the table says of a path.
pub open spec fn triple_resolution(t: TripleV) -> Resolution {
    resolution(status_between(t.0, t.1), status_between(t.0, t.2))
}

/// A path all three have, unchanged on both sides.
pub open spec fn is_unchanged(t: TripleV) -> bool {
    &&& t.0 is Some && t.1 is Some && t.2 is Some
    &&& status_between(t.0, t.1) == FileStatus::Unmodified
    &&& status_between(t.0, t.2) == FileStatus::Unmodified
}

/// The base's entries of the paths unchanged on both sides.
pub open spec fn staged_of(ts: Seq<TripleV>) -> Seq<MergeEntryV>
    decreases ts.len(),
{
    if ts.len() == 0 {
        seq![]
    } else if is_unchanged(ts.last()) {
        staged_of(ts.drop_last()).push(ts.last().0.unwrap())
    } else {
        staged_of(ts.drop_last())
    }
}

/// The paths changed on some side.
pub open spec fn pending_of(ts: Seq<TripleV>) -> Seq<TripleV>
    decreases ts.len(),
{
    if ts.len() == 0 {
        seq![]
    } else if is_unchanged(ts.last()) {
        pending_of(ts.drop_last())
    } else {
        pending_of(ts.drop_last()).push(ts.last())
    }
}

/// `e` records a clash between what the base and the sides have of a path.
pub open spec fn conflict_of(t: TripleV, e: IndexEntry) -> bool {
    e matches IndexEntry::Conflict { o, a, b } && opt_view(o) == t.0 && opt_view(a) == t.1
        && opt_view(b) == t.2
}

/// `e` is what the table makes of a changed path: the side taken, a clash, or, for a file
/// modified on both sides, either a clash or a file of the base's kind and path whose lines
/// were merged.
pub open spec fn settles(t: TripleV, e: IndexEntry) -> bool {
    match triple_resolution(t) {
        Resolution::Drop => false,
        Resolution::TakeA => e matches IndexEntry::Normal(x) && t.1 == Some(x@),
        Resolution::TakeB => e matches IndexEntry::Normal(x) && t.2 == Some(x@),
        Resolution::MergeLines => conflict_of(t, e) || (e matches IndexEntry::Normal(x) && t.0
            matches Some(o) && x.mode == o.0 && x.filename@ == o.1 && x.flags == 0),
        Resolution::Conflict => conflict_of(t, e),
    }
}

/// `e` is the unchanged entry `m`.
pub open spec fn is_normal_of(e: IndexEntry, m: MergeEntryV) -> bool {
    e matches IndexEntry::Normal(x) && x@ == m
}

/// `e` is what the table makes of one of the first `n` changed paths.
pub open spec fn settles_one_of(pending: Seq<TripleV>, n: int, e: IndexEntry) -> bool {
    exists|j: int| 0 <= j < n && #[trigger] settles(pending[j], e)
}

/// `e` is one of the unchanged entries.
pub open spec fn keeps_one_of(staged: Seq<MergeEntryV>, e: IndexEntry) -> bool {
    exists|j: int| 0 <= j < staged.len() && #[trigger] is_normal_of(e, staged[j])
}

/// Some entry of `out` is what the table makes of `t`.
pub open spec fn settled_in(out: Seq<IndexEntry>, t: TripleV) -> bool {
    exists|k: int| 0 <= k < out.len() && #[trigger] settles(t, out[k])
}

/// Some entry of `out` is the unchanged entry `m`.
pub open spec fn kept_in(out: Seq<IndexEntry>, m: MergeEntryV) -> bool {
    exists|k: int| 0 <= k < out.len() && #[trigger] is_normal_of(out[k], m)
}

/// `out` is made of the changed paths, each as the table settles it, and the unchanged ones:
/// each entry comes from one of them, and each of them that is not dropped has an entry.
pub open spec fn merged_from(pending: Seq<TripleV>, staged: Seq<MergeEntryV>, out: Seq<IndexEntry>) -> bool {
    &&& forall|k: int| 0 <= k < out.len() ==> settles_one_of(pending, pending.len() as int, #[trigger] out[k])
        || keeps_one_of(staged, out[k])
    &&& forall|j: int| 0 <= j < pending.len() && triple_resolution(#[trigger] pending[j]) != Resolution::Drop
        ==> settled_in(out, pending[j])
    &&& forall|j: int| 0 <= j < staged.len() ==> kept_in(out, #[trigger] staged[j])
}

/// The merge of three path-ordered listings, base first.
pub open spec fn merge_of(l0: Seq<MergeEntryV>, l1: Seq<MergeEntryV>, l2: Seq<MergeEntryV>, out: Seq<IndexEntry>) -> bool {
    let ts = align_spec(l0, l1, l2);
    merged_from(pending_of(ts), staged_of(ts), out)
}

/// The paths and their versions that a list of changed paths holds.
spec fn conflict_triples(cs: Seq<MergeDiff>) -> Seq<TripleV> {
    cs.map_values(|d: MergeDiff| (opt_view(d.o), opt_view(d.a), opt_view(d.b)))
}

/// `out` holds the settled forms of the first `n` changed paths.
spec fn settled_prefix(pending: Seq<TripleV>, n: int, out: Seq<IndexEntry>) -> bool {
    &&& forall|k: int| 0 <= k < out.len() ==> settles_one_of(pending, n, #[trigger] out[k])
    &&& forall|j: int| 0 <= j < n && triple_resolution(#[trigger] pending[j]) != Resolution::Drop
        ==> settled_in(out, pending[j])
}

proof fn lemma_settled_prefix_step(pending: Seq<TripleV>, n: int, prev: Seq<IndexEntry>, out: Seq<IndexEntry>)
    requires
        0 <= n < pending.len(),
        settled_prefix(pending, n, prev),
        (out == prev && triple_resolution(pending[n]) == Resolution::Drop) || (exists|e: IndexEntry|
            out == prev.push(e) && #[trigger] settles(pending[n], e)),
    ensures
        settled_prefix(pending, n + 1, out),
{
    if out != prev {
        let e = choose|e: IndexEntry| out == prev.push(e) && #[trigger] settles(pending[n], e);
        assert(out[prev.len() as int] == e);
        assert(settled_in(out, pending[n]));
    }
    assert forall|k: int| 0 <= k < out.len() implies settles_one_of(pending, n + 1, #[trigger] out[k]) by {
        if k < prev.len() {
            assert(out[k] == prev[k]);
            assert(settles_one_of(pending, n, prev[k]));
            let j = choose|j: int| 0 <= j < n && #[trigger] settles(pending[j], prev[k]);
            assert(settles(pending[j], out[k]));
        } else {
            assert(settles(pending[n], out[k]));
        }
    }
    assert forall|j: int| 0 <= j < n + 1 && triple_resolution(#[trigger] pending[j]) != Resolution::Drop
        implies settled_in(out, pending[j]) by {
        if j < n {
            assert(settled_in(prev, pending[j]));
            let k = choose|k: int| 0 <= k < prev.len() && #[trigger] settles(pending[j], prev[k]);
            assert(out[k] == prev[k]);
            assert(settles(pending[j], out[k]));
        }
    }
}

/// The settled changed paths followed by the unchanged ones make a merge.
proof fn lemma_merged_from_parts(
    pending: Seq<TripleV>,
    staged: Seq<MergeEntryV>,
    first: Seq<IndexEntry>,
    m: int,
    out: Seq<IndexEntry>,
)
    requires
        settled_prefix(pending, pending.len() as int, first),
        m == staged.len(),
        out.len() == first.len() + m,
        forall|k: int| 0 <= k < first.len() ==> out[k] == first[k],
        forall|q: int| 0 <= q < m ==> is_normal_of(#[trigger] out[first.len() + q], staged[q]),
    ensures
        merged_from(pending, staged, out),
{
    assert forall|k: int| 0 <= k < out.len() implies settles_one_of(pending, pending.len() as int, #[trigger] out[k])
        || keeps_one_of(staged, out[k]) by {
        if k < first.len() {
            assert(out[k] == first[k]);
            assert(settles_one_of(pending, pending.len() as int, first[k]));
        } else {
            let q = k - first.len();
            assert(out[first.len() + q] == out[k]);
            assert(is_normal_of(out[k], staged[q]));
        }
    }
    assert forall|j: int| 0 <= j < pending.len() && triple_resolution(#[trigger] pending[j]) != Resolution::Drop
        implies settled_in(out, pending[j]) by {
        assert(settled_in(first, pending[j]));
        let k = choose|k: int| 0 <= k < first.len() && #[trigger] settles(pending[j], first[k]);
        assert(out[k] == first[k]);
        assert(settles(pending[j], out[k]));
    }
    assert forall|j: int| 0 <= j < staged.len() implies kept_in(out, #[trigger] staged[j]) by {
        assert(is_normal_of(out[first.len() + j], staged[j]));
    }
}

/// Reordering the entries of a merge keeps it a merge of the same paths.
proof fn lemma_merged_from_permuted(
    pending: Seq<TripleV>,
    staged: Seq<MergeEntryV>,
    a: Seq<IndexEntry>,
    b: Seq<IndexEntry>,
)
    requires
        merged_from(pending, staged, a),
        a.to_multiset() == b.to_multiset(),
    ensures
        merged_from(pending, staged, b),
{
    assert forall|k: int| 0 <= k < b.len() implies settles_one_of(pending, pending.len() as int, #[trigger] b[k])
        || keeps_one_of(staged, b[k]) by {
        crate::merge_base::lemma_member_of_same_multiset(b, a, k);
        let i = choose|i: int| 0 <= i < a.len() && a[i] == b[k];
        assert(settles_one_of(pending, pending.len() as int, a[i]) || keeps_one_of(staged, a[i]));
    }
    assert forall|j: int| 0 <= j < pending.len() && triple_resolution(#[trigger] pending[j]) != Resolution::Drop
        implies settled_in(b, pending[j]) by {
        assert(settled_in(a, pending[j]));
        let i = choose|i: int| 0 <= i < a.len() && #[trigger] settles(pending[j], a[i]);
        crate::merge_base::lemma_member_of_same_multiset(a, b, i);
        let k = choose|k: int| 0 <= k < b.len() && b[k] == a[i];
        assert(settles(pending[j], b[k]));
    }
    assert forall|j: int| 0 <= j < staged.len() implies kept_in(b, #[trigger] staged[j]) by {
        assert(kept_in(a, staged[j]));
        let i = choose|i: int| 0 <= i < a.len() && #[trigger] is_normal_of(a[i], staged[j]);
        crate::merge_base::lemma_member_of_same_multiset(a, b, i);
        let k = choose|k: int| 0 <= k < b.len() && b[k] == a[i];
        assert(is_normal_of(b[k], staged[j]));
    }
}

/// The text of the lines.
pub open spec fn lines_text(ls: Seq<LineV>) -> Seq<u8>
    decreases ls.len(),
{
    if ls.len() == 0 {
        seq![]
    } else {
        lines_text(ls.drop_last()) + ls.last().1
    }
}

/// The text of a merge with no conflict: the lines of its chunks one after the other; none
/// when a chunk is a conflict.
pub open spec fn fold_spec(cs: Seq<ChunkV>) -> Option<Seq<u8>>
    decreases cs.len(),
{
    if cs.len() == 0 {
        Some(seq![])
    } else {
        match fold_spec(cs.drop_last()) {
            None => None,
            Some(t) => if cs.last().0 {
                None
            } else {
                Some(t + lines_text(cs.last().1))
            },
        }
    }
}

proof fn lemma_fold_none(cs: Seq<ChunkV>, more: Seq<ChunkV>)
    requires
        fold_spec(cs) is None,
    ensures
        fold_spec(cs + more) is None,
    decreases more.len(),
{
    if more.len() > 0 {
        lemma_fold_none(cs, more.drop_last());
        assert((cs + more).drop_last() =~= cs + more.drop_last());
    } else {
        assert(cs + more =~= cs);
    }
}

/// The text of a merge with no conflict.
pub fn try_fold_no_conflicts(chunks: Vec<Chunk>) -> (r: Option<Vec<u8>>)
    ensures
        match fold_spec(chunks_view(chunks@)) {
            Some(t) => r matches Some(v) && v@ == t,
            None => r is None,
        },
{
    let ghost cv = chunks_view(chunks@);
    let mut buffer: Vec<u8> = Vec::new();
    let mut i: usize = 0;
    assert(cv.take(0) =~= Seq::<ChunkV>::empty());
    while i < chunks.len()
        invariant
            cv == chunks_view(chunks@),
            i <= chunks@.len(),
            fold_spec(cv.take(i as int)) == Some(buffer@),
        decreases chunks@.len() - i,
    {
        assert(cv.take(i + 1).drop_last() =~= cv.take(i as int));
        assert(cv.take(i + 1).last() == chunks@[i as int]@);
        match &chunks[i] {
            Chunk::Normal(lines) => {
                let mut k: usize = 0;
                let ghost start = buffer@;
                let ghost lv = chunks@[i as int]@.1;
                assert(lv.take(0) =~= Seq::<LineV>::empty());
                while k < lines.len()
                    invariant
                        k <= lines@.len(),
                        lv == crate::myers::lines_view(lines@),
                        buffer@ == start + lines_text(lv.take(k as int)),
                    decreases lines@.len() - k,
                {
                    assert(lv.take(k + 1).drop_last() =~= lv.take(k as int));
                    push_all(&mut buffer, lines[k].1.as_slice());
                    assert(buffer@ =~= start + lines_text(lv.take(k + 1)));
                    k = k + 1;
                }
                assert(lv.take(lines@.len() as int) =~= lv);
            },
            Chunk::Conflict { .. } => {
                proof {
                    lemma_fold_none(cv.take(i + 1), cv.skip(i + 1));
                    assert(cv.take(i + 1) + cv.skip(i + 1) =~= cv);
                }
                return None;
            },
        }
        i = i + 1;
    }
    assert(cv.take(chunks@.len() as int) =~= cv);
    Some(buffer)
}

/// The first path in order among the heads of three runs.
pub open spec fn min_head(l0: Seq<MergeEntryV>, l1: Seq<MergeEntryV>, l2: Seq<MergeEntryV>) -> Option<
    Seq<u8>,
> {
    let m0: Option<Seq<u8>> = if l0.len() > 0 {
        Some(l0[0].1)
    } else {
        None
    };
    let m1: Option<Seq<u8>> = if l1.len() > 0 && (m0 is None || seq_lt(l1[0].1, m0.unwrap())) {
        Some(l1[0].1)
    } else {
        m0
    };
    if l2.len() > 0 && (m1 is None || seq_lt(l2[0].1, m1.unwrap())) {
        Some(l2[0].1)
    } else {
        m1
    }
}

pub open spec fn head_at(l: Seq<MergeEntryV>, m: Seq<u8>) -> Option<MergeEntryV> {
    if l.len() > 0 && l[0].1 == m {
        Some(l[0])
    } else {
        None
    }
}

pub open spec fn rest_after(l: Seq<MergeEntryV>, m: Seq<u8>) -> Seq<MergeEntryV> {
    if l.len() > 0 && l[0].1 == m {
        l.drop_first()
    } else {
        l
    }
}

/// Three walks in path order, lined up path by path: at each step the first path among the
/// heads, and the entry of each walk that has it.
pub open spec fn align_spec(l0: Seq<MergeEntryV>, l1: Seq<MergeEntryV>, l2: Seq<MergeEntryV>) -> Seq<
    (Option<MergeEntryV>, Option<MergeEntryV>, Option<MergeEntryV>),
>
    decreases l0.len() + l1.len() + l2.len(),
{
    match min_head(l0, l1, l2) {
        None => seq![],
        Some(m) => {
            let (r0, r1, r2) = (rest_after(l0, m), rest_after(l1, m), rest_after(l2, m));
            if r0.len() + r1.len() + r2.len() < l0.len() + l1.len() + l2.len() {
                seq![(head_at(l0, m), head_at(l1, m), head_at(l2, m))] + align_spec(r0, r1, r2)
            } else {
                seq![]
            }
        },
    }
}

pub open spec fn entries_of(v: Seq<TreeEntry>) -> Seq<MergeEntryV> {
    v.map_values(|e: TreeEntry| e@)
}

pub open spec fn triples_view(v: Seq<(Option<TreeEntry>, Option<TreeEntry>, Option<TreeEntry>)>) -> Seq<
    (Option<MergeEntryV>, Option<MergeEntryV>, Option<MergeEntryV>),
> {
    v.map_values(
        |t: (Option<TreeEntry>, Option<TreeEntry>, Option<TreeEntry>)|
            (opt_view(t.0), opt_view(t.1), opt_view(t.2)),
    )
}

proof fn lemma_min_head(l0: Seq<MergeEntryV>, l1: Seq<MergeEntryV>, l2: Seq<MergeEntryV>)
    ensures
        min_head(l0, l1, l2) is None <==> (l0.len() == 0 && l1.len() == 0 && l2.len() == 0),
        min_head(l0, l1, l2) matches Some(m) ==> (rest_after(l0, m).len() + rest_after(l1, m).len()
            + rest_after(l2, m).len() < l0.len() + l1.len() + l2.len()),
{
}

/// Every path lined up is held by one walk at least.
proof fn lemma_align_some(l0: Seq<MergeEntryV>, l1: Seq<MergeEntryV>, l2: Seq<MergeEntryV>)
    ensures
        forall|k: int| 0 <= k < align_spec(l0, l1, l2).len() ==> {
            let t = #[trigger] align_spec(l0, l1, l2)[k];
            t.0 is Some || t.1 is Some || t.2 is Some
        },
    decreases l0.len() + l1.len() + l2.len(),
{
    lemma_min_head(l0, l1, l2);
    match min_head(l0, l1, l2) {
        None => {},
        Some(m) => {
            let (r0, r1, r2) = (rest_after(l0, m), rest_after(l1, m), rest_after(l2, m));
            lemma_align_some(r0, r1, r2);
            let a = align_spec(l0, l1, l2);
            let t0 = (head_at(l0, m), head_at(l1, m), head_at(l2, m));
            assert(t0.0 is Some || t0.1 is Some || t0.2 is Some);
            assert forall|k: int| 0 <= k < a.len() implies {
                let t = #[trigger] a[k];
                t.0 is Some || t.1 is Some || t.2 is Some
            } by {
                if k > 0 {
                    assert(a[k] == align_spec(r0, r1, r2)[k - 1]);
                }
            }
        },
    }
}

/// Lines up three walks path by path.
fn walk_iterators(l0: &[TreeEntry], l1: &[TreeEntry], l2: &[TreeEntry]) -> (r: Vec<
    (Option<TreeEntry>, Option<TreeEntry>, Option<TreeEntry>),
>)
    ensures
        triples_view(r@) == align_spec(entries_of(l0@), entries_of(l1@), entries_of(l2@)),
{
    let ghost a0 = entries_of(l0@);
    let ghost a1 = entries_of(l1@);
    let ghost a2 = entries_of(l2@);
    let mut out: Vec<(Option<TreeEntry>, Option<TreeEntry>, Option<TreeEntry>)> = Vec::new();
    let mut i0: usize = 0;
    let mut i1: usize = 0;
    let mut i2: usize = 0;
    assert(a0.skip(0) =~= a0 && a1.skip(0) =~= a1 && a2.skip(0) =~= a2);
    assert(triples_view(out@) + align_spec(a0, a1, a2) =~= align_spec(a0, a1, a2));
    loop
        invariant
            a0 == entries_of(l0@),
            a1 == entries_of(l1@),
            a2 == entries_of(l2@),
            i0 <= l0@.len(),
            i1 <= l1@.len(),
            i2 <= l2@.len(),
            triples_view(out@) + align_spec(a0.skip(i0 as int), a1.skip(i1 as int), a2.skip(i2 as int))
                == align_spec(a0, a1, a2),
        ensures
            i0 == l0@.len() && i1 == l1@.len() && i2 == l2@.len(),
            triples_view(out@) + align_spec(a0.skip(i0 as int), a1.skip(i1 as int), a2.skip(i2 as int))
                == align_spec(a0, a1, a2),
        decreases l0@.len() + l1@.len() + l2@.len() - i0 - i1 - i2,
    {
        let ghost s0 = a0.skip(i0 as int);
        let ghost s1 = a1.skip(i1 as int);
        let ghost s2 = a2.skip(i2 as int);
        proof {
            lemma_min_head(s0, s1, s2);
        }
        let mut m: Option<&[u8]> = None;
        if i0 < l0.len() {
            m = Some(l0[i0].filename.as_slice());
        }
        if i1 < l1.len() {
            let c = l1[i1].filename.as_slice();
            m = match m {
                None => Some(c),
                Some(x) => if compare_bytes(c, x) < 0 {
                    Some(c)
                } else {
                    Some(x)
                },
            };
        }
        if i2 < l2.len() {
            let c = l2[i2].filename.as_slice();
            m = match m {
                None => Some(c),
                Some(x) => if compare_bytes(c, x) < 0 {
                    Some(c)
                } else {
                    Some(x)
                },
            };
        }
        let name = match m {
            None => {
                assert(s0.len() == 0 && s1.len() == 0 && s2.len() == 0);
                break;
            },
            Some(x) => x,
        };
        assert(min_head(s0, s1, s2) == Some(name@));
        let t0 = if i0 < l0.len() && bytes_eq(l0[i0].filename.as_slice(), name) {
            Some(clone_entry(&l0[i0]))
        } else {
            None
        };
        let t1 = if i1 < l1.len() && bytes_eq(l1[i1].filename.as_slice(), name) {
            Some(clone_entry(&l1[i1]))
        } else {
            None
        };
        let t2 = if i2 < l2.len() && bytes_eq(l2[i2].filename.as_slice(), name) {
            Some(clone_entry(&l2[i2]))
        } else {
            None
        };
        let ghost triple = (opt_view(t0), opt_view(t1), opt_view(t2));
        assert(triple == (head_at(s0, name@), head_at(s1, name@), head_at(s2, name@)));
        if t0.is_some() {
            i0 = i0 + 1;
        }
        if t1.is_some() {
            i1 = i1 + 1;
        }
        if t2.is_some() {
            i2 = i2 + 1;
        }
        proof {
            assert(a0.skip(i0 as int) =~= rest_after(s0, name@));
            assert(a1.skip(i1 as int) =~= rest_after(s1, name@));
            assert(a2.skip(i2 as int) =~= rest_after(s2, name@));
        }
        let ghost prev = triples_view(out@);
        out.push((t0, t1, t2));
        assert(triples_view(out@) =~= prev.push(triple));
        assert(prev + align_spec(s0, s1, s2) =~= triples_view(out@) + align_spec(
            a0.skip(i0 as int),
            a1.skip(i1 as int),
            a2.skip(i2 as int),
        ));
    }
    assert(a0.skip(i0 as int) =~= Seq::<MergeEntryV>::empty());
    assert(align_spec(a0.skip(i0 as int), a1.skip(i1 as int), a2.skip(i2 as int)) == Seq::<
        (Option<MergeEntryV>, Option<MergeEntryV>, Option<MergeEntryV>),
    >::empty());
    assert(triples_view(out@) =~= align_spec(a0, a1, a2));
    out
}

/// A copy of an entry.
fn clone_entry(e: &TreeEntry) -> (r: TreeEntry)
    ensures
        r@ == e@,
{
    TreeEntry { mode: e.mode, filename: to_vec(e.filename.as_slice()), id: e.id, flags: e.flags }
}


/// A path with one side at least, whose statuses say how each side changed the base.
spec fn diff_wf(d: MergeDiff) -> bool {
    &&& (d.o is Some || d.a is Some || d.b is Some)
    &&& d.status_o_to_a == status_between(opt_view(d.o), opt_view(d.a))
    &&& d.status_o_to_b == status_between(opt_view(d.o), opt_view(d.b))
}

spec fn list_wf(l: DiffList) -> bool {
    forall|k: int| 0 <= k < l.conflicts@.len() ==> diff_wf(#[trigger] l.conflicts@[k])
}

/// Entries in path order, each with a path.
pub open spec fn sorted_entries(es: Seq<IndexEntry>) -> bool {
    &&& forall|k: int| 0 <= k < es.len() ==> (#[trigger] entry_name(es[k])) is Some
    &&& forall|a: int, b: int|
        0 <= a < b < es.len() ==> !seq_lt(
            #[trigger] entry_name(es[b]).unwrap(),
            #[trigger] entry_name(es[a]).unwrap(),
        )
}

/// Sorts entries by path, keeping the order of equal paths.
fn sort_by_filename(v: Vec<IndexEntry>) -> (r: Vec<IndexEntry>)
    requires
        forall|k: int| 0 <= k < v@.len() ==> (#[trigger] entry_name(v@[k])) is Some,
    ensures
        sorted_entries(r@),
        r@.to_multiset() == v@.to_multiset(),
{
    let mut out: Vec<IndexEntry> = Vec::new();
    let mut rest = v;
    let ghost whole = v@.to_multiset();
    proof {
        broadcast use vstd::multiset::group_multiset_axioms;
        vstd::seq_lib::to_multiset_len(out@);
        vstd::multiset::lemma_multiset_empty_len(out@.to_multiset());
        assert(out@.to_multiset().add(rest@.to_multiset()) =~= whole);
    }
    while rest.len() > 0
        invariant
            sorted_entries(out@),
            out@.to_multiset().add(rest@.to_multiset()) == whole,
            forall|k: int| 0 <= k < rest@.len() ==> (#[trigger] entry_name(rest@[k])) is Some,
        decreases rest@.len(),
    {
        let ghost before = rest@;
        let item = rest.remove(0);
        proof {
            before.to_multiset_ensures();
            assert(before.remove(0) == rest@);
        }
        assert(entry_name(before[0]) is Some);
        assert forall|k: int| 0 <= k < rest@.len() implies (#[trigger] entry_name(rest@[k])) is Some by {
            assert(rest@[k] == before[k + 1]);
        }
        let mut pos: usize = 0;
        while pos < out.len() && compare_bytes(item.filename(), out[pos].filename()) >= 0
            invariant
                pos <= out@.len(),
                sorted_entries(out@),
                entry_name(item) is Some,
                forall|a: int| 0 <= a < pos ==> !seq_lt(entry_name(item).unwrap(), #[trigger] entry_name(out@[a]).unwrap()),
            decreases out@.len() - pos,
        {
            pos = pos + 1;
        }
        let ghost prev = out@;
        let ghost n = entry_name(item).unwrap();
        proof {
            if pos < prev.len() {
                assert(seq_lt(n, entry_name(prev[pos as int]).unwrap()));
            }
        }
        out.insert(pos, item);
        proof {
            broadcast use vstd::multiset::group_multiset_axioms;
            vstd::seq_lib::to_multiset_insert(prev, pos as int, item);
            assert(out@.to_multiset().add(rest@.to_multiset()) =~= whole);
        }
        assert forall|k: int| 0 <= k < out@.len() implies (#[trigger] entry_name(out@[k])) is Some by {
            if k < pos {
                assert(out@[k] == prev[k]);
            } else if k > pos {
                assert(out@[k] == prev[k - 1]);
            }
        }
        assert forall|a: int, b: int| 0 <= a < b < out@.len() implies !seq_lt(
            #[trigger] entry_name(out@[b]).unwrap(),
            #[trigger] entry_name(out@[a]).unwrap(),
        ) by {
            if b < pos {
                assert(out@[a] == prev[a] && out@[b] == prev[b]);
            } else if b == pos {
                assert(out@[a] == prev[a]);
            } else if a < pos {
                assert(out@[a] == prev[a] && out@[b] == prev[b - 1]);
                let x = entry_name(prev[a]).unwrap();
                let y = entry_name(prev[b - 1]).unwrap();
                let z = entry_name(prev[pos as int]).unwrap();
                if seq_lt(y, x) {
                    if b - 1 > pos {
                        crate::bytes::lemma_seq_lt_total(z, y);
                        if seq_lt(z, y) {
                            crate::bytes::lemma_seq_lt_asym(z, y);
                        }
                    }
                    if seq_lt(n, z) || b - 1 == pos as int {
                        crate::bytes::lemma_seq_lt_total(n, x);
                        crate::bytes::lemma_seq_lt_total(y, z);
                        if seq_lt(y, x) && !seq_lt(n, x) {
                            if n == x {
                                if b - 1 == pos as int {
                                    crate::bytes::lemma_seq_lt_asym(n, y);
                                } else {
                                    if seq_lt(z, y) {
                                        crate::bytes::lemma_seq_lt_transitive(n, z, y);
                                        crate::bytes::lemma_seq_lt_asym(n, y);
                                    } else if z == y {
                                        crate::bytes::lemma_seq_lt_asym(n, y);
                                    }
                                }
                            } else {
                                crate::bytes::lemma_seq_lt_transitive(y, x, n);
                                if b - 1 == pos as int {
                                    crate::bytes::lemma_seq_lt_asym(n, y);
                                } else if seq_lt(z, y) {
                                    crate::bytes::lemma_seq_lt_transitive(n, z, y);
                                    crate::bytes::lemma_seq_lt_asym(n, y);
                                } else if z == y {
                                    crate::bytes::lemma_seq_lt_asym(n, y);
                                }
                            }
                        }
                    }
                }
            } else if a == pos {
                assert(out@[b] == prev[b - 1]);
                let y = entry_name(prev[b - 1]).unwrap();
                let z = entry_name(prev[pos as int]).unwrap();
                if b - 1 > pos {
                    if seq_lt(y, n) {
                        crate::bytes::lemma_seq_lt_total(z, y);
                        if seq_lt(z, y) {
                            crate::bytes::lemma_seq_lt_transitive(n, z, y);
                            crate::bytes::lemma_seq_lt_asym(n, y);
                        } else if z == y {
                            crate::bytes::lemma_seq_lt_asym(n, y);
                        }
                    }
                } else {
                    if seq_lt(y, n) {
                        crate::bytes::lemma_seq_lt_asym(n, y);
                    }
                }
            } else {
                assert(out@[a] == prev[a - 1] && out@[b] == prev[b - 1]);
            }
        }
    }
    proof {
        broadcast use vstd::multiset::group_multiset_axioms;
        vstd::seq_lib::to_multiset_len(rest@);
        vstd::multiset::lemma_multiset_empty_len(rest@.to_multiset());
        assert(out@.to_multiset() =~= whole);
    }
    out
}


/// The kind of a file of a walk: a regular file or a directory; other modes are refused.
fn file_mode_of(mode: u32) -> (r: Result<FileMode, Error>)
    ensures
        (mode == crate::GIT_MODE_BLOB || mode == crate::GIT_MODE_TREE) ==> (r matches Ok(m)
            && mode_number(m) == mode),
        !(mode == crate::GIT_MODE_BLOB || mode == crate::GIT_MODE_TREE) ==> (r matches Err(
            Error::UnsupportedMode(x),
        ) && x == mode),
{
    if mode == crate::GIT_MODE_BLOB || mode == crate::GIT_MODE_TREE {
        Ok(FileMode::from_mode(mode))
    } else {
        Err(Error::UnsupportedMode(mode))
    }
}

/// The merged entries of an index, without its conflicts, in order.
pub open spec fn normal_entries(es: Seq<IndexEntry>) -> Seq<MergeEntryV>
    decreases es.len(),
{
    if es.len() == 0 {
        seq![]
    } else {
        let p = normal_entries(es.drop_last());
        match es.last() {
            IndexEntry::Normal(t) => p.push(t@),
            _ => p,
        }
    }
}

/// The parents that a commit made by merging this one gets from it.
pub open spec fn parents_from(e: Elem) -> Seq<ObjectId> {
    match e {
        Elem::CommitFromOdb { id, .. } => seq![id],
        Elem::InMemoryCommit(c) => c.parents@,
    }
}

/// A store that keeps another's objects keeps what that one kept.
pub proof fn lemma_keeps_trans<T: IOdb>(a: &T, b: &T, c: &T)
    requires
        keeps_lawfully(a, b),
        keeps_lawfully(b, c),
    ensures
        keeps_lawfully(a, c),
{
    if a.obeys_store_laws() {
        assert forall|x: Seq<u8>| a.object_at(x) is Some implies #[trigger] c.object_at(x) == a.object_at(x) by {
            assert(b.object_at(x) == a.object_at(x));
        }
    }
}

/// A listing of a store stays a listing of any store that keeps what that one held.
proof fn lemma_listing_kept<T: IOdb>(before: &T, after: &T, e: Elem, l: Seq<MergeEntryV>)
    requires
        keeps(before, after),
        listing_of(before, e, l),
    ensures
        listing_of(after, e, l),
{
    match e {
        Elem::CommitFromOdb { commit, .. } => {
            assert(after.object_at(commit.tree_id@) == before.object_at(commit.tree_id@));
        },
        Elem::InMemoryCommit(c) => {},
    }
}

/// Where a store that keeps another's objects holds a tree, the other held it as well, or held
/// nothing under that name.
proof fn lemma_tree_fits_earlier<T: IOdb>(before: &T, after: &T, tree_id: Seq<u8>, l: Seq<MergeEntryV>)
    requires
        keeps(before, after),
        fits_tree_of(after, tree_id, l),
        before.object_at(tree_id) is Some,
    ensures
        fits_tree_of(before, tree_id, l),
{
    assert(after.object_at(tree_id) == before.object_at(tree_id));
}

/// The path and object of each entry.
pub open spec fn file_pairs(l: Seq<MergeEntryV>) -> Seq<(Seq<u8>, Seq<u8>)> {
    l.map_values(|e: MergeEntryV| (e.1, e.2))
}

/// The path and object of each file of a walk.
pub open spec fn walk_pairs(w: Seq<WalkItemV>) -> Seq<(Seq<u8>, Seq<u8>)> {
    w.map_values(|x: WalkItemV| (x.0, x.1))
}

/// The store holds a tree under `tree_id`, and when that tree has no subdirectory, `l` lists
/// its entries, each path with its object, in order.
pub open spec fn fits_tree_of<T: IOdb>(odb: &T, tree_id: Seq<u8>, l: Seq<MergeEntryV>) -> bool {
    &&& odb.object_at(tree_id) matches Some(ObjectV::Tree(t))
    &&& flat(t) ==> file_pairs(l) == walk_pairs(flat_listing(t))
}

/// `l` is the listing of a commit to merge: for a stored commit, that of the tree the store
/// holds under its tree's name; for a commit made during the merge, its merged entries.
pub open spec fn listing_of<T: IOdb>(odb: &T, e: Elem, l: Seq<MergeEntryV>) -> bool {
    match e {
        Elem::CommitFromOdb { commit, .. } => fits_tree_of(odb, commit.tree_id@, l),
        Elem::InMemoryCommit(c) => l == normal_entries(c.index.entries@),
    }
}

/// The files of a commit to merge, in path order: the walk of a stored commit's tree, or the
/// merged entries of a commit made during the merge.
fn listing_of_elem<T: IOdb>(odb: &T, elem: &Elem) -> (r: Result<Vec<TreeEntry>, Error>)
    ensures
        elem matches Elem::InMemoryCommit(c) ==> (r matches Ok(v) && entries_of(v@) == normal_entries(
            c.index.entries@,
        )),
        odb.obeys_store_laws() ==> (r matches Ok(v) ==> listing_of(odb, *elem, entries_of(v@))),
        elem is CommitFromOdb ==> (r matches Ok(v) ==> forall|k: int| 0 <= k < v@.len() ==> mode_number(
            (#[trigger] v@[k]).mode,
        ) == crate::GIT_MODE_BLOB && v@[k].flags == 0),
{
    match elem {
        Elem::CommitFromOdb { commit, .. } => {
            let tree = match odb.read_tree(commit.tree_id) {
                Ok(t) => t,
                Err(e) => return Err(Error::CannotCreateIterator(TreeError::OdbReadFailed(e))),
            };
            if tree.entries.len() == 0 {
                return Err(Error::CannotCreateIterator(TreeError::EmptyDirs));
            }
            let ghost tv = tree@;
            let ghost stored = tree;
            let items = match flatten_tree(odb, tree) {
                Ok(v) => v,
                Err(e) => return Err(Error::IteratorAdvanceFailed(e)),
            };
            let mut out: Vec<TreeEntry> = Vec::new();
            let mut i: usize = 0;
            while i < items.len()
                invariant
                    i <= items@.len(),
                    elem is CommitFromOdb,
                    forall|k: int| 0 <= k < items@.len() ==> (#[trigger] items@[k]).2 != crate::GIT_MODE_TREE,
                    forall|k: int| 0 <= k < out@.len() ==> mode_number((#[trigger] out@[k]).mode)
                        == crate::GIT_MODE_BLOB && out@[k].flags == 0,
                out@.len() == i,
                forall|k: int| 0 <= k < out@.len() ==> (#[trigger] out@[k]).filename@ == items@[k].0@
                    && out@[k].id@ == items@[k].1@,
                odb.obeys_store_laws() ==> odb.object_at(commit.tree_id@) == Some(ObjectV::Tree(tv)),
                tv == stored@,
                flat(tv) ==> walk_items_view(items@) == flat_listing(tv),
                decreases items@.len() - i,
            {
                assert(items@[i as int].2 != crate::GIT_MODE_TREE);
                let mode = match file_mode_of(items[i].2) {
                    Ok(m) => m,
                    Err(e) => return Err(e),
                };
                let ghost prev = out@;
                out.push(
                    TreeEntry {
                        mode,
                        filename: to_vec(items[i].0.as_slice()),
                        id: items[i].1,
                        flags: 0,
                    },
                );
                assert forall|k: int| 0 <= k < out@.len() implies mode_number((#[trigger] out@[k]).mode)
                    == crate::GIT_MODE_BLOB && out@[k].flags == 0 by {
                    if k < prev.len() {
                        assert(out@[k] == prev[k]);
                    }
                }
                assert forall|k: int| 0 <= k < out@.len() implies (#[trigger] out@[k]).filename@ == items@[k].0@
                    && out@[k].id@ == items@[k].1@ by {
                    if k < prev.len() {
                        assert(out@[k] == prev[k]);
                    }
                }
                i = i + 1;
            }
            proof {
                if flat(tv) {
                    assert(file_pairs(entries_of(out@)) =~= walk_pairs(flat_listing(tv))) by {
                        assert forall|k: int| 0 <= k < out@.len() implies #[trigger] file_pairs(entries_of(out@))[k]
                            == walk_pairs(flat_listing(tv))[k] by {
                            assert(walk_items_view(items@)[k] == flat_listing(tv)[k]);
                        }
                    }
                }
            }
            Ok(out)
        },
        Elem::InMemoryCommit(commit) => {
            let entries = &commit.index.entries;
            let mut out: Vec<TreeEntry> = Vec::new();
            let mut i: usize = 0;
            while i < entries.len()
                invariant
                    i <= entries@.len(),
                    entries_of(out@) == normal_entries(entries@.take(i as int)),
                decreases entries@.len() - i,
            {
                let ghost prev = out@;
                proof {
                    assert(entries@.take(i + 1).drop_last() =~= entries@.take(i as int));
                    assert(entries@.take(i + 1).last() == entries@[i as int]);
                }
                match &entries[i] {
                    IndexEntry::Normal(e) => {
                        out.push(clone_entry(e));
                        proof {
                            assert(entries_of(out@) =~= entries_of(prev).push(e@));
                        }
                    },
                    IndexEntry::Conflict { .. } => {},
                }
                i = i + 1;
            }
            proof {
                assert(entries@.take(i as int) =~= entries@);
            }
            Ok(out)
        },
    }
}

/// A copy of an optional entry.
fn clone_opt(e: &Option<TreeEntry>) -> (r: Option<TreeEntry>)
    ensures
        opt_view(r) == opt_view(*e),
{
    match e {
        Some(x) => Some(clone_entry(x)),
        None => None,
    }
}

/// Lines up the base and both sides and sorts each path into the list.
fn merge_iterators(base: &[TreeEntry], side1: &[TreeEntry], side2: &[TreeEntry]) -> (r: DiffList)
    ensures
        list_wf(r),
        conflict_triples(r.conflicts@) == pending_of(
            align_spec(entries_of(base@), entries_of(side1@), entries_of(side2@)),
        ),
        entries_of(r.staged@) == staged_of(
            align_spec(entries_of(base@), entries_of(side1@), entries_of(side2@)),
        ),
{
    let triples = walk_iterators(base, side1, side2);
    proof {
        lemma_align_some(entries_of(base@), entries_of(side1@), entries_of(side2@));
        assert forall|k: int| 0 <= k < triples@.len() implies {
            let t = #[trigger] triples@[k];
            t.0 is Some || t.1 is Some || t.2 is Some
        } by {
            assert(triples_view(triples@)[k] == align_spec(entries_of(base@), entries_of(side1@), entries_of(side2@))[k]);
        }
    }
    let ghost tv = triples_view(triples@);
    let mut list = DiffList::new();
    let mut i: usize = 0;
    proof {
        assert(conflict_triples(list.conflicts@) =~= pending_of(tv.take(0)));
        assert(entries_of(list.staged@) =~= staged_of(tv.take(0)));
    }
    while i < triples.len()
        invariant
            i <= triples@.len(),
            tv == triples_view(triples@),
            list_wf(list),
            forall|k: int| 0 <= k < triples@.len() ==> {
                let t = #[trigger] triples@[k];
                t.0 is Some || t.1 is Some || t.2 is Some
            },
            conflict_triples(list.conflicts@) == pending_of(tv.take(i as int)),
            entries_of(list.staged@) == staged_of(tv.take(i as int)),
        decreases triples@.len() - i,
    {
        let t = &triples[i];
        let ghost prev = list.conflicts@;
        let ghost prev_staged = list.staged@;
        let o = clone_opt(&t.0);
        let a = clone_opt(&t.1);
        let b = clone_opt(&t.2);
        proof {
            assert(tv[i as int] == (opt_view(o), opt_view(a), opt_view(b)));
            assert(tv.take(i + 1).drop_last() =~= tv.take(i as int));
            assert(tv.take(i + 1).last() == tv[i as int]);
        }
        list.add(o, a, b);
        assert forall|k: int| 0 <= k < list.conflicts@.len() implies diff_wf(#[trigger] list.conflicts@[k]) by {
            if k < prev.len() {
                assert(list.conflicts@[k] == prev[k]);
            }
        }
        proof {
            if is_unchanged(tv[i as int]) {
                assert(entries_of(list.staged@) =~= entries_of(prev_staged).push(tv[i as int].0.unwrap()));
                assert(conflict_triples(list.conflicts@) =~= conflict_triples(prev));
            } else {
                assert(list.conflicts@ =~= prev.push(list.conflicts@.last()));
                assert(conflict_triples(list.conflicts@) =~= conflict_triples(prev).push(tv[i as int]));
                assert(entries_of(list.staged@) =~= entries_of(prev_staged));
            }
        }
        i = i + 1;
    }
    proof {
        assert(tv.take(i as int) =~= tv);
    }
    list
}

/// A three-way merge in an object store.
pub struct OrtMerge<T: IOdb> {
    odb: T,
}

impl<T: IOdb> OrtMerge<T> {
    /// The store the merge reads from and writes to.
    pub closed spec fn store(&self) -> T {
        self.odb
    }

    pub fn new(odb: T) -> (r: Self)
        ensures
            r.store() == odb,
    {
        Self { odb }
    }

    /// What the merge table makes of one changed path, merging the lines of a file modified on
    /// both sides through the store; `None` when the path is dropped.
    fn settle(&mut self, c: &MergeDiff) -> (r: Result<Option<IndexEntry>, Error>)
        requires
            diff_wf(*c),
        ensures
            r matches Ok(Some(e)) ==> settles((opt_view(c.o), opt_view(c.a), opt_view(c.b)), e)
                && entry_name(e) is Some,
            r matches Ok(None) ==> triple_resolution((opt_view(c.o), opt_view(c.a), opt_view(c.b)))
                == Resolution::Drop,
            triple_resolution((opt_view(c.o), opt_view(c.a), opt_view(c.b))) == Resolution::Drop ==> r
                matches Ok(None),
            triple_resolution((opt_view(c.o), opt_view(c.a), opt_view(c.b))) != Resolution::Drop
                && triple_resolution((opt_view(c.o), opt_view(c.a), opt_view(c.b)))
                != Resolution::MergeLines ==> r matches Ok(Some(_)),
            keeps_lawfully(&old(self).odb, &final(self).odb),
    {
        match resolve(c.status_o_to_a, c.status_o_to_b) {
            Resolution::Drop => Ok(None),
            Resolution::TakeB => match &c.b {
                Some(b) => Ok(Some(IndexEntry::Normal(clone_entry(b)))),
                None => Err(Error::MergeConflict),
            },
            Resolution::TakeA => match &c.a {
                Some(a) => Ok(Some(IndexEntry::Normal(clone_entry(a)))),
                None => Err(Error::MergeConflict),
            },
            Resolution::MergeLines => {
                let (o, a, b) = match (&c.o, &c.a, &c.b) {
                    (Some(o), Some(a), Some(b)) => (o, a, b),
                    _ => {
                        return Err(Error::MergeConflict);
                    },
                };
                let original = match self.odb.read_blob(o.id) {
                    Ok(x) => x,
                    Err(e) => return Err(Error::OdbReadFailed(e)),
                };
                let left = match self.odb.read_blob(a.id) {
                    Ok(x) => x,
                    Err(e) => return Err(Error::OdbReadFailed(e)),
                };
                let right = match self.odb.read_blob(b.id) {
                    Ok(x) => x,
                    Err(e) => return Err(Error::OdbReadFailed(e)),
                };
                let lo = original.data.len();
                let la = left.data.len();
                let lb = right.data.len();
                let limit: usize = (isize::MAX as usize) / 16;
                assert(limit == max_lines());
                if lo > limit || la > limit - lo || lb > limit - lo - la || limit - lo - la - lb < 3 {
                    return Err(Error::TooLarge);
                }
                let chunks = Diff3::new(original.data.as_slice(), left.data.as_slice(), right.data.as_slice()).compare();
                match try_fold_no_conflicts(chunks) {
                    Some(data) => {
                        let id = match self.odb.write_blob(&Blob { data }) {
                            Ok(id) => id,
                            Err(e) => return Err(Error::OdbWriteFailed(e)),
                        };
                        Ok(
                            Some(
                                IndexEntry::Normal(
                                    TreeEntry {
                                        mode: o.mode,
                                        filename: to_vec(o.filename.as_slice()),
                                        id,
                                        flags: 0,
                                    },
                                ),
                            ),
                        )
                    },
                    None => Ok(
                        Some(
                            IndexEntry::Conflict {
                                o: clone_opt(&c.o),
                                a: clone_opt(&c.a),
                                b: clone_opt(&c.b),
                            },
                        ),
                    ),
                }
            },
            Resolution::Conflict => Ok(
                Some(IndexEntry::Conflict { o: clone_opt(&c.o), a: clone_opt(&c.a), b: clone_opt(&c.b) }),
            ),
        }
    }

    /// Settles each changed path by the merge table, keeps each unchanged path, and puts the
    /// result in path order.
    #[verifier::rlimit(50)]
    #[verifier::spinoff_prover]
    fn create_index_from_diff_list(&mut self, list: DiffList) -> (r: Result<InMemoryIndex, Error>)
        requires
            list_wf(list),
        ensures
            r matches Ok(idx) ==> sorted_entries(idx.entries@) && merged_from(
                conflict_triples(list.conflicts@),
                entries_of(list.staged@),
                idx.entries@,
            ),
            (forall|j: int| 0 <= j < list.conflicts@.len() ==> triple_resolution(
                #[trigger] conflict_triples(list.conflicts@)[j],
            ) != Resolution::MergeLines) ==> r is Ok,
            keeps_lawfully(&old(self).odb, &final(self).odb),
    {
        let ghost s0 = self.odb;
        let ghost pending = conflict_triples(list.conflicts@);
        let ghost staged_v = entries_of(list.staged@);
        let ghost no_merge = forall|j: int| 0 <= j < list.conflicts@.len() ==> triple_resolution(
            #[trigger] conflict_triples(list.conflicts@)[j],
        ) != Resolution::MergeLines;
        let mut settled: Vec<IndexEntry> = Vec::new();
        let conflicts = list.conflicts;
        let mut i: usize = 0;
        while i < conflicts.len()
            invariant
                i <= conflicts@.len(),
                pending == conflict_triples(conflicts@),
                forall|k: int| 0 <= k < conflicts@.len() ==> diff_wf(#[trigger] conflicts@[k]),
                forall|k: int| 0 <= k < settled@.len() ==> (#[trigger] entry_name(settled@[k])) is Some,
                settled_prefix(pending, i as int, settled@),
                no_merge == forall|j: int| 0 <= j < pending.len() ==> triple_resolution(
                    #[trigger] pending[j],
                ) != Resolution::MergeLines,
                pending == conflict_triples(list.conflicts@),
                pending.len() == conflicts@.len(),
                keeps_lawfully(&s0, &self.odb),
                s0 == old(self).odb,
            decreases conflicts@.len() - i,
        {
            let ghost s1 = self.odb;
            let ghost prev = settled@;
            proof {
                assert(diff_wf(conflicts@[i as int]));
                assert(pending[i as int] == (opt_view(conflicts@[i as int].o), opt_view(
                    conflicts@[i as int].a,
                ), opt_view(conflicts@[i as int].b)));
            }
            let step = self.settle(&conflicts[i]);
            proof {
                lemma_keeps_trans(&s0, &s1, &self.odb);
            }
            match step {
                Err(e) => return Err(e),
                Ok(None) => {},
                Ok(Some(e)) => {
                    settled.push(e);
                },
            }
            proof {
                lemma_settled_prefix_step(pending, i as int, prev, settled@);
            }
            assert forall|k: int| 0 <= k < settled@.len() implies (#[trigger] entry_name(settled@[k])) is Some by {
                if k < prev.len() {
                    assert(settled@[k] == prev[k]);
                }
            }
            i = i + 1;
        }
        let staged = list.staged;
        let mut kept: Vec<IndexEntry> = Vec::new();
        let mut j: usize = 0;
        while j < staged.len()
            invariant
                j <= staged@.len(),
                staged_v == entries_of(staged@),
                kept@.len() == j,
                forall|q: int| 0 <= q < j ==> is_normal_of(#[trigger] kept@[q], staged_v[q]),
            decreases staged@.len() - j,
        {
            kept.push(IndexEntry::Normal(clone_entry(&staged[j])));
            proof {
                assert(is_normal_of(kept@[j as int], staged_v[j as int]));
            }
            j = j + 1;
        }
        let ghost first_part = settled@;
        let ghost second_part = kept@;
        let mut entries = settled;
        entries.append(&mut kept);
        proof {
            assert(entries@ == first_part + second_part);
            assert forall|q: int| 0 <= q < second_part.len() implies is_normal_of(
                #[trigger] entries@[first_part.len() + q],
                staged_v[q],
            ) by {
                assert(entries@[first_part.len() + q] == second_part[q]);
            }
            lemma_merged_from_parts(pending, staged_v, first_part, second_part.len() as int, entries@);
        }
        assert forall|k: int| 0 <= k < entries@.len() implies (#[trigger] entry_name(entries@[k])) is Some by {
            if k < first_part.len() {
                assert(entries@[k] == first_part[k]);
            } else {
                assert(entries@[k] == second_part[k - first_part.len()]);
                assert(is_normal_of(entries@[k], staged_v[k - first_part.len()]));
            }
        }
        let ghost unsorted = entries@;
        let entries = sort_by_filename(entries);
        proof {
            lemma_merged_from_permuted(pending, staged_v, unsorted, entries@);
        }
        Ok(InMemoryIndex { entries })
    }

    /// Merges `base` and `other` into a commit that exists only during the merge.
    fn create_in_memory_base(&mut self, base: &Elem, other: &Elem, fuel: u64) -> (r: Result<InMemoryCommit, Error>)
        requires
            other is CommitFromOdb,
        ensures
            r matches Ok(c) ==> c.parents@ == parents_from(*base) + parents_from(*other) && sorted_entries(
                c.index.entries@,
            ) && exists|l0: Seq<MergeEntryV>, l1: Seq<MergeEntryV>, l2: Seq<MergeEntryV>|
                #[trigger] merge_of(l0, l1, l2, c.index.entries@),
            keeps_lawfully(&old(self).odb, &final(self).odb),
        decreases fuel, 3nat,
    {
        let (_, index) = match self.merge_impl(base, other, fuel) {
            Ok(x) => x,
            Err(e) => return Err(e),
        };
        let mut parents = base.get_parents();
        let mut more = other.get_parents();
        parents.append(&mut more);
        Ok(InMemoryCommit { parents, index })
    }

    /// Folds merge bases into the one base a merge uses: a single base is that stored commit
    /// itself; several are merged in turn, the first with the second, that with the third and
    /// so on, into a commit made during the merge whose parents are the bases, in order.
    pub fn fold_merge_bases(&mut self, bases: &Vec<(Commit, ObjectId)>, fuel: u64) -> (r: Result<Elem, Error>)
        requires
            bases@.len() > 0,
            fuel > 0,
        ensures
            bases@.len() == 1 ==> (r matches Ok(Elem::CommitFromOdb { commit, id }) && commit@ == bases@[0].0@
                && id == bases@[0].1),
            bases@.len() > 1 ==> (r matches Ok(b) ==> b matches Elem::InMemoryCommit(c) && c.parents@
                == bases@.map_values(|p: (Commit, ObjectId)| p.1)),
            keeps_lawfully(&old(self).store(), &final(self).store()),
        decreases fuel, 0nat,
    {
        let ghost s0 = self.odb;
        let ghost ids = bases@.map_values(|p: (Commit, ObjectId)| p.1);
        let mut acc = Elem::CommitFromOdb { commit: bases[0].0.duplicate(), id: bases[0].1 };
        proof {
            assert(parents_from(acc) =~= ids.take(1));
        }
        let mut i: usize = 1;
        while i < bases.len()
            invariant
                1 <= i <= bases@.len(),
                fuel > 0,
                keeps_lawfully(&s0, &self.odb),
                s0 == old(self).odb,
                ids == bases@.map_values(|p: (Commit, ObjectId)| p.1),
                parents_from(acc) == ids.take(i as int),
                i == 1 ==> (acc matches Elem::CommitFromOdb { commit, id } && commit@ == bases@[0].0@
                    && id == bases@[0].1),
                i > 1 ==> acc is InMemoryCommit,
            decreases bases@.len() - i,
        {
            let x = Elem::CommitFromOdb { commit: bases[i].0.duplicate(), id: bases[i].1 };
            let ghost s1 = self.odb;
            let made = self.create_in_memory_base(&acc, &x, fuel - 1);
            proof {
                lemma_keeps_trans(&s0, &s1, &self.odb);
            }
            let commit = match made {
                Ok(c) => c,
                Err(e) => return Err(e),
            };
            proof {
                assert(ids.take(i + 1) =~= ids.take(i as int) + seq![bases@[i as int].1]);
            }
            acc = Elem::InMemoryCommit(commit);
            i = i + 1;
        }
        proof {
            assert(ids.take(i as int) =~= ids);
        }
        Ok(acc)
    }

    /// The base of a merge: the merge bases of the two sides, folded into one by
    /// `fold_merge_bases`.
    fn compute_merge_base(&mut self, side1: &Elem, side2: &Elem, fuel: u64) -> (r: Result<Elem, Error>)
        requires
            side2 is CommitFromOdb,
        ensures
            keeps_lawfully(&old(self).odb, &final(self).odb),
        decreases fuel, 1nat,
    {
        let first_id = match side2 {
            Elem::CommitFromOdb { id, .. } => *id,
            Elem::InMemoryCommit(_) => {
                assert(false);
                return Err(Error::NoMergeBase);
            },
        };
        let rest = side1.get_parents();
        let bases = match find_merge_bases(&self.odb, first_id, rest.as_slice()) {
            Ok(b) => b,
            Err(e) => return Err(Error::CannotComputeMergeBase(e)),
        };
        if bases.len() == 0 {
            return Err(Error::NoMergeBase);
        }
        if fuel == 0 {
            return Err(Error::MergeTooDeep);
        }
        self.fold_merge_bases(&bases, fuel)
    }

    fn merge_impl(&mut self, side1: &Elem, side2: &Elem, fuel: u64) -> (r: Result<(Elem, InMemoryIndex), Error>)
        requires
            side2 is CommitFromOdb,
        ensures
            r matches Ok((_, idx)) ==> sorted_entries(idx.entries@) && exists|
                l0: Seq<MergeEntryV>,
                l1: Seq<MergeEntryV>,
                l2: Seq<MergeEntryV>,
            | #[trigger] merge_of(l0, l1, l2, idx.entries@),
            old(self).odb.obeys_store_laws() ==> (r matches Ok((b, idx)) ==> exists|
                l0: Seq<MergeEntryV>,
                l1: Seq<MergeEntryV>,
                l2: Seq<MergeEntryV>,
            | #[trigger] merge_of(l0, l1, l2, idx.entries@) && listing_of(&final(self).odb, b, l0)
                && listing_of(&final(self).odb, *side1, l1) && listing_of(&final(self).odb, *side2, l2)),
            keeps_lawfully(&old(self).odb, &final(self).odb),
        decreases fuel, 2nat,
    {
        let ghost s0 = self.odb;
        let base = match self.compute_merge_base(side1, side2, fuel) {
            Ok(b) => b,
            Err(e) => return Err(e),
        };
        let ghost s1 = self.odb;
        let l0 = match listing_of_elem(&self.odb, &base) {
            Ok(v) => v,
            Err(e) => return Err(e),
        };
        let l1 = match listing_of_elem(&self.odb, side1) {
            Ok(v) => v,
            Err(e) => return Err(e),
        };
        let l2 = match listing_of_elem(&self.odb, side2) {
            Ok(v) => v,
            Err(e) => return Err(e),
        };
        let diff_list = merge_iterators(l0.as_slice(), l1.as_slice(), l2.as_slice());
        let ghost pending = conflict_triples(diff_list.conflicts@);
        let ghost staged = entries_of(diff_list.staged@);
        let index = match self.create_index_from_diff_list(diff_list) {
            Ok(i) => i,
            Err(e) => {
                proof {
                    lemma_keeps_trans(&s0, &s1, &self.odb);
                }
                return Err(e);
            },
        };
        proof {
            lemma_keeps_trans(&s0, &s1, &self.odb);
            assert(merge_of(entries_of(l0@), entries_of(l1@), entries_of(l2@), index.entries@));
            if s0.obeys_store_laws() {
                assert(s1.obeys_store_laws());
                lemma_listing_kept(&s1, &self.odb, base, entries_of(l0@));
                lemma_listing_kept(&s1, &self.odb, *side1, entries_of(l1@));
                lemma_listing_kept(&s1, &self.odb, *side2, entries_of(l2@));
                assert(merge_of(entries_of(l0@), entries_of(l1@), entries_of(l2@), index.entries@)
                    && listing_of(&self.odb, base, entries_of(l0@)) && listing_of(&self.odb, *side1, entries_of(l1@))
                    && listing_of(&self.odb, *side2, entries_of(l2@)));
            }
            assert(s0 == old(self).odb);
            assert(s0.obeys_store_laws() ==> exists|
                l0: Seq<MergeEntryV>,
                l1: Seq<MergeEntryV>,
                l2: Seq<MergeEntryV>,
            | #[trigger] merge_of(l0, l1, l2, index.entries@) && listing_of(&self.odb, base, l0)
                && listing_of(&self.odb, *side1, l1) && listing_of(&self.odb, *side2, l2));
        }
        let res: Result<(Elem, InMemoryIndex), Error> = Ok((base, index));
        proof {
            assert(res matches Ok((b, idx)) ==> b == base);
            if s0.obeys_store_laws() {
                assert(res matches Ok((b, idx)) ==> idx.entries@ == index.entries@);
                assert(res matches Ok((b, idx)) ==> merge_of(entries_of(l0@), entries_of(l1@), entries_of(l2@), idx.entries@));
                assert(res matches Ok((b, idx)) ==> listing_of(&self.odb, b, entries_of(l0@)));
            }
            assert(s0.obeys_store_laws() ==> (res matches Ok((b, idx)) ==> exists|
                l0: Seq<MergeEntryV>,
                l1: Seq<MergeEntryV>,
                l2: Seq<MergeEntryV>,
            | #[trigger] merge_of(l0, l1, l2, idx.entries@) && listing_of(&self.odb, b, l0)
                && listing_of(&self.odb, *side1, l1) && listing_of(&self.odb, *side2, l2)));
        }
        res
    }

    /// Merges two stored commits: the merged entries in path order, with the conflicts. Each
    /// path that changed on a side is settled by the merge table and each unchanged path is
    /// kept, over the listings of the merge base and of the two sides.
    pub fn merge(&mut self, side1: (Commit, ObjectId), side2: (Commit, ObjectId)) -> (r: Result<
        (Elem, InMemoryIndex),
        Error,
    >)
        ensures
            r matches Ok((_, idx)) ==> sorted_entries(idx.entries@) && exists|
                l0: Seq<MergeEntryV>,
                l1: Seq<MergeEntryV>,
                l2: Seq<MergeEntryV>,
            | #[trigger] merge_of(l0, l1, l2, idx.entries@),
            old(self).store().obeys_store_laws() ==> (r matches Ok(p) ==> exists|
                l0: Seq<MergeEntryV>,
                l1: Seq<MergeEntryV>,
                l2: Seq<MergeEntryV>,
            | #[trigger] merge_of(l0, l1, l2, p.1.entries@) && listing_of(&final(self).store(), p.0, l0)
                && fits_tree_of(&final(self).store(), side1.0.tree_id@, l1) && fits_tree_of(
                &final(self).store(),
                side2.0.tree_id@,
                l2,
            )),
            keeps_lawfully(&old(self).store(), &final(self).store()),
    {
        let s1 = Elem::from_pair(side1);
        let s2 = Elem::from_pair(side2);
        self.merge_impl(&s1, &s2, u64::MAX)
    }
}

/// Merges two stored commits of an object store, as `OrtMerge::merge` does.
pub fn merge_commits<T: IOdb>(odb: T, side1: (Commit, ObjectId), side2: (Commit, ObjectId)) -> (r:
    Result<InMemoryIndex, Error>)
    ensures
        r matches Ok(idx) ==> sorted_entries(idx.entries@) && exists|
            l0: Seq<MergeEntryV>,
            l1: Seq<MergeEntryV>,
            l2: Seq<MergeEntryV>,
        | #[trigger] merge_of(l0, l1, l2, idx.entries@),
        odb.obeys_store_laws() ==> (r matches Ok(idx) ==> exists|
            l0: Seq<MergeEntryV>,
            l1: Seq<MergeEntryV>,
            l2: Seq<MergeEntryV>,
        | #[trigger] merge_of(l0, l1, l2, idx.entries@) && (odb.object_at(side1.0.tree_id@) is Some
            ==> fits_tree_of(&odb, side1.0.tree_id@, l1)) && (odb.object_at(side2.0.tree_id@) is Some
            ==> fits_tree_of(&odb, side2.0.tree_id@, l2))),
{
    let ghost s0 = odb;
    let ghost t1 = side1.0.tree_id@;
    let ghost t2 = side2.0.tree_id@;
    let mut m = OrtMerge::new(odb);
    match m.merge(side1, side2) {
        Ok(p) => {
            let b = p.0;
            let index = p.1;
            proof {
                if s0.obeys_store_laws() {
                    assert(exists|l0: Seq<MergeEntryV>, l1: Seq<MergeEntryV>, l2: Seq<MergeEntryV>|
                        #[trigger] merge_of(l0, l1, l2, index.entries@) && listing_of(&m.store(), b, l0)
                        && fits_tree_of(&m.store(), t1, l1) && fits_tree_of(
                        &m.store(),
                        t2,
                        l2,
                    ));
                    let (l0, l1, l2) = choose|l0: Seq<MergeEntryV>, l1: Seq<MergeEntryV>, l2: Seq<MergeEntryV>|
                        #[trigger] merge_of(l0, l1, l2, index.entries@) && listing_of(&m.store(), b, l0)
                        && fits_tree_of(&m.store(), t1, l1) && fits_tree_of(
                        &m.store(),
                        t2,
                        l2,
                    );
                    assert(keeps(&s0, &m.store()));
                    if s0.object_at(t1) is Some {
                        lemma_tree_fits_earlier(&s0, &m.store(), t1, l1);
                    }
                    if s0.object_at(t2) is Some {
                        lemma_tree_fits_earlier(&s0, &m.store(), t2, l2);
                    }
                    assert(merge_of(l0, l1, l2, index.entries@) && (s0.object_at(t1) is Some
                        ==> fits_tree_of(&s0, t1, l1)) && (s0.object_at(t2) is Some
                        ==> fits_tree_of(&s0, t2, l2)));
                    assert(exists|l0: Seq<MergeEntryV>, l1: Seq<MergeEntryV>, l2: Seq<MergeEntryV>|
                        #[trigger] merge_of(l0, l1, l2, index.entries@) && (s0.object_at(t1) is Some
                        ==> fits_tree_of(&s0, t1, l1)) && (s0.object_at(t2) is Some
                        ==> fits_tree_of(&s0, t2, l2)));
                }
            }
            let res: Result<InMemoryIndex, Error> = Ok(index);
            proof {
                assert(res matches Ok(idx) ==> idx.entries@ == index.entries@);
                assert(s0 == odb);
            }
            res
        },
        Err(e) => Err(e),
    }
}

} // verus!
