use vstd::prelude::*;

use crate::bytes::{bytes_eq, compare_bytes, seq_lt, to_vec};
use crate::index::{search_result, sorted_paths, Index, IndexEntryV};
use crate::object_db::{Error as OdbError, IOdb};
use crate::object_id::ObjectId;
use crate::tree::{
    flat, flat_listing, flatten_tree, walk_items_view, Error as TreeError, Tree, TreeEntryV, WalkItemV,
};

verus! {

/// Why two trees could not be compared.
#[derive(Debug)]
pub enum Error {
    OdbReadFailed(OdbError),
    TreeWalkingFailed(TreeError),
}

/// How a file differs between two trees.
#[derive(Debug, Clone, Copy, PartialEq, Eq, Structural)]
pub enum Status {
    Unmodified,
    Added,
    Deleted,
    Modified,
    TypeChanged,
}

/// One difference: the file before, the file after, and how they differ.
#[derive(Debug)]
pub struct Delta {
    pub old_file: Option<(Vec<u8>, ObjectId)>,
    pub new_file: Option<(Vec<u8>, ObjectId)>,
    pub status: Status,
}

pub type FileV = (Seq<u8>, Seq<u8>);

pub type DeltaV = (Option<FileV>, Option<FileV>, Status);

pub open spec fn file_view(f: Option<(Vec<u8>, ObjectId)>) -> Option<FileV> {
    match f {
        Some((p, id)) => Some((p@, id@)),
        None => None,
    }
}

impl View for Delta {
    type V = DeltaV;

    open spec fn view(&self) -> DeltaV {
        (file_view(self.old_file), file_view(self.new_file), self.status)
    }
}

pub open spec fn deltas_view(ds: Seq<Delta>) -> Seq<DeltaV> {
    ds.map_values(|d: Delta| d@)
}

/// The differences between two walks, each in path order: a path only on the left is
/// deleted, one only on the right is added, and one on both sides is modified when its objects
/// differ.
pub open spec fn diff_spec(l: Seq<WalkItemV>, r: Seq<WalkItemV>) -> Seq<DeltaV>
    decreases l.len() + r.len(),
{
    if l.len() == 0 && r.len() == 0 {
        seq![]
    } else if l.len() == 0 {
        seq![(None, Some((r[0].0, r[0].1)), Status::Added)] + diff_spec(l, r.drop_first())
    } else if r.len() == 0 {
        seq![(Some((l[0].0, l[0].1)), None, Status::Deleted)] + diff_spec(l.drop_first(), r)
    } else if seq_lt(l[0].0, r[0].0) {
        seq![(Some((l[0].0, l[0].1)), None, Status::Deleted)] + diff_spec(l.drop_first(), r)
    } else if l[0].0 == r[0].0 {
        if l[0].1 != r[0].1 {
            seq![(Some((l[0].0, l[0].1)), Some((r[0].0, r[0].1)), Status::Modified)] + diff_spec(
                l.drop_first(),
                r.drop_first(),
            )
        } else {
            diff_spec(l.drop_first(), r.drop_first())
        }
    } else {
        seq![(None, Some((r[0].0, r[0].1)), Status::Added)] + diff_spec(l, r.drop_first())
    }
}

/// A walk compared with itself shows no difference.
pub proof fn lemma_diff_same(w: Seq<WalkItemV>)
    ensures
        diff_spec(w, w) == Seq::<DeltaV>::empty(),
    decreases w.len(),
{
    if w.len() > 0 {
        crate::bytes::lemma_seq_lt_irreflexive(w[0].0);
        lemma_diff_same(w.drop_first());
    }
}

/// A walk that met only files.
pub open spec fn files_only(w: Seq<WalkItemV>) -> bool {
    forall|k: int| 0 <= k < w.len() ==> (#[trigger] w[k]).2 != crate::GIT_MODE_TREE
}

/// The differences between two walks.
pub fn diff_listings(l: &[(Vec<u8>, ObjectId, u32)], r: &[(Vec<u8>, ObjectId, u32)]) -> (out: Vec<
    Delta,
>)
    ensures
        deltas_view(out@) == diff_spec(walk_items_view(l@), walk_items_view(r@)),
{
    let ghost lv = walk_items_view(l@);
    let ghost rv = walk_items_view(r@);
    let mut out: Vec<Delta> = Vec::new();
    let mut i: usize = 0;
    let mut j: usize = 0;
    assert(lv.skip(0) =~= lv);
    assert(rv.skip(0) =~= rv);
    assert(deltas_view(out@) + diff_spec(lv, rv) =~= diff_spec(lv, rv));
    while i < l.len() || j < r.len()
        invariant
            lv == walk_items_view(l@),
            rv == walk_items_view(r@),
            i <= l@.len(),
            j <= r@.len(),
            deltas_view(out@) + diff_spec(lv.skip(i as int), rv.skip(j as int)) == diff_spec(lv, rv),
        decreases l@.len() + r@.len() - i - j,
    {
        let ghost ls = lv.skip(i as int);
        let ghost rs = rv.skip(j as int);
        let ghost prev = deltas_view(out@);
        assert(lv.skip(i + 1) =~= ls.drop_first() || i >= l@.len());
        assert(rv.skip(j + 1) =~= rs.drop_first() || j >= r@.len());
        if i < l.len() && j < r.len() {
            let c = compare_bytes(l[i].0.as_slice(), r[j].0.as_slice());
            if c < 0 {
                let d = Delta { old_file: Some((to_vec(l[i].0.as_slice()), l[i].1)), new_file: None, status: Status::Deleted };
                out.push(d);
                assert(deltas_view(out@) =~= prev.push(d@));
                assert(prev + diff_spec(ls, rs) =~= deltas_view(out@) + diff_spec(ls.drop_first(), rs));
                i = i + 1;
            } else if c == 0 {
                if !(l[i].1 == r[j].1) {
                    let d = Delta {
                        old_file: Some((to_vec(l[i].0.as_slice()), l[i].1)),
                        new_file: Some((to_vec(r[j].0.as_slice()), r[j].1)),
                        status: Status::Modified,
                    };
                    out.push(d);
                    assert(deltas_view(out@) =~= prev.push(d@));
                    assert(prev + diff_spec(ls, rs) =~= deltas_view(out@) + diff_spec(ls.drop_first(), rs.drop_first()));
                }
                i = i + 1;
                j = j + 1;
            } else {
                proof {
                    crate::bytes::lemma_seq_lt_asym(ls[0].0, rs[0].0);
                }
                let d = Delta { old_file: None, new_file: Some((to_vec(r[j].0.as_slice()), r[j].1)), status: Status::Added };
                out.push(d);
                assert(deltas_view(out@) =~= prev.push(d@));
                assert(prev + diff_spec(ls, rs) =~= deltas_view(out@) + diff_spec(ls, rs.drop_first()));
                j = j + 1;
            }
        } else if i < l.len() {
            let d = Delta { old_file: Some((to_vec(l[i].0.as_slice()), l[i].1)), new_file: None, status: Status::Deleted };
            out.push(d);
            assert(deltas_view(out@) =~= prev.push(d@));
            assert(prev + diff_spec(ls, rs) =~= deltas_view(out@) + diff_spec(ls.drop_first(), rs));
            i = i + 1;
        } else {
            let d = Delta { old_file: None, new_file: Some((to_vec(r[j].0.as_slice()), r[j].1)), status: Status::Added };
            out.push(d);
            assert(deltas_view(out@) =~= prev.push(d@));
            assert(prev + diff_spec(ls, rs) =~= deltas_view(out@) + diff_spec(ls, rs.drop_first()));
            j = j + 1;
        }
    }
    assert(lv.skip(i as int) =~= Seq::<WalkItemV>::empty());
    assert(rv.skip(j as int) =~= Seq::<WalkItemV>::empty());
    assert(deltas_view(out@) =~= diff_spec(lv, rv));
    out
}

/// The delta deletes the file at `p`.
pub open spec fn deletes_path(d: DeltaV, p: Seq<u8>) -> bool {
    &&& d.2 == Status::Deleted
    &&& d.0 matches Some(f)
    &&& f.0 == p
}

/// The paths of the files that the first `n` deltas delete.
pub open spec fn deleted_paths(ds: Seq<DeltaV>, n: int) -> Set<Seq<u8>> {
    Set::new(|p: Seq<u8>| exists|k: int| 0 <= k < n && deletes_path(#[trigger] ds[k], p))
}

/// Dropping the entry of one path from sorted entries keeps every other entry.
proof fn lemma_drop_path(before: Seq<IndexEntryV>, after: Seq<IndexEntryV>, p: Seq<u8>, r: Result<usize, usize>)
    requires
        sorted_paths(before),
        search_result(before, p, r),
        match r {
            Ok(i) => after == before.remove(i as int),
            Err(_) => after == before,
        },
    ensures
        forall|e: IndexEntryV| #[trigger] after.contains(e) <==> before.contains(e) && e.10 != p,
{
    assert forall|e: IndexEntryV| #[trigger] after.contains(e) <==> before.contains(e) && e.10 != p by {
        match r {
            Ok(i) => {
                if after.contains(e) {
                    let j = choose|j: int| 0 <= j < after.len() && after[j] == e;
                    let jb = if j < i { j } else { j + 1 };
                    assert(before[jb] == e);
                    if jb < i {
                        assert(seq_lt(before[jb].10, before[i as int].10));
                    } else {
                        assert(seq_lt(before[i as int].10, before[jb].10));
                    }
                    crate::bytes::lemma_seq_lt_irreflexive(p);
                }
                if before.contains(e) && e.10 != p {
                    let j = choose|j: int| 0 <= j < before.len() && before[j] == e;
                    assert(j != i);
                    let ja = if j < i { j } else { j - 1 };
                    assert(after[ja] == e);
                }
            },
            Err(i) => {
                if before.contains(e) {
                    let j = choose|j: int| 0 <= j < before.len() && before[j] == e;
                    crate::bytes::lemma_seq_lt_irreflexive(p);
                    if j < i {
                        assert(seq_lt(before[j].10, p));
                    } else {
                        assert(seq_lt(p, before[j].10));
                    }
                }
            },
        }
    }
}

/// Removes from the index the entry of each file that the deltas delete; no other entry goes.
pub fn remove_deleted_paths(deltas: &[Delta], index: &mut Index)
    requires
        old(index).wf(),
    ensures
        final(index).wf(),
        forall|e: IndexEntryV| #[trigger] final(index)@.contains(e) <==> old(index)@.contains(e)
            && !deleted_paths(deltas_view(deltas@), deltas@.len() as int).contains(e.10),
{
    let ghost start = index@;
    let ghost dv = deltas_view(deltas@);
    let mut k: usize = 0;
    while k < deltas.len()
        invariant
            k <= deltas@.len(),
            index.wf(),
            dv == deltas_view(deltas@),
            forall|e: IndexEntryV| #[trigger] index@.contains(e) <==> start.contains(e)
                && !deleted_paths(dv, k as int).contains(e.10),
        decreases deltas@.len() - k,
    {
        let ghost before = index@;
        let d = &deltas[k];
        if d.status == Status::Deleted {
            match &d.old_file {
                Some(f) => {
                    let r = index.find_by_path(f.0.as_slice());
                    if let Ok(i) = r {
                        index.remove(i);
                    }
                    proof {
                        lemma_drop_path(before, index@, f.0@, r);
                        assert forall|e: IndexEntryV| #[trigger] index@.contains(e) <==> start.contains(e)
                            && !deleted_paths(dv, k + 1).contains(e.10) by {
                            if deleted_paths(dv, k + 1).contains(e.10) && !deleted_paths(dv, k as int).contains(e.10) {
                                let j = choose|j: int| 0 <= j < k + 1 && deletes_path(#[trigger] dv[j], e.10);
                                assert(j == k);
                            }
                            if deleted_paths(dv, k as int).contains(e.10) {
                                let j = choose|j: int| 0 <= j < k && deletes_path(#[trigger] dv[j], e.10);
                                assert(deleted_paths(dv, k + 1).contains(e.10));
                            }
                            if e.10 == f.0@ {
                                assert(deletes_path(dv[k as int], e.10));
                                assert(deleted_paths(dv, k + 1).contains(e.10));
                            }
                        }
                    }
                },
                None => {
                    proof {
                        assert(deleted_paths(dv, k + 1) =~= deleted_paths(dv, k as int)) by {
                            assert forall|p: Seq<u8>| deleted_paths(dv, k + 1).contains(p) implies deleted_paths(dv, k as int).contains(p) by {
                                let j = choose|j: int| 0 <= j < k + 1 && deletes_path(#[trigger] dv[j], p);
                                assert(j != k);
                            }
                        }
                    }
                },
            }
        } else {
            proof {
                assert(deleted_paths(dv, k + 1) =~= deleted_paths(dv, k as int)) by {
                    assert forall|p: Seq<u8>| deleted_paths(dv, k + 1).contains(p) implies deleted_paths(dv, k as int).contains(p) by {
                        let j = choose|j: int| 0 <= j < k + 1 && deletes_path(#[trigger] dv[j], p);
                        assert(j != k);
                    }
                }
            }
        }
        k = k + 1;
    }
    proof {
        assert(deleted_paths(dv, deltas@.len() as int) =~= deleted_paths(deltas_view(deltas@), deltas@.len() as int));
    }
}

/// Whether two trees have the same entries.
pub fn trees_equal(a: &Tree, b: &Tree) -> (r: bool)
    ensures
        r == (a@ == b@),
{
    if a.entries.len() != b.entries.len() {
        assert(a@.len() != b@.len());
        return false;
    }
    let mut i: usize = 0;
    while i < a.entries.len()
        invariant
            i <= a.entries@.len() == b.entries@.len(),
            forall|k: int| 0 <= k < i ==> a@[k] == b@[k],
        decreases a.entries@.len() - i,
    {
        let x = &a.entries[i];
        let y = &b.entries[i];
        if x.mode != y.mode || !bytes_eq(x.filename.as_slice(), y.filename.as_slice()) || !(x.id == y.id) {
            assert(a@[i as int] != b@[i as int]);
            return false;
        }
        assert(a@[i as int] == b@[i as int]);
        i = i + 1;
    }
    assert(a@ =~= b@);
    true
}

/// Compares two trees through an object store.
pub struct TreeDiff<'a, T: IOdb> {
    odb: &'a T,
    deltas: Vec<Delta>,
}

impl<'a, T: IOdb> TreeDiff<'a, T> {
    /// No difference recorded yet.
    pub closed spec fn is_fresh(&self) -> bool {
        self.deltas@.len() == 0
    }

    pub fn new(odb: &'a T) -> (r: TreeDiff<'a, T>)
        ensures
            r.is_fresh(),
    {
        TreeDiff { odb, deltas: Vec::new() }
    }

    /// The differences from `left` to `right`: none for equal trees, otherwise those between
    /// the walks of the two trees.
    pub fn compare_trees(self, left: Tree, right: Tree) -> (r: Result<Vec<Delta>, Error>)
        requires
            self.is_fresh(),
            left@ == right@ || (left.entries@.len() > 0 && right.entries@.len() > 0),
        ensures
            left@ == right@ ==> (r matches Ok(ds) && ds@.len() == 0),
            flat(left@) && flat(right@) ==> (r matches Ok(ds) && deltas_view(ds@) == diff_spec(
                flat_listing(left@),
                flat_listing(right@),
            )),
            r matches Ok(ds) ==> left@ == right@ || exists|lw: Seq<WalkItemV>, rw: Seq<WalkItemV>|
                files_only(lw) && files_only(rw) && #[trigger] diff_spec(lw, rw) == deltas_view(ds@),
    {
        let mut this = self;
        match this.compare_trees_impl(left, right) {
            Ok(()) => Ok(this.deltas),
            Err(e) => Err(e),
        }
    }

    fn compare_trees_impl(&mut self, left: Tree, right: Tree) -> (r: Result<(), Error>)
        requires
            old(self).deltas@.len() == 0,
            left@ == right@ || (left.entries@.len() > 0 && right.entries@.len() > 0),
        ensures
            left@ == right@ ==> r is Ok && final(self).deltas@.len() == 0,
            flat(left@) && flat(right@) ==> (r is Ok && deltas_view(final(self).deltas@) == diff_spec(
                flat_listing(left@),
                flat_listing(right@),
            )),
            r is Ok ==> left@ == right@ || exists|lw: Seq<WalkItemV>, rw: Seq<WalkItemV>|
                files_only(lw) && files_only(rw) && #[trigger] diff_spec(lw, rw) == deltas_view(
                final(self).deltas@,
            ),
    {
        if trees_equal(&left, &right) {
            proof {
                lemma_diff_same(flat_listing(left@));
                assert(deltas_view(self.deltas@) =~= Seq::<DeltaV>::empty());
            }
            return Ok(());
        }
        let l = match flatten_tree(self.odb, left) {
            Ok(v) => v,
            Err(e) => return Err(Error::TreeWalkingFailed(e)),
        };
        let r = match flatten_tree(self.odb, right) {
            Ok(v) => v,
            Err(e) => return Err(Error::TreeWalkingFailed(e)),
        };
        self.deltas = diff_listings(l.as_slice(), r.as_slice());
        assert(files_only(walk_items_view(l@)));
        assert(files_only(walk_items_view(r@)));
        assert(diff_spec(walk_items_view(l@), walk_items_view(r@)) == deltas_view(self.deltas@));
        Ok(())
    }
}

} // verus!
