use vstd::prelude::*;
use vstd::multiset::Multiset;

use crate::commit::{ids_view, Commit, CommitV};
use crate::object_db::{Error as OdbError, IOdb, ObjectV};
use crate::object_id::ObjectId;

verus! {

/// Why merge bases could not be found.
#[derive(Debug)]
pub enum Error {
    OdbReadFailed(OdbError),
    SearchTooLong,
}

pub const FIRST: u32 = 0x1;

pub const SECOND: u32 = 0x2;

pub const STALE: u32 = 0x4;

pub const BASE: u32 = 0x8;

/// A commit waiting to be visited, ordered by its committer's time.
struct Elem {
    commit: Commit,
    id: ObjectId,
}

/// A max-heap of commits by committer time, laid out and sifted as `BinaryHeap` does, so that
/// commits of equal time come out in the same order. The heap holds `(time, slot)` pairs;
/// the commits stay in `elems`.
struct CommitQueue {
    heap: Vec<(u64, usize)>,
    elems: Vec<Elem>,
}

/// Each entry of a heap is no later than the entry above it.
spec fn heap_ordered(h: Seq<(u64, usize)>) -> bool {
    forall|i: int| 0 < i < h.len() ==> h[(i - 1) / 2].0 >= (#[trigger] h[i]).0
}

/// Heap order holds on every edge but the one into `pos`.
spec fn ordered_except_into(h: Seq<(u64, usize)>, pos: int) -> bool {
    forall|i: int| 0 < i < h.len() && i != pos ==> h[(i - 1) / 2].0 >= (#[trigger] h[i]).0
}

/// Heap order holds on every edge that does not touch `pos`.
spec fn ordered_except_around(h: Seq<(u64, usize)>, pos: int) -> bool {
    forall|i: int| 0 < i < h.len() && i != pos && (i - 1) / 2 != pos ==> h[(i - 1) / 2].0 >= (
    #[trigger] h[i]).0
}

/// The entry above `pos` is no earlier than the entries below `pos`.
spec fn bridged(h: Seq<(u64, usize)>, pos: int) -> bool {
    pos > 0 ==> forall|c: int| 0 < c < h.len() && (c - 1) / 2 == pos ==> h[(pos - 1) / 2].0 >= (
    #[trigger] h[c]).0
}

/// The children of `pos` are `2 pos + 1` and `2 pos + 2`.
proof fn lemma_child(i: int, pos: int)
    requires
        0 < i,
        0 <= pos,
    ensures
        (i - 1) / 2 == pos <==> (i == 2 * pos + 1 || i == 2 * pos + 2),
{
}

/// A leaf of a heap whose order holds away from it misses only the edge into it.
proof fn lemma_leaf(h: Seq<(u64, usize)>, pos: int)
    requires
        ordered_except_around(h, pos),
        0 <= pos,
        2 * pos + 1 >= h.len(),
    ensures
        ordered_except_into(h, pos),
        bridged(h, pos),
{
    assert forall|i: int| 0 < i < h.len() && i != pos implies h[(i - 1) / 2].0 >= (#[trigger] h[i]).0 by {
        lemma_child(i, pos);
    }
    assert forall|c: int| 0 < c < h.len() && (c - 1) / 2 == pos implies h[(pos - 1) / 2].0 >= (
    #[trigger] h[c]).0 by {
        lemma_child(c, pos);
    }
}

/// `c` is the latest child of `pos`.
proof fn lemma_latest_child(h: Seq<(u64, usize)>, pos: int, c: int)
    requires
        0 <= pos,
        c == 2 * pos + 1 || c == 2 * pos + 2,
        c < h.len(),
        c == 2 * pos + 1 ==> 2 * pos + 2 >= h.len() || h[2 * pos + 2].0 < h[c].0,
        c == 2 * pos + 2 ==> h[2 * pos + 1].0 <= h[c].0,
    ensures
        (c - 1) / 2 == pos,
        forall|d: int| 0 < d < h.len() && (d - 1) / 2 == pos ==> h[c].0 >= (#[trigger] h[d]).0,
{
    lemma_child(c, pos);
    assert forall|d: int| 0 < d < h.len() && (d - 1) / 2 == pos implies h[c].0 >= (#[trigger] h[d]).0 by {
        lemma_child(d, pos);
    }
}

/// Swapping an entry with its parent when it is the later one moves the gap in the order up.
proof fn lemma_swap_up(h: Seq<(u64, usize)>, n: Seq<(u64, usize)>, pos: int)
    requires
        0 < pos < h.len(),
        ordered_except_into(h, pos),
        bridged(h, pos),
        h[pos].0 > h[(pos - 1) / 2].0,
        n == h.update(pos, h[(pos - 1) / 2]).update((pos - 1) / 2, h[pos]),
    ensures
        ordered_except_into(n, (pos - 1) / 2),
        bridged(n, (pos - 1) / 2),
{
    let parent = (pos - 1) / 2;
    assert forall|i: int| 0 < i < n.len() && i != parent implies n[(i - 1) / 2].0 >= (#[trigger] n[i]).0 by {
        let q = (i - 1) / 2;
        if i == pos {
        } else if q == pos {
            assert(n[i] == h[i]);
        } else if q == parent {
            assert(n[i] == h[i]);
            assert(h[parent].0 >= h[i].0);
        } else {
            assert(n[i] == h[i]);
            assert(n[q] == h[q]);
        }
    }
    if parent > 0 {
        assert forall|c: int| 0 < c < n.len() && (c - 1) / 2 == parent implies n[(parent - 1) / 2].0 >= (
        #[trigger] n[c]).0 by {
            let g = (parent - 1) / 2;
            assert(n[g] == h[g]);
            assert(h[g].0 >= h[parent].0);
            if c != pos {
                assert(n[c] == h[c]);
                assert(h[parent].0 >= h[c].0);
            }
        }
    }
}

/// The top of a heap is its latest entry.
proof fn lemma_heap_top(h: Seq<(u64, usize)>, i: int)
    requires
        heap_ordered(h),
        0 <= i < h.len(),
    ensures
        h[0].0 >= h[i].0,
    decreases i,
{
    if i > 0 {
        lemma_heap_top(h, (i - 1) / 2);
    }
}

impl CommitQueue {
    /// Each heap entry names a commit of `elems` and carries its committer time.
    spec fn slots_ok(&self) -> bool {
        forall|k: int| 0 <= k < self.heap@.len() ==> {
            let e = #[trigger] self.heap@[k];
            e.1 < self.elems@.len() && e.0 == self.elems@[e.1 as int].commit.committer.time.unix_time
        }
    }

    spec fn inv(&self) -> bool {
        self.slots_ok() && heap_ordered(self.heap@)
    }

    fn new() -> (r: Self)
        ensures
            r.inv(),
            r.heap@.len() == 0,
            r.elems@.len() == 0,
    {
        CommitQueue { heap: Vec::new(), elems: Vec::new() }
    }

    fn push(&mut self, commit: Commit, id: ObjectId)
        requires
            old(self).inv(),
        ensures
            final(self).inv(),
            final(self).heap@.len() == old(self).heap@.len() + 1,
            final(self).elems@.len() == old(self).elems@.len() + 1,
            forall|k: int| 0 <= k < old(self).elems@.len() ==> final(self).elems@[k] == old(
                self,
            ).elems@[k],
            final(self).elems@.last().commit == commit,
            final(self).elems@.last().id == id,
    {
        let key = commit.committer.time.unix_time;
        let slot = self.elems.len();
        self.elems.push(Elem { commit, id });
        let old_len = self.heap.len();
        let ghost before = self.heap@;
        self.heap.push((key, slot));
        proof {
            assert forall|k: int| 0 <= k < self.heap@.len() implies {
                let e = #[trigger] self.heap@[k];
                e.1 < self.elems@.len() && e.0 == self.elems@[e.1 as int].commit.committer.time.unix_time
            } by {
                if k < old_len {
                    assert(self.heap@[k] == before[k]);
                }
            }
            assert forall|i: int| 0 < i < self.heap@.len() && i != old_len implies self.heap@[(i - 1)
                / 2].0 >= (#[trigger] self.heap@[i]).0 by {
                assert(self.heap@[i] == before[i]);
                assert(self.heap@[(i - 1) / 2] == before[(i - 1) / 2]);
            }
        }
        self.sift_up(old_len);
    }

    fn sift_up(&mut self, pos: usize) -> (r: usize)
        requires
            old(self).slots_ok(),
            ordered_except_into(old(self).heap@, pos as int),
            bridged(old(self).heap@, pos as int),
            pos < old(self).heap@.len(),
        ensures
            final(self).inv(),
            final(self).heap@.len() == old(self).heap@.len(),
            final(self).elems == old(self).elems,
            r < final(self).heap@.len(),
    {
        let mut pos = pos;
        while pos > 0
            invariant_except_break
                self.slots_ok(),
                ordered_except_into(self.heap@, pos as int),
                bridged(self.heap@, pos as int),
                pos < self.heap@.len(),
                self.heap@.len() == old(self).heap@.len(),
                self.elems == old(self).elems,
            ensures
                self.inv(),
                pos < self.heap@.len(),
                self.heap@.len() == old(self).heap@.len(),
                self.elems == old(self).elems,
            decreases pos,
        {
            let parent = (pos - 1) / 2;
            if self.heap[pos].0 <= self.heap[parent].0 {
                break;
            }
            let ghost h = self.heap@;
            let a = self.heap[pos];
            let b = self.heap[parent];
            self.heap.set(pos, b);
            self.heap.set(parent, a);
            proof {
                assert(self.heap@ == h.update(pos as int, h[parent as int]).update(parent as int, h[pos as int]));
                self.lemma_swap_slots(h, pos as int, parent as int);
                lemma_swap_up(h, self.heap@, pos as int);
            }
            pos = parent;
        }
        pos
    }

    #[verifier::rlimit(30)]
    fn sift_down_to_bottom(&mut self)
        requires
            old(self).slots_ok(),
            ordered_except_around(old(self).heap@, 0),
            0 < old(self).heap@.len(),
        ensures
            final(self).inv(),
            final(self).heap@.len() == old(self).heap@.len(),
            final(self).elems == old(self).elems,
    {
        let end = self.heap.len();
        let mut pos: usize = 0;
        let mut child: usize = if pos < end {
            if pos <= (usize::MAX - 1) / 2 {
                2 * pos + 1
            } else {
                usize::MAX
            }
        } else {
            usize::MAX
        };
        let limit = if end >= 2 {
            end - 2
        } else {
            0
        };
        while end >= 2 && child <= limit
            invariant
                self.slots_ok(),
                ordered_except_around(self.heap@, pos as int),
                bridged(self.heap@, pos as int),
                pos < end,
                end == self.heap@.len(),
                self.heap@.len() == old(self).heap@.len(),
                self.elems == old(self).elems,
                end >= 2 ==> limit == end - 2,
                child == 2 * pos + 1 || (child == usize::MAX && 2 * pos + 1 > usize::MAX),
            decreases end - pos,
        {
            if self.heap[child].0 <= self.heap[child + 1].0 {
                child = child + 1;
            }
            let ghost h = self.heap@;
            proof {
                lemma_latest_child(h, pos as int, child as int);
            }
            let a = self.heap[pos];
            let b = self.heap[child];
            self.heap.set(pos, b);
            self.heap.set(child, a);
            proof {
                self.lemma_swap_down(h, pos as int, child as int);
            }
            pos = child;
            child = if pos <= (usize::MAX - 1) / 2 {
                2 * pos + 1
            } else {
                usize::MAX
            };
        }
        if child == end - 1 {
            let ghost h = self.heap@;
            proof {
                lemma_latest_child(h, pos as int, child as int);
            }
            let a = self.heap[pos];
            let b = self.heap[child];
            self.heap.set(pos, b);
            self.heap.set(child, a);
            proof {
                self.lemma_swap_down(h, pos as int, child as int);
            }
            pos = child;
        }
        proof {
            lemma_leaf(self.heap@, pos as int);
        }
        self.sift_up(pos);
    }

    /// Swapping two heap entries keeps each naming its commit.
    proof fn lemma_swap_slots(&self, h: Seq<(u64, usize)>, i: int, j: int)
        requires
            0 <= i < h.len(),
            0 <= j < h.len(),
            self.heap@ == h.update(i, h[j]).update(j, h[i]),
            forall|k: int| 0 <= k < h.len() ==> {
                let e = #[trigger] h[k];
                e.1 < self.elems@.len() && e.0 == self.elems@[e.1 as int].commit.committer.time.unix_time
            },
        ensures
            self.slots_ok(),
    {
        let n = self.heap@;
        assert forall|k: int| 0 <= k < n.len() implies {
            let e = #[trigger] n[k];
            e.1 < self.elems@.len() && e.0 == self.elems@[e.1 as int].commit.committer.time.unix_time
        } by {
            if k == j {
                assert(n[k] == h[i]);
            } else if k == i {
                assert(n[k] == h[j]);
            } else {
                assert(n[k] == h[k]);
            }
        }
    }

    /// Swapping the entry at `pos` with its later child keeps the order around the entry moving
    /// down.
    proof fn lemma_swap_down(&self, h: Seq<(u64, usize)>, pos: int, c: int)
        requires
            ordered_except_around(h, pos),
            bridged(h, pos),
            0 <= pos < c < h.len(),
            (c - 1) / 2 == pos,
            forall|d: int| 0 < d < h.len() && (d - 1) / 2 == pos ==> h[c].0 >= (#[trigger] h[d]).0,
            self.heap@ == h.update(pos, h[c]).update(c, h[pos]),
            forall|k: int| 0 <= k < h.len() ==> {
                let e = #[trigger] h[k];
                e.1 < self.elems@.len() && e.0 == self.elems@[e.1 as int].commit.committer.time.unix_time
            },
        ensures
            self.slots_ok(),
            ordered_except_around(self.heap@, c),
            bridged(self.heap@, c),
    {
        let n = self.heap@;
        assert forall|k: int| 0 <= k < n.len() implies {
            let e = #[trigger] n[k];
            e.1 < self.elems@.len() && e.0 == self.elems@[e.1 as int].commit.committer.time.unix_time
        } by {
            if k == pos {
                assert(n[k] == h[c]);
            } else if k == c {
                assert(n[k] == h[pos]);
            } else {
                assert(n[k] == h[k]);
            }
        }
        assert forall|i: int| 0 < i < n.len() && i != c && (i - 1) / 2 != c implies n[(i - 1) / 2].0 >= (
        #[trigger] n[i]).0 by {
            let q = (i - 1) / 2;
            if i == pos {
                assert(n[i] == h[c]);
                assert(n[q] == h[q]);
                assert(h[(pos - 1) / 2].0 >= h[c].0);
            } else if q == pos {
                assert(n[i] == h[i]);
                assert(n[q] == h[c]);
            } else {
                assert(n[i] == h[i]);
                assert(n[q] == h[q]);
            }
        }
        assert forall|d: int| 0 < d < n.len() && (d - 1) / 2 == c implies n[(c - 1) / 2].0 >= (
        #[trigger] n[d]).0 by {
            assert(n[d] == h[d]);
            assert(n[pos] == h[c]);
        }
    }

    /// Takes out the commit with the latest time.
    fn pop(&mut self) -> (r: Option<usize>)
        requires
            old(self).inv(),
        ensures
            final(self).inv(),
            final(self).elems == old(self).elems,
            old(self).heap@.len() > 0 ==> (r matches Some(k) && k < final(self).elems@.len()
                && forall|j: int| 0 <= j < old(self).heap@.len() ==> (#[trigger] old(self).heap@[j]).0
                <= final(self).elems@[k as int].commit.committer.time.unix_time)
                && final(self).heap@.len() == old(self).heap@.len() - 1,
            old(self).heap@.len() == 0 ==> r is None && final(self).heap@.len() == 0,
    {
        let ghost h = self.heap@;
        proof {
            if h.len() > 0 {
                assert forall|j: int| 0 <= j < h.len() implies (#[trigger] h[j]).0 <= h[0].0 by {
                    lemma_heap_top(h, j);
                }
                assert(h[0] == h[0]);
            }
        }
        match self.heap.pop() {
            None => None,
            Some(item) => {
                let mut item = item;
                if self.heap.len() > 0 {
                    let top = self.heap[0];
                    let ghost m = self.heap@;
                    self.heap.set(0, item);
                    item = top;
                    proof {
                        let n = self.heap@;
                        assert(m == h.drop_last());
                        assert forall|k: int| 0 <= k < n.len() implies {
                            let e = #[trigger] n[k];
                            e.1 < self.elems@.len() && e.0
                                == self.elems@[e.1 as int].commit.committer.time.unix_time
                        } by {
                            if k == 0 {
                                assert(n[k] == h[h.len() - 1]);
                            } else {
                                assert(n[k] == h[k]);
                            }
                        }
                        assert forall|i: int| 0 < i < n.len() && i != 0 && (i - 1) / 2 != 0 implies n[(i
                            - 1) / 2].0 >= (#[trigger] n[i]).0 by {
                            assert(n[i] == h[i]);
                            assert(n[(i - 1) / 2] == h[(i - 1) / 2]);
                        }
                    }
                    self.sift_down_to_bottom();
                } else {
                    proof {
                        assert(item == h[0]);
                    }
                }
                proof {
                    assert(item == h[0]);
                }
                Some(item.1)
            },
        }
    }
}

/// The flags of a name: those of its first item, 0 when no item has it.
spec fn flag_value(items: Seq<(ObjectId, u32)>, id: Seq<u8>) -> u32
    decreases items.len(),
{
    if items.len() == 0 {
        0
    } else if items[0].0@ == id {
        items[0].1
    } else {
        flag_value(items.drop_first(), id)
    }
}

proof fn lemma_flag_value_first(items: Seq<(ObjectId, u32)>, id: Seq<u8>, k: int)
    requires
        0 <= k < items.len(),
        items[k].0@ == id,
        forall|j: int| 0 <= j < k ==> (#[trigger] items[j]).0@ != id,
    ensures
        flag_value(items, id) == items[k].1,
    decreases k,
{
    if k > 0 {
        assert(items[0].0@ != id);
        lemma_flag_value_first(items.drop_first(), id, k - 1);
    }
}

proof fn lemma_flag_value_none(items: Seq<(ObjectId, u32)>, id: Seq<u8>)
    requires
        forall|j: int| 0 <= j < items.len() ==> (#[trigger] items[j]).0@ != id,
    ensures
        flag_value(items, id) == 0,
    decreases items.len(),
{
    if items.len() > 0 {
        assert(items[0].0@ != id);
        lemma_flag_value_none(items.drop_first(), id);
    }
}

proof fn lemma_flag_value_update(items: Seq<(ObjectId, u32)>, k: int, v: u32, x: Seq<u8>)
    requires
        0 <= k < items.len(),
    ensures
        flag_value(items.update(k, (items[k].0, v)), x) == (if items[k].0@ == x && (forall|j: int|
            0 <= j < k ==> (#[trigger] items[j]).0@ != x) {
            v
        } else {
            flag_value(items, x)
        }),
    decreases k,
{
    let n = items.update(k, (items[k].0, v));
    if k == 0 {
        assert(n.drop_first() =~= items.drop_first());
    } else {
        assert(n[0] == items[0]);
        assert(n.drop_first() =~= items.drop_first().update(k - 1, (items[k].0, v)));
        lemma_flag_value_update(items.drop_first(), k - 1, v, x);
        if items[0].0@ != x {
            assert((forall|j: int| 0 <= j < k ==> (#[trigger] items[j]).0@ != x) == (forall|j: int|
                0 <= j < k - 1 ==> (#[trigger] items.drop_first()[j]).0@ != x)) by {
                if forall|j: int| 0 <= j < k - 1 ==> (#[trigger] items.drop_first()[j]).0@ != x {
                    assert forall|j: int| 0 <= j < k implies (#[trigger] items[j]).0@ != x by {
                        if j > 0 {
                            assert(items[j] == items.drop_first()[j - 1]);
                        }
                    }
                }
            }
        }
    }
}

proof fn lemma_flag_value_push(items: Seq<(ObjectId, u32)>, e: (ObjectId, u32), x: Seq<u8>)
    requires
        forall|j: int| 0 <= j < items.len() ==> (#[trigger] items[j]).0@ != e.0@,
    ensures
        flag_value(items.push(e), x) == (if e.0@ == x {
            e.1
        } else {
            flag_value(items, x)
        }),
    decreases items.len(),
{
    let n = items.push(e);
    if items.len() > 0 {
        assert(n[0] == items[0]);
        assert(n.drop_first() =~= items.drop_first().push(e));
        if items[0].0@ != x {
            assert forall|j: int| 0 <= j < items.drop_first().len() implies (
            #[trigger] items.drop_first()[j]).0@ != e.0@ by {
                assert(items.drop_first()[j] == items[j + 1]);
            }
            lemma_flag_value_push(items.drop_first(), e, x);
            assert(flag_value(n, x) == flag_value(n.drop_first(), x));
            assert(flag_value(items, x) == flag_value(items.drop_first(), x));
        } else {
            assert(items[0].0@ != e.0@);
            assert(flag_value(n, x) == n[0].1);
        }
    } else {
        assert(n.drop_first() =~= Seq::<(ObjectId, u32)>::empty());
        assert(flag_value(n.drop_first(), x) == 0);
        assert(n[0] == e);
    }
}

/// The flags of each commit met, by name.
struct FlagMap {
    items: Vec<(ObjectId, u32)>,
}

impl FlagMap {
    fn find(&self, id: &ObjectId) -> (r: Option<usize>)
        ensures
            r matches Some(k) ==> k < self.items@.len() && self.items@[k as int].0@ == id@ && forall|
                j: int,
            | 0 <= j < k ==> (#[trigger] self.items@[j]).0@ != id@,
            r is None ==> forall|k: int| 0 <= k < self.items@.len() ==> (#[trigger] self.items@[k]).0@ != id@,
    {
        let mut k: usize = 0;
        while k < self.items.len()
            invariant
                k <= self.items@.len(),
                forall|j: int| 0 <= j < k ==> (#[trigger] self.items@[j]).0@ != id@,
            decreases self.items@.len() - k,
        {
            if self.items[k].0 == *id {
                return Some(k);
            }
            k = k + 1;
        }
        None
    }

    /// The flags of a commit, 0 when it was not met.
    fn get(&self, id: &ObjectId) -> (r: u32)
        ensures
            r == flag_value(self.items@, id@),
            r == 0 || exists|k: int| 0 <= k < self.items@.len() && (#[trigger] self.items@[k]).0@ == id@
                && self.items@[k].1 == r,
    {
        match self.find(id) {
            Some(k) => {
                proof {
                    lemma_flag_value_first(self.items@, id@, k as int);
                }
                self.items[k].1
            },
            None => {
                proof {
                    lemma_flag_value_none(self.items@, id@);
                }
                0
            },
        }
    }

    /// Adds flags to a commit.
    fn or(&mut self, id: &ObjectId, flags: u32)
        ensures
            final(self).items@.len() >= old(self).items@.len(),
            forall|k: int| 0 <= k < final(self).items@.len() ==> {
                let it = #[trigger] final(self).items@[k];
                ||| k < old(self).items@.len() && it == old(self).items@[k]
                ||| it.0@ == id@ && (k < old(self).items@.len() ==> it.0 == old(self).items@[k].0
                    && it.1 == old(self).items@[k].1 | flags) && (k >= old(self).items@.len() ==> it.1
                    == flags)
            },
            flag_value(final(self).items@, id@) == flag_value(old(self).items@, id@) | flags,
            forall|x: Seq<u8>| x != id@ ==> #[trigger] flag_value(final(self).items@, x) == flag_value(
                old(self).items@,
                x,
            ),
    {
        let ghost before = self.items@;
        match self.find(id) {
            Some(k) => {
                let (i, f) = self.items[k];
                self.items.set(k, (i, f | flags));
                proof {
                    assert(self.items@ == before.update(k as int, (before[k as int].0, f | flags)));
                    lemma_flag_value_first(before, id@, k as int);
                    lemma_flag_value_update(before, k as int, f | flags, id@);
                    assert forall|x: Seq<u8>| x != id@ implies #[trigger] flag_value(self.items@, x)
                        == flag_value(before, x) by {
                        lemma_flag_value_update(before, k as int, f | flags, x);
                    }
                }
            },
            None => {
                self.items.push((*id, flags));
                proof {
                    lemma_flag_value_none(before, id@);
                    lemma_flag_value_push(before, (*id, flags), id@);
                    assert(0u32 | flags == flags) by (bit_vector);
                    assert forall|x: Seq<u8>| x != id@ implies #[trigger] flag_value(self.items@, x)
                        == flag_value(before, x) by {
                        lemma_flag_value_push(before, (*id, flags), x);
                    }
                }
            },
        }
    }
}

/// Commits and their names, as views.
pub open spec fn pairs_view(v: Seq<(Commit, ObjectId)>) -> Seq<(CommitV, Seq<u8>)> {
    v.map_values(|x: (Commit, ObjectId)| (x.0@, x.1@))
}

/// The bases whose flags are not stale, in order.
spec fn kept_of(bases: Seq<(Commit, ObjectId)>, items: Seq<(ObjectId, u32)>) -> Seq<(CommitV, Seq<u8>)>
    decreases bases.len(),
{
    if bases.len() == 0 {
        seq![]
    } else {
        let p = kept_of(bases.drop_last(), items);
        let b = bases.last();
        if flag_value(items, b.1@) & STALE == 0 {
            p.push((b.0@, b.1@))
        } else {
            p
        }
    }
}

/// `b` is a parent of `a` in some commit handed in for `a`.
pub open spec fn parent_edge(seen: Set<(Seq<u8>, CommitV)>, a: Seq<u8>, b: Seq<u8>) -> bool {
    exists|c: CommitV| #[trigger] seen.contains((a, c)) && c.1.contains(b)
}

/// A chain of parent edges leads from `a` to `b` (of no edge when `a` is `b`).
pub open spec fn reaches(seen: Set<(Seq<u8>, CommitV)>, a: Seq<u8>, b: Seq<u8>) -> bool {
    exists|path: Seq<Seq<u8>>| #[trigger] is_path(seen, path) && path[0] == a && path.last() == b
}

pub open spec fn is_path(seen: Set<(Seq<u8>, CommitV)>, path: Seq<Seq<u8>>) -> bool {
    &&& path.len() >= 1
    &&& forall|i: int| 0 <= i < path.len() - 1 ==> parent_edge(seen, #[trigger] path[i], path[i + 1])
}

proof fn lemma_reaches_self(seen: Set<(Seq<u8>, CommitV)>, a: Seq<u8>)
    ensures
        reaches(seen, a, a),
{
    let path = seq![a];
    assert(is_path(seen, path));
}

proof fn lemma_reaches_extend(seen: Set<(Seq<u8>, CommitV)>, a: Seq<u8>, b: Seq<u8>, c: Seq<u8>)
    requires
        reaches(seen, a, b),
        parent_edge(seen, b, c),
    ensures
        reaches(seen, a, c),
{
    let path = choose|path: Seq<Seq<u8>>| #[trigger] is_path(seen, path) && path[0] == a && path.last() == b;
    let p2 = path.push(c);
    assert forall|i: int| 0 <= i < p2.len() - 1 implies parent_edge(seen, #[trigger] p2[i], p2[i + 1]) by {
        if i < path.len() - 1 {
            assert(p2[i] == path[i] && p2[i + 1] == path[i + 1]);
        } else {
            assert(p2[i] == b && p2[i + 1] == c);
        }
    }
    assert(is_path(seen, p2));
}

proof fn lemma_reaches_grow(seen: Set<(Seq<u8>, CommitV)>, more: Set<(Seq<u8>, CommitV)>, a: Seq<u8>, b: Seq<u8>)
    requires
        reaches(seen, a, b),
        seen.subset_of(more),
    ensures
        reaches(more, a, b),
{
    let path = choose|path: Seq<Seq<u8>>| #[trigger] is_path(seen, path) && path[0] == a && path.last() == b;
    assert forall|i: int| 0 <= i < path.len() - 1 implies parent_edge(more, #[trigger] path[i], path[i + 1]) by {
        assert(parent_edge(seen, path[i], path[i + 1]));
        let c = choose|c: CommitV| #[trigger] seen.contains((path[i], c)) && c.1.contains(path[i + 1]);
        assert(more.contains((path[i], c)));
    }
    assert(is_path(more, path));
}

proof fn lemma_flag_bits(a: u32, b: u32, m: u32)
    ensures
        (a | b) & m != 0 ==> a & m != 0 || b & m != 0,
        (a & b) & m != 0 ==> a & m != 0,
{
    assert((a | b) & m != 0 ==> a & m != 0 || b & m != 0) by (bit_vector);
    assert((a & b) & m != 0 ==> a & m != 0) by (bit_vector);
}

/// Commits ordered from the latest committer time to the earliest.
pub open spec fn sorted_by_time_desc(v: Seq<(Commit, ObjectId)>) -> bool {
    forall|a: int, b: int|
        0 <= a < b < v.len() ==> (#[trigger] v[a]).0.committer.time.unix_time
            >= (#[trigger] v[b]).0.committer.time.unix_time
}

/// Some commit waiting in the queue is not stale.
spec fn nonstale(queue: &CommitQueue, flags: &FlagMap) -> bool {
    exists|k: int| 0 <= k < queue.heap@.len() && flag_value(
        flags.items@,
        queue.elems@[(#[trigger] queue.heap@[k]).1 as int].id@,
    ) & STALE == 0
}

/// Whether some commit in the queue is not stale.
fn has_nonstale_elems(queue: &CommitQueue, flags: &FlagMap) -> (r: bool)
    requires
        queue.inv(),
    ensures
        r == nonstale(queue, flags),
{
    let mut k: usize = 0;
    while k < queue.heap.len()
        invariant
            queue.inv(),
            k <= queue.heap@.len(),
            forall|j: int| 0 <= j < k ==> flag_value(
                flags.items@,
                queue.elems@[(#[trigger] queue.heap@[j]).1 as int].id@,
            ) & STALE != 0,
        decreases queue.heap@.len() - k,
    {
        let slot = queue.heap[k].1;
        if flags.get(&queue.elems[slot].id) & STALE == 0 {
            return true;
        }
        k = k + 1;
    }
    false
}

/// Sorts by committer time, latest first, keeping the order of equal times.
fn sort_by_time_desc(v: Vec<(Commit, ObjectId)>) -> (r: Vec<(Commit, ObjectId)>)
    ensures
        sorted_by_time_desc(r@),
        r@.to_multiset() == v@.to_multiset(),
{
    let mut out: Vec<(Commit, ObjectId)> = Vec::new();
    let mut rest = v;
    let ghost whole = v@.to_multiset();
    proof {
        broadcast use vstd::multiset::group_multiset_axioms;
        vstd::seq_lib::to_multiset_len(out@);
        vstd::multiset::lemma_multiset_empty_len(out@.to_multiset());
        assert(out@.to_multiset().add(rest@.to_multiset()) =~= whole);
    }
    while rest.len() > 0
        invariant
            sorted_by_time_desc(out@),
            out@.to_multiset().add(rest@.to_multiset()) == whole,
        decreases rest@.len(),
    {
        let ghost before = rest@;
        let item = rest.remove(0);
        proof {
            before.to_multiset_ensures();
            assert(before.remove(0) == rest@);
        }
        let t = item.0.committer.time.unix_time;
        let mut pos: usize = 0;
        while pos < out.len() && out[pos].0.committer.time.unix_time >= t
            invariant
                pos <= out@.len(),
                forall|a: int| 0 <= a < pos ==> (#[trigger] out@[a]).0.committer.time.unix_time >= t,
            decreases out@.len() - pos,
        {
            pos = pos + 1;
        }
        let ghost prev = out@;
        out.insert(pos, item);
        proof {
            broadcast use vstd::multiset::group_multiset_axioms;
            vstd::seq_lib::to_multiset_insert(prev, pos as int, item);
            assert(out@.to_multiset().add(rest@.to_multiset()) =~= whole);
        }
        assert forall|a: int, b: int| 0 <= a < b < out@.len() implies (#[trigger] out@[a]).0.committer.time.unix_time
            >= (#[trigger] out@[b]).0.committer.time.unix_time by {
            if b < pos {
                assert(out@[a] == prev[a] && out@[b] == prev[b]);
            } else if b == pos {
                assert(out@[a] == prev[a]);
            } else if a < pos {
                assert(out@[a] == prev[a] && out@[b] == prev[b - 1]);
                if pos < prev.len() {
                    assert(!(prev[pos as int].0.committer.time.unix_time >= t) || pos == prev.len());
                }
            } else if a == pos {
                assert(out@[b] == prev[b - 1]);
            } else {
                assert(out@[a] == prev[a - 1] && out@[b] == prev[b - 1]);
            }
        }
    }
    proof {
        broadcast use vstd::multiset::group_multiset_axioms;
        vstd::seq_lib::to_multiset_len(rest@);
        vstd::multiset::lemma_multiset_empty_len(rest@.to_multiset());
        assert(out@.to_multiset() =~= whole);
    }
    out
}


proof fn lemma_flag_constants()
    ensures
        FIRST & SECOND == 0,
        SECOND & FIRST == 0,
        (FIRST | SECOND) & FIRST != 0,
        (FIRST | SECOND) & SECOND != 0,
        STALE & FIRST == 0,
        STALE & SECOND == 0,
        BASE & FIRST == 0,
        BASE & SECOND == 0,
        0u32 & FIRST == 0,
        0u32 & SECOND == 0,
{
    assert(1u32 & 2u32 == 0 && 2u32 & 1u32 == 0 && (1u32 | 2u32) & 1u32 != 0 && (1u32 | 2u32) & 2u32 != 0 && 4u32 & 1u32
        == 0 && 4u32 & 2u32 == 0 && 8u32 & 1u32 == 0 && 8u32 & 2u32 == 0 && 0u32 & 1u32 == 0
        && 0u32 & 2u32 == 0) by (bit_vector);
}

/// `id` is reached from `first` and from one of `others`.
pub open spec fn common_in(
    seen: Set<(Seq<u8>, CommitV)>,
    first: Seq<u8>,
    others: Seq<Seq<u8>>,
    id: Seq<u8>,
) -> bool {
    &&& reaches(seen, first, id)
    &&& exists|j: int| 0 <= j < others.len() && #[trigger] reaches(seen, others[j], id)
}

/// What the flags of a commit claim: `FIRST` that it is reached from `first`, `SECOND` that it
/// is reached from one of `others`.
pub open spec fn flags_sound(
    seen: Set<(Seq<u8>, CommitV)>,
    first: Seq<u8>,
    others: Seq<Seq<u8>>,
    id: Seq<u8>,
    flags: u32,
) -> bool {
    &&& flags & FIRST != 0 ==> reaches(seen, first, id)
    &&& flags & SECOND != 0 ==> exists|j: int| 0 <= j < others.len() && #[trigger] reaches(
        seen,
        others[j],
        id,
    )
}

proof fn lemma_reaches_grow_all(seen: Set<(Seq<u8>, CommitV)>, more: Set<(Seq<u8>, CommitV)>)
    requires
        seen.subset_of(more),
    ensures
        forall|a: Seq<u8>, b: Seq<u8>| reaches(seen, a, b) ==> #[trigger] reaches(more, a, b),
{
    assert forall|a: Seq<u8>, b: Seq<u8>| reaches(seen, a, b) implies #[trigger] reaches(more, a, b) by {
        lemma_reaches_grow(seen, more, a, b);
    }
}

/// A search for the best common ancestors of one commit and some others, walking back from
/// them latest committer first. It is handed the commits it asks for, and knows the history
/// only through them: `seen` holds each commit handed in with the name it was asked for under.
pub struct MergeBaseSearch {
    map: FlagMap,
    queue: CommitQueue,
    bases: Vec<(Commit, ObjectId)>,
    steps: u64,
    parents: Vec<ObjectId>,
    next: usize,
    flags: u32,
    current: Ghost<Seq<u8>>,
    wanted: Option<ObjectId>,
    seen: Ghost<Set<(Seq<u8>, CommitV)>>,
    first: Ghost<Seq<u8>>,
    others: Ghost<Seq<Seq<u8>>>,
}

impl MergeBaseSearch {
    /// The commits handed in, each with its name.
    pub closed spec fn seen(&self) -> Set<(Seq<u8>, CommitV)> {
        self.seen@
    }

    /// The commit whose ancestors are searched.
    pub closed spec fn first(&self) -> Seq<u8> {
        self.first@
    }

    /// The commits whose common ancestors with the first are searched.
    pub closed spec fn others(&self) -> Seq<Seq<u8>> {
        self.others@
    }

    /// The name whose commit the search waits for.
    pub closed spec fn awaiting(&self) -> Option<Seq<u8>> {
        match self.wanted {
            Some(id) => Some(id@),
            None => None,
        }
    }

    /// The commit being visited.
    pub closed spec fn visiting(&self) -> Seq<u8> {
        self.current@
    }

    /// The search is over: every parent of the commit visited has been looked at, and no commit
    /// waiting in the queue is live.
    pub closed spec fn over(&self) -> bool {
        self.next == self.parents@.len() && !nonstale(&self.queue, &self.map)
    }

    /// The bases met, in the order met, less those marked stale since.
    pub closed spec fn found(&self) -> Seq<(CommitV, Seq<u8>)> {
        kept_of(self.bases@, self.map.items@)
    }

    /// How many more commits the search may take from its queue.
    pub closed spec fn steps_left(&self) -> nat {
        (u64::MAX - self.steps) as nat
    }

    /// How many parents of the commit being visited are still to be looked at.
    pub closed spec fn parents_left(&self) -> nat {
        (self.parents@.len() - self.next) as nat
    }

    /// `id` is reached from the first commit and from one of the others, through the commits
    /// handed in.
    pub open spec fn common(&self, id: Seq<u8>) -> bool {
        common_in(self.seen(), self.first(), self.others(), id)
    }

    pub closed spec fn wf(&self) -> bool {
        &&& self.queue.inv()
        &&& forall|k: int| 0 <= k < self.queue.elems@.len() ==> self.seen@.contains(
            ((#[trigger] self.queue.elems@[k]).id@, self.queue.elems@[k].commit@),
        )
        &&& forall|k: int| 0 <= k < self.map.items@.len() ==> flags_sound(
            self.seen@,
            self.first@,
            self.others@,
            (#[trigger] self.map.items@[k]).0@,
            self.map.items@[k].1,
        )
        &&& self.next <= self.parents@.len()
        &&& (self.parents@.len() > 0 ==> exists|c: CommitV| #[trigger] self.seen@.contains(
            (self.current@, c),
        ) && c.1 == ids_view(self.parents@))
        &&& flags_sound(self.seen@, self.first@, self.others@, self.current@, self.flags)
        &&& forall|k: int| 0 <= k < self.bases@.len() ==> self.seen@.contains(
            ((#[trigger] self.bases@[k]).1@, self.bases@[k].0@),
        ) && common_in(self.seen@, self.first@, self.others@, self.bases@[k].1@)
    }

    /// A search from `first_id`, whose commit is `commit`.
    pub fn new(first_id: ObjectId, commit: Commit) -> (r: Self)
        ensures
            r.wf(),
            r.seen() == set![(first_id@, commit@)],
            r.first() == first_id@,
            r.others() == Seq::<Seq<u8>>::empty(),
            r.awaiting() is None,
    {
        let ghost cv = commit@;
        let ghost seen0 = set![(first_id@, cv)];
        let mut queue = CommitQueue::new();
        queue.push(commit, first_id);
        let mut items: Vec<(ObjectId, u32)> = Vec::new();
        items.push((first_id, FIRST));
        let s = MergeBaseSearch {
            map: FlagMap { items },
            queue,
            bases: Vec::new(),
            steps: 0,
            parents: Vec::new(),
            next: 0,
            flags: 0,
            current: Ghost(first_id@),
            wanted: None,
            seen: Ghost(seen0),
            first: Ghost(first_id@),
            others: Ghost(Seq::empty()),
        };
        proof {
            lemma_reaches_self(s.seen@, first_id@);
            lemma_flag_constants();
            assert(s.queue.elems@[0].id == first_id);
        }
        s
    }

    /// Adds a commit to search from, before the search starts.
    pub fn add_other(&mut self, id: ObjectId, commit: Commit)
        requires
            old(self).wf(),
            old(self).awaiting() is None,
        ensures
            final(self).wf(),
            final(self).seen() == old(self).seen().insert((id@, commit@)),
            final(self).first() == old(self).first(),
            final(self).others() == old(self).others().push(id@),
            final(self).awaiting() is None,
            final(self).steps_left() == old(self).steps_left(),
            final(self).parents_left() == old(self).parents_left(),
    {
        let ghost old_seen = self.seen@;
        let ghost old_others = self.others@;
        let ghost old_items = self.map.items@;
        let ghost cv = commit@;
        proof {
            self.seen@ = self.seen@.insert((id@, cv));
            self.others@ = self.others@.push(id@);
            lemma_reaches_grow_all(old_seen, self.seen@);
            lemma_reaches_self(self.seen@, id@);
            lemma_flag_constants();
        }
        self.queue.push(commit, id);
        self.map.or(&id, SECOND);
        proof {
            let seen = self.seen@;
            let others = self.others@;
            assert forall|k: int| 0 <= k < self.map.items@.len() implies flags_sound(
                seen,
                self.first@,
                others,
                (#[trigger] self.map.items@[k]).0@,
                self.map.items@[k].1,
            ) by {
                let it = self.map.items@[k];
                if k < old_items.len() && it == old_items[k] {
                    assert(flags_sound(old_seen, self.first@, old_others, it.0@, it.1));
                    if it.1 & SECOND != 0 {
                        let j = choose|j: int| 0 <= j < old_others.len() && #[trigger] reaches(
                            old_seen,
                            old_others[j],
                            it.0@,
                        );
                        assert(others[j] == old_others[j]);
                        assert(reaches(seen, others[j], it.0@));
                    }
                } else {
                    assert(it.0@ == id@);
                    if k < old_items.len() {
                        let o = old_items[k];
                        assert(flags_sound(old_seen, self.first@, old_others, o.0@, o.1));
                        lemma_flag_bits(o.1, SECOND, FIRST);
                        lemma_flag_bits(o.1, SECOND, SECOND);
                    }
                    assert(others[others.len() - 1] == id@);
                    assert(reaches(seen, others[others.len() - 1], id@));
                }
            }
            if self.flags & SECOND != 0 {
                let j = choose|j: int| 0 <= j < old_others.len() && #[trigger] reaches(
                    old_seen,
                    old_others[j],
                    self.current@,
                );
                assert(others[j] == old_others[j]);
                assert(reaches(seen, others[j], self.current@));
            }
            assert forall|k: int| 0 <= k < self.bases@.len() implies seen.contains(
                ((#[trigger] self.bases@[k]).1@, self.bases@[k].0@),
            ) && common_in(seen, self.first@, others, self.bases@[k].1@) by {
                let b = self.bases@[k];
                assert(common_in(old_seen, self.first@, old_others, b.1@));
                let j = choose|j: int| 0 <= j < old_others.len() && #[trigger] reaches(
                    old_seen,
                    old_others[j],
                    b.1@,
                );
                assert(others[j] == old_others[j]);
                assert(reaches(seen, others[j], b.1@));
            }
            if self.parents@.len() > 0 {
                let c = choose|c: CommitV| #[trigger] old_seen.contains((self.current@, c)) && c.1
                    == ids_view(self.parents@);
                assert(seen.contains((self.current@, c)));
            }
            assert forall|k: int| 0 <= k < self.queue.elems@.len() implies seen.contains(
                ((#[trigger] self.queue.elems@[k]).id@, self.queue.elems@[k].commit@),
            ) by {
                if k < self.queue.elems@.len() - 1 {
                    assert(old_seen.contains((self.queue.elems@[k].id@, self.queue.elems@[k].commit@)));
                }
            }
        }
    }

    /// Goes on with the search until it needs the commit of a parent, whose name it gives;
    /// `None` when the search is over.
    pub fn next_parent(&mut self) -> (r: Result<Option<ObjectId>, Error>)
        requires
            old(self).wf(),
            old(self).awaiting() is None,
        ensures
            final(self).wf(),
            final(self).seen() == old(self).seen(),
            final(self).first() == old(self).first(),
            final(self).others() == old(self).others(),
            r matches Ok(Some(p)) ==> final(self).awaiting() == Some(p@) && (final(self).steps_left()
                < old(self).steps_left() || (final(self).steps_left() == old(self).steps_left()
                && final(self).parents_left() < old(self).parents_left())),
            !(r matches Ok(Some(_))) ==> final(self).awaiting() is None,
            r matches Err(e) ==> e is SearchTooLong && final(self).steps_left() == 0,
            r matches Ok(None) ==> final(self).over(),
            r matches Ok(Some(p)) ==> parent_edge(final(self).seen(), final(self).visiting(), p@),
    {
        loop
            invariant
                self.wf(),
                self.wanted is None,
                self.seen@ == old(self).seen@,
                self.first@ == old(self).first@,
                self.others@ == old(self).others@,
                self.steps >= old(self).steps,
                self.steps == old(self).steps ==> self.parents@.len() - self.next <= old(
                    self,
                ).parents@.len() - old(self).next,
            decreases u64::MAX - self.steps, self.parents@.len() - self.next,
        {
            if self.next < self.parents.len() {
                let pid = self.parents[self.next];
                self.next = self.next + 1;
                let pf = self.map.get(&pid);
                if pf & self.flags == self.flags {
                    continue;
                }
                let ghost old_items = self.map.items@;
                let ghost seen = self.seen@;
                let ghost cur = self.current@;
                proof {
                    let c = choose|c: CommitV| #[trigger] seen.contains((cur, c)) && c.1 == ids_view(
                        self.parents@,
                    );
                    assert(c.1[self.next - 1] == pid@);
                    assert(parent_edge(seen, cur, pid@));
                    if self.flags & FIRST != 0 {
                        lemma_reaches_extend(seen, self.first@, cur, pid@);
                    }
                    if self.flags & SECOND != 0 {
                        let j = choose|j: int| 0 <= j < self.others@.len() && #[trigger] reaches(
                            seen,
                            self.others@[j],
                            cur,
                        );
                        lemma_reaches_extend(seen, self.others@[j], cur, pid@);
                    }
                }
                self.map.or(&pid, self.flags);
                proof {
                    assert forall|k: int| 0 <= k < self.map.items@.len() implies flags_sound(
                        seen,
                        self.first@,
                        self.others@,
                        (#[trigger] self.map.items@[k]).0@,
                        self.map.items@[k].1,
                    ) by {
                        let it = self.map.items@[k];
                        if k < old_items.len() && it == old_items[k] {
                        } else {
                            if k < old_items.len() {
                                let o = old_items[k];
                                assert(flags_sound(seen, self.first@, self.others@, o.0@, o.1));
                                lemma_flag_bits(o.1, self.flags, FIRST);
                                lemma_flag_bits(o.1, self.flags, SECOND);
                            }
                        }
                    }
                }
                self.wanted = Some(pid);
                return Ok(Some(pid));
            }
            if !has_nonstale_elems(&self.queue, &self.map) {
                return Ok(None);
            }
            if self.steps == u64::MAX {
                return Err(Error::SearchTooLong);
            }
            self.steps = self.steps + 1;
            let slot = match self.queue.pop() {
                Some(s) => s,
                None => {
                    return Ok(None);
                },
            };
            let id = self.queue.elems[slot].id;
            let cur = self.map.get(&id);
            let mut flags = cur & (FIRST | SECOND | STALE);
            let ghost seen = self.seen@;
            proof {
                lemma_flag_bits(cur, FIRST | SECOND | STALE, FIRST);
                lemma_flag_bits(cur, FIRST | SECOND | STALE, SECOND);
                lemma_flag_constants();
                if cur != 0 {
                    let k = choose|k: int| 0 <= k < self.map.items@.len() && (#[trigger] self.map.items@[k]).0@
                        == id@ && self.map.items@[k].1 == cur;
                    assert(flags_sound(seen, self.first@, self.others@, self.map.items@[k].0@, cur));
                }
                assert(flags_sound(seen, self.first@, self.others@, id@, flags));
                assert(seen.contains((id@, self.queue.elems@[slot as int].commit@)));
            }
            if flags == (FIRST | SECOND) {
                if cur & BASE == 0 {
                    let commit = self.queue.elems[slot].commit.duplicate();
                    let ghost old_items = self.map.items@;
                    self.bases.push((commit, id));
                    self.map.or(&id, BASE);
                    proof {
                        assert forall|k: int| 0 <= k < self.map.items@.len() implies flags_sound(
                            seen,
                            self.first@,
                            self.others@,
                            (#[trigger] self.map.items@[k]).0@,
                            self.map.items@[k].1,
                        ) by {
                            let it = self.map.items@[k];
                            if k < old_items.len() && it == old_items[k] {
                            } else {
                                lemma_flag_bits(it.1, 0, FIRST);
                                if k < old_items.len() {
                                    let o = old_items[k];
                                    assert(flags_sound(seen, self.first@, self.others@, o.0@, o.1));
                                    lemma_flag_bits(o.1, BASE, FIRST);
                                    lemma_flag_bits(o.1, BASE, SECOND);
                                } else {
                                    assert(it.1 == BASE);
                                }
                            }
                        }
                        let nb = self.bases@.len() - 1;
                        assert(self.bases@[nb].1@ == id@);
                    }
                }
                flags = flags | STALE;
                proof {
                    lemma_flag_bits(FIRST | SECOND, STALE, FIRST);
                    lemma_flag_bits(FIRST | SECOND, STALE, SECOND);
                }
            }
            let commit = &self.queue.elems[slot].commit;
            let mut parents: Vec<ObjectId> = Vec::new();
            let mut i: usize = 0;
            while i < commit.parents.len()
                invariant
                    i <= commit.parents@.len(),
                    parents@ == commit.parents@.take(i as int),
                decreases commit.parents@.len() - i,
            {
                parents.push(commit.parents[i]);
                i = i + 1;
                assert(parents@ =~= commit.parents@.take(i as int));
            }
            let ghost cv = commit@;
            proof {
                assert(commit.parents@.take(i as int) =~= commit.parents@);
                assert(seen.contains((id@, cv)));
                assert(cv.1 == ids_view(parents@));
            }
            self.parents = parents;
            self.next = 0;
            self.flags = flags;
            self.current = Ghost(id@);
            proof {
                assert(self.seen@.contains((self.current@, cv)) && cv.1 == ids_view(self.parents@));
            }
        }
    }

    /// Hands in the commit the search waits for.
    pub fn feed(&mut self, commit: Commit)
        requires
            old(self).wf(),
            old(self).awaiting() is Some,
        ensures
            final(self).wf(),
            final(self).seen() == old(self).seen().insert((old(self).awaiting()->0, commit@)),
            final(self).first() == old(self).first(),
            final(self).others() == old(self).others(),
            final(self).awaiting() is None,
            final(self).steps_left() == old(self).steps_left(),
            final(self).parents_left() == old(self).parents_left(),
    {
        let id = match self.wanted {
            Some(id) => id,
            None => {
                return;
            },
        };
        let ghost old_seen = self.seen@;
        let ghost cv = commit@;
        proof {
            self.seen@ = self.seen@.insert((id@, cv));
            lemma_reaches_grow_all(old_seen, self.seen@);
        }
        self.queue.push(commit, id);
        self.wanted = None;
        proof {
            let seen = self.seen@;
            assert forall|k: int| 0 <= k < self.map.items@.len() implies flags_sound(
                seen,
                self.first@,
                self.others@,
                (#[trigger] self.map.items@[k]).0@,
                self.map.items@[k].1,
            ) by {
                let it = self.map.items@[k];
                assert(flags_sound(old_seen, self.first@, self.others@, it.0@, it.1));
                if it.1 & SECOND != 0 {
                    let j = choose|j: int| 0 <= j < self.others@.len() && #[trigger] reaches(
                        old_seen,
                        self.others@[j],
                        it.0@,
                    );
                    assert(reaches(seen, self.others@[j], it.0@));
                }
            }
            if self.flags & SECOND != 0 {
                let j = choose|j: int| 0 <= j < self.others@.len() && #[trigger] reaches(
                    old_seen,
                    self.others@[j],
                    self.current@,
                );
                assert(reaches(seen, self.others@[j], self.current@));
            }
            assert forall|k: int| 0 <= k < self.bases@.len() implies seen.contains(
                ((#[trigger] self.bases@[k]).1@, self.bases@[k].0@),
            ) && common_in(seen, self.first@, self.others@, self.bases@[k].1@) by {
                let b = self.bases@[k];
                assert(common_in(old_seen, self.first@, self.others@, b.1@));
                let j = choose|j: int| 0 <= j < self.others@.len() && #[trigger] reaches(
                    old_seen,
                    self.others@[j],
                    b.1@,
                );
                assert(reaches(seen, self.others@[j], b.1@));
            }
            if self.parents@.len() > 0 {
                let c = choose|c: CommitV| #[trigger] old_seen.contains((self.current@, c)) && c.1
                    == ids_view(self.parents@);
                assert(seen.contains((self.current@, c)));
            }
            assert forall|k: int| 0 <= k < self.queue.elems@.len() implies seen.contains(
                ((#[trigger] self.queue.elems@[k]).id@, self.queue.elems@[k].commit@),
            ) by {
                if k < self.queue.elems@.len() - 1 {
                    assert(old_seen.contains((self.queue.elems@[k].id@, self.queue.elems@[k].commit@)));
                }
            }
        }
    }

    /// The best common ancestors found, latest committer first: the bases met, less those that
    /// the walk from a later base marked stale. Each is a commit handed in under its name and
    /// reached from the first commit and from one of the others.
    pub fn finish(self) -> (r: Vec<(Commit, ObjectId)>)
        requires
            self.wf(),
        ensures
            sorted_by_time_desc(r@),
            forall|k: int| 0 <= k < r@.len() ==> self.seen().contains(
                ((#[trigger] r@[k]).1@, r@[k].0@),
            ) && self.common(r@[k].1@),
            r@.len() == self.found().len(),
            forall|k: int| 0 <= k < r@.len() ==> #[trigger] self.found().contains(
                (r@[k].0@, r@[k].1@),
            ),
            forall|j: int| 0 <= j < self.found().len() ==> pairs_view(r@).contains(
                #[trigger] self.found()[j],
            ),
    {
        let mut kept: Vec<(Commit, ObjectId)> = Vec::new();
        let mut k: usize = 0;
        while k < self.bases.len()
            invariant
                self.wf(),
                k <= self.bases@.len(),
                forall|j: int| 0 <= j < kept@.len() ==> self.seen@.contains(
                    ((#[trigger] kept@[j]).1@, kept@[j].0@),
                ) && common_in(self.seen@, self.first@, self.others@, kept@[j].1@),
                pairs_view(kept@) == kept_of(self.bases@.take(k as int), self.map.items@),
            decreases self.bases@.len() - k,
        {
            let ghost prev = kept@;
            proof {
                assert(self.bases@.take(k + 1).drop_last() =~= self.bases@.take(k as int));
                assert(self.bases@.take(k + 1).last() == self.bases@[k as int]);
            }
            if self.map.get(&self.bases[k].1) & STALE == 0 {
                let c = self.bases[k].0.duplicate();
                kept.push((c, self.bases[k].1));
                proof {
                    let b = self.bases@[k as int];
                    assert(self.seen@.contains((b.1@, b.0@)));
                    assert(pairs_view(kept@) =~= pairs_view(prev).push((b.0@, b.1@)));
                }
            }
            k = k + 1;
        }
        proof {
            assert(self.bases@.take(k as int) =~= self.bases@);
        }
        let ghost kv = kept@;
        let r = sort_by_time_desc(kept);
        proof {
            assert forall|k: int| 0 <= k < r@.len() implies self.seen().contains(
                ((#[trigger] r@[k]).1@, r@[k].0@),
            ) && self.common(r@[k].1@) && self.found().contains((r@[k].0@, r@[k].1@)) by {
                lemma_member_of_same_multiset(r@, kv, k);
                let j = choose|j: int| 0 <= j < kv.len() && kv[j] == r@[k];
                assert(self.seen@.contains((kv[j].1@, kv[j].0@)));
                assert(pairs_view(kv)[j] == (r@[k].0@, r@[k].1@));
            }
            assert forall|j: int| 0 <= j < self.found().len() implies pairs_view(r@).contains(
                #[trigger] self.found()[j],
            ) by {
                assert(pairs_view(kv)[j] == (kv[j].0@, kv[j].1@));
                lemma_member_of_same_multiset(kv, r@, j);
                let k = choose|k: int| 0 <= k < r@.len() && r@[k] == kv[j];
                assert(pairs_view(r@)[k] == self.found()[j]);
            }
            vstd::seq_lib::to_multiset_len(r@);
            vstd::seq_lib::to_multiset_len(kv);
        }
        r
    }
}

/// An element of a sequence is an element of any sequence with the same multiset.
pub proof fn lemma_member_of_same_multiset<A>(a: Seq<A>, b: Seq<A>, k: int)
    requires
        a.to_multiset() == b.to_multiset(),
        0 <= k < a.len(),
    ensures
        exists|j: int| 0 <= j < b.len() && b[j] == a[k],
{
    a.to_multiset_ensures();
    b.to_multiset_ensures();
    assert(a.contains(a[k]));
    assert(b.to_multiset().count(a[k]) > 0);
    assert(b.contains(a[k]));
}

/// `b` is a parent of the commit stored under `a`.
pub open spec fn stored_parent<T: IOdb>(odb: &T, a: Seq<u8>, b: Seq<u8>) -> bool {
    odb.object_at(a) matches Some(ObjectV::Commit(c)) && c.1.contains(b)
}

/// Each name along `path` is a parent of the commit stored under the name before it.
pub open spec fn is_stored_path<T: IOdb>(odb: &T, path: Seq<Seq<u8>>) -> bool {
    &&& path.len() >= 1
    &&& forall|i: int| 0 <= i < path.len() - 1 ==> stored_parent(odb, #[trigger] path[i], path[i + 1])
}

/// A chain of stored commits leads from `a` to `b` by parents.
pub open spec fn reaches_in_store<T: IOdb>(odb: &T, a: Seq<u8>, b: Seq<u8>) -> bool {
    exists|path: Seq<Seq<u8>>| #[trigger] is_stored_path(odb, path) && path[0] == a && path.last() == b
}

/// `id` is an ancestor, through stored commits, of `first` and of one of `others`.
pub open spec fn common_in_store<T: IOdb>(odb: &T, first: Seq<u8>, others: Seq<Seq<u8>>, id: Seq<u8>) -> bool {
    &&& reaches_in_store(odb, first, id)
    &&& exists|j: int| 0 <= j < others.len() && #[trigger] reaches_in_store(odb, others[j], id)
}

/// Each commit in `seen` is the commit the store holds under its name.
pub open spec fn seen_in_store<T: IOdb>(odb: &T, seen: Set<(Seq<u8>, CommitV)>) -> bool {
    forall|p: (Seq<u8>, CommitV)| #[trigger] seen.contains(p) ==> odb.object_at(p.0) == Some(
        ObjectV::Commit(p.1),
    )
}

/// A chain through commits handed in from the store is a chain through the store.
pub proof fn lemma_reaches_in_store<T: IOdb>(
    odb: &T,
    seen: Set<(Seq<u8>, CommitV)>,
    a: Seq<u8>,
    b: Seq<u8>,
)
    requires
        seen_in_store(odb, seen),
        reaches(seen, a, b),
    ensures
        reaches_in_store(odb, a, b),
{
    let path = choose|path: Seq<Seq<u8>>| #[trigger] is_path(seen, path) && path[0] == a && path.last() == b;
    assert forall|i: int| 0 <= i < path.len() - 1 implies stored_parent(odb, #[trigger] path[i], path[i + 1]) by {
        assert(parent_edge(seen, path[i], path[i + 1]));
        let c = choose|c: CommitV| #[trigger] seen.contains((path[i], c)) && c.1.contains(path[i + 1]);
        assert(seen.contains((path[i], c)));
    }
    assert(is_stored_path(odb, path));
}

/// The best common ancestors of `first_id` and the commits of `rest`, latest committer first,
/// as `MergeBaseSearch` finds them. The search asks the store for each commit it needs; each
/// commit returned is the one the store holds under the name returned with it, and an ancestor,
/// through stored commits, of `first_id` and of one of `rest`.
pub fn find_best_common_ancestors<T: IOdb>(odb: &T, first_id: ObjectId, rest: &[ObjectId]) -> (r:
    Result<Vec<(Commit, ObjectId)>, Error>)
    ensures
        r matches Ok(bases) ==> sorted_by_time_desc(bases@),
        odb.obeys_store_laws() ==> (r matches Ok(bases) ==> {
            &&& forall|k: int| 0 <= k < bases@.len() ==> odb.object_at((#[trigger] bases@[k]).1@) == Some(
                ObjectV::Commit(bases@[k].0@),
            )
            &&& forall|k: int| 0 <= k < bases@.len() ==> common_in_store(
                odb,
                first_id@,
                ids_view(rest@),
                (#[trigger] bases@[k]).1@,
            )
        }),
{
    let first = match odb.read_commit(first_id) {
        Ok(c) => c,
        Err(e) => return Err(Error::OdbReadFailed(e)),
    };
    let mut search = MergeBaseSearch::new(first_id, first);
    let mut i: usize = 0;
    while i < rest.len()
        invariant
            search.wf(),
            search.awaiting() is None,
            i <= rest@.len(),
            odb.obeys_store_laws() ==> seen_in_store(odb, search.seen()),
            search.first() == first_id@,
            search.others() == ids_view(rest@.take(i as int)),
        decreases rest@.len() - i,
    {
        let id = rest[i];
        let c = match odb.read_commit(id) {
            Ok(c) => c,
            Err(e) => return Err(Error::OdbReadFailed(e)),
        };
        search.add_other(id, c);
        proof {
            assert(ids_view(rest@.take(i + 1)) =~= ids_view(rest@.take(i as int)).push(id@));
        }
        i = i + 1;
    }
    proof {
        assert(rest@.take(i as int) =~= rest@);
    }
    loop
        invariant
            search.wf(),
            search.awaiting() is None,
            odb.obeys_store_laws() ==> seen_in_store(odb, search.seen()),
            search.first() == first_id@,
            search.others() == ids_view(rest@),
        decreases search.steps_left(), search.parents_left(),
    {
        match search.next_parent() {
            Err(e) => return Err(e),
            Ok(None) => break,
            Ok(Some(parent_id)) => {
                let c = match odb.read_commit(parent_id) {
                    Ok(c) => c,
                    Err(e) => return Err(Error::OdbReadFailed(e)),
                };
                search.feed(c);
            },
        }
    }
    let ghost seen = search.seen();
    let bases = search.finish();
    proof {
        assert forall|k: int| 0 <= k < bases@.len() && odb.obeys_store_laws() implies common_in_store(
            odb,
            first_id@,
            ids_view(rest@),
            (#[trigger] bases@[k]).1@,
        ) by {
            let id = bases@[k].1@;
            assert(common_in(seen, first_id@, ids_view(rest@), id));
            lemma_reaches_in_store(odb, seen, first_id@, id);
            let j = choose|j: int| 0 <= j < ids_view(rest@).len() && #[trigger] reaches(
                seen,
                ids_view(rest@)[j],
                id,
            );
            lemma_reaches_in_store(odb, seen, ids_view(rest@)[j], id);
        }
        assert forall|k: int| 0 <= k < bases@.len() && odb.obeys_store_laws() implies odb.object_at((#[trigger] bases@[k]).1@) == Some(
            ObjectV::Commit(bases@[k].0@),
        ) by {
            assert(seen.contains((bases@[k].1@, bases@[k].0@)));
        }
    }
    Ok(bases)
}

/// The merge bases of `first_id` and the commits of `rest`: none when `rest` is empty, the
/// commit itself when every commit of `rest` is it, and the best common ancestors otherwise.
pub fn find_merge_bases<T: IOdb>(odb: &T, first_id: ObjectId, rest: &[ObjectId]) -> (r: Result<
    Vec<(Commit, ObjectId)>,
    Error,
>)
    ensures
        rest@.len() == 0 ==> (r matches Ok(v) && v@.len() == 0),
        r matches Ok(bases) ==> sorted_by_time_desc(bases@),
        rest@.len() > 0 && (forall|i: int| 0 <= i < rest@.len() ==> (#[trigger] rest@[i])@ == first_id@)
            ==> (r matches Ok(v) ==> v@.len() == 1 && v@[0].1 == first_id),
        odb.obeys_store_laws() ==> (r matches Ok(bases) ==> forall|k: int| 0 <= k < bases@.len() ==> {
            &&& odb.object_at((#[trigger] bases@[k]).1@) == Some(ObjectV::Commit(bases@[k].0@))
            &&& common_in_store(odb, first_id@, ids_view(rest@), bases@[k].1@)
        }),
{
    if rest.len() == 0 {
        return Ok(Vec::new());
    }
    let mut all_same = true;
    let mut i: usize = 0;
    while i < rest.len()
        invariant
            i <= rest@.len(),
            all_same == (forall|j: int| 0 <= j < i ==> (#[trigger] rest@[j])@ == first_id@),
        decreases rest@.len() - i,
    {
        if !(rest[i] == first_id) {
            all_same = false;
        }
        i = i + 1;
    }
    if all_same {
        let c = match odb.read_commit(first_id) {
            Ok(c) => c,
            Err(e) => return Err(Error::OdbReadFailed(e)),
        };
        let mut v: Vec<(Commit, ObjectId)> = Vec::new();
        v.push((c, first_id));
        proof {
            let path = seq![first_id@];
            assert(is_stored_path(odb, path));
            assert(reaches_in_store(odb, first_id@, first_id@));
            assert(ids_view(rest@)[0] == first_id@);
            assert(v@[0].1 == first_id);
        }
        return Ok(v);
    }
    find_best_common_ancestors(odb, first_id, rest)
}

} // verus!
