use std::collections::HashMap;
use vstd::prelude::*;

use crate::myers::{
    duplicate_lines, edits_view, is_edit_script, lines, lines_view, max_lines, new_lines,
    old_lines, split_lines, Action, EditV, Line, LineV, Myers,
};

verus! {

broadcast use vstd::std_specs::hash::group_hash_axioms;

/// A piece of a three-way merge: lines that the sides agree on, or a conflict.
#[derive(Debug, PartialEq, Eq)]
pub enum Chunk {
    Normal(Vec<Line>),
    Conflict { o: Vec<Line>, a: Vec<Line>, b: Vec<Line> },
}

/// A chunk as `(false, lines, [], [])` when it is normal, and as `(true, o, a, b)` when it is a
/// conflict.
pub type ChunkV = (bool, Seq<LineV>, Seq<LineV>, Seq<LineV>);

impl View for Chunk {
    type V = ChunkV;

    open spec fn view(&self) -> ChunkV {
        match self {
            Chunk::Normal(l) => (false, lines_view(l@), seq![], seq![]),
            Chunk::Conflict { o, a, b } => (true, lines_view(o@), lines_view(a@), lines_view(b@)),
        }
    }
}

/// The chunk for one aligned piece of the three sides: the side that changed wins, both sides
/// changing is a conflict.
pub open spec fn chunk_spec(o: Seq<LineV>, a: Seq<LineV>, b: Seq<LineV>) -> ChunkV {
    if o == a && o == b {
        (false, o, seq![], seq![])
    } else if o == a {
        (false, b, seq![], seq![])
    } else if o == b {
        (false, a, seq![], seq![])
    } else {
        (true, o, a, b)
    }
}

/// A chunk with its two sides swapped.
pub open spec fn swapped(c: ChunkV) -> ChunkV {
    if c.0 {
        (true, c.1, c.3, c.2)
    } else {
        c
    }
}

/// The laws of a chunk. The sides are treated alike: swapping them swaps the sides of a
/// conflict and leaves a normal chunk as it is. Where no side changed the original, the chunk
/// is the original; where exactly one side changed it, the chunk is that side's lines, so the
/// change is kept; where both changed it, the chunk is a conflict holding all three.
pub proof fn lemma_chunk_laws(o: Seq<LineV>, a: Seq<LineV>, b: Seq<LineV>)
    ensures
        chunk_spec(o, b, a) == swapped(chunk_spec(o, a, b)),
        o == a && o == b ==> chunk_spec(o, a, b) == (false, o, Seq::<LineV>::empty(), Seq::<LineV>::empty()),
        o == a && o != b ==> chunk_spec(o, a, b) == (false, b, Seq::<LineV>::empty(), Seq::<LineV>::empty()),
        o == b && o != a ==> chunk_spec(o, a, b) == (false, a, Seq::<LineV>::empty(), Seq::<LineV>::empty()),
        o != a && o != b ==> chunk_spec(o, a, b) == (true, o, a, b),
        !chunk_spec(o, a, b).0 ==> chunk_spec(o, a, b).1 == a || chunk_spec(o, a, b).1 == b,
{
}

/// Lines numbered 1, 2, ... in order.
pub open spec fn numbered(ls: Seq<LineV>) -> bool {
    forall|i: int| 0 <= i < ls.len() ==> (#[trigger] ls[i]).0 == i + 1
}

/// A map between line numbers that keeps their order, from the lines of a side of `n` lines to
/// those of one of `m` lines.
pub open spec fn monotone_matching(m: Map<usize, usize>, n: int, k: int) -> bool {
    &&& forall|x: usize| #[trigger] m.contains_key(x) ==> 1 <= x <= n && 1 <= m[x] <= k
    &&& forall|x: usize, y: usize|
        #[trigger] m.contains_key(x) && #[trigger] m.contains_key(y) && x < y ==> m[x] < m[y]
}

/// Pieces `chunks[i]` built from the aligned slices between consecutive cut points, which run
/// from the start of each side to `(eo, ea, eb)`.
pub open spec fn chunks_partition(
    chunks: Seq<ChunkV>,
    co: Seq<int>,
    ca: Seq<int>,
    cb: Seq<int>,
    o: Seq<LineV>,
    a: Seq<LineV>,
    b: Seq<LineV>,
    eo: int,
    ea: int,
    eb: int,
) -> bool {
    &&& co.len() == chunks.len() + 1
    &&& ca.len() == chunks.len() + 1
    &&& cb.len() == chunks.len() + 1
    &&& co[0] == 0 && ca[0] == 0 && cb[0] == 0
    &&& co.last() == eo && ca.last() == ea && cb.last() == eb
    &&& forall|i: int|
        0 <= i < chunks.len() ==> co[i] <= co[i + 1] && ca[i] <= ca[i + 1] && cb[i] <= cb[i + 1]
            && #[trigger] chunks[i] == chunk_spec(
            o.subrange(co[i], co[i + 1]),
            a.subrange(ca[i], ca[i + 1]),
            b.subrange(cb[i], cb[i + 1]),
        )
}

/// The cut points fix the chunks: two cuttings of the same sides at the same points are equal.
/// So two comparisons of the same three sides with the same matchings give the same chunks.
pub proof fn lemma_chunks_determined(
    c1: Seq<ChunkV>,
    c2: Seq<ChunkV>,
    co: Seq<int>,
    ca: Seq<int>,
    cb: Seq<int>,
    o: Seq<LineV>,
    a: Seq<LineV>,
    b: Seq<LineV>,
    eo: int,
    ea: int,
    eb: int,
)
    requires
        chunks_partition(c1, co, ca, cb, o, a, b, eo, ea, eb),
        chunks_partition(c2, co, ca, cb, o, a, b, eo, ea, eb),
    ensures
        c1 == c2,
{
    assert forall|i: int| 0 <= i < c1.len() implies c1[i] == c2[i] by {
        assert(c1[i] == chunk_spec(o.subrange(co[i], co[i + 1]), a.subrange(ca[i], ca[i + 1]), b.subrange(cb[i], cb[i + 1])));
        assert(c2[i] == chunk_spec(o.subrange(co[i], co[i + 1]), a.subrange(ca[i], ca[i + 1]), b.subrange(cb[i], cb[i + 1])));
    }
    assert(c1 =~= c2);
}

proof fn lemma_partition_push(
    chunks: Seq<ChunkV>,
    co: Seq<int>,
    ca: Seq<int>,
    cb: Seq<int>,
    o: Seq<LineV>,
    a: Seq<LineV>,
    b: Seq<LineV>,
    eo: int,
    ea: int,
    eb: int,
    no: int,
    na: int,
    nb: int,
)
    requires
        chunks_partition(chunks, co, ca, cb, o, a, b, eo, ea, eb),
        eo <= no,
        ea <= na,
        eb <= nb,
    ensures
        chunks_partition(
            chunks.push(chunk_spec(o.subrange(eo, no), a.subrange(ea, na), b.subrange(eb, nb))),
            co.push(no),
            ca.push(na),
            cb.push(nb),
            o,
            a,
            b,
            no,
            na,
            nb,
        ),
{
    let nc = chunks.push(chunk_spec(o.subrange(eo, no), a.subrange(ea, na), b.subrange(eb, nb)));
    let nco = co.push(no);
    let nca = ca.push(na);
    let ncb = cb.push(nb);
    assert(nco[0] == co[0] && nca[0] == ca[0] && ncb[0] == cb[0]);
    assert(nco.last() == no && nca.last() == na && ncb.last() == nb);
    assert forall|i: int| #![trigger nco[i]] 0 <= i < nc.len() implies nco[i] <= nco[i + 1] && nca[i] <= nca[i + 1]
        && ncb[i] <= ncb[i + 1] && nc[i] == chunk_spec(
        o.subrange(nco[i], nco[i + 1]),
        a.subrange(nca[i], nca[i + 1]),
        b.subrange(ncb[i], ncb[i + 1]),
    ) by {
        if i < chunks.len() {
            assert(nc[i] == chunks[i]);
            assert(nco[i] == co[i] && nco[i + 1] == co[i + 1]);
            assert(nca[i] == ca[i] && nca[i + 1] == ca[i + 1]);
            assert(ncb[i] == cb[i] && ncb[i + 1] == cb[i + 1]);
        } else {
            assert(nco[i] == co.last());
            assert(nca[i] == ca.last());
            assert(ncb[i] == cb.last());
        }
    }
    assert(nco.len() == nc.len() + 1);
    assert(nco[0] == 0 && nca[0] == 0 && ncb[0] == 0);
    assert(chunks_partition(nc, nco, nca, ncb, o, a, b, no, na, nb));
}

/// Line `k` past the current points of the three sides is kept by both sides, in step.
pub open spec fn stable_at(
    ma: Map<usize, usize>,
    mb: Map<usize, usize>,
    io: int,
    ia: int,
    ib: int,
    k: int,
) -> bool {
    &&& ma.contains_key((io + k) as usize)
    &&& ma[(io + k) as usize] == ia + k
    &&& mb.contains_key((io + k) as usize)
    &&& mb[(io + k) as usize] == ib + k
}

/// Some side has a line `k` past its current point.
pub open spec fn has_line(lo: int, la: int, lb: int, io: int, ia: int, ib: int, k: int) -> bool {
    io + k <= lo || ia + k <= la || ib + k <= lb
}

/// The sides stop running in step at `i`: every line before it is stable, and it is not.
pub open spec fn mismatch_at(
    lo: int,
    la: int,
    lb: int,
    ma: Map<usize, usize>,
    mb: Map<usize, usize>,
    io: int,
    ia: int,
    ib: int,
    i: int,
) -> bool {
    &&& i >= 1
    &&& has_line(lo, la, lb, io, ia, ib, i)
    &&& !stable_at(ma, mb, io, ia, ib, i)
    &&& forall|k: int| 1 <= k < i ==> #[trigger] stable_at(ma, mb, io, ia, ib, k)
}

/// `j` is the first line of the original past `io` that both sides keep.
pub open spec fn next_match_at(lo: int, ma: Map<usize, usize>, mb: Map<usize, usize>, io: int, j: int) -> bool {
    &&& io < j <= lo
    &&& ma.contains_key(j as usize)
    &&& mb.contains_key(j as usize)
    &&& forall|x: int| io < x < j ==> !(#[trigger] ma.contains_key(x as usize) && mb.contains_key(x as usize))
}

/// Where the next chunk ends: after the run of stable lines, or before the next line that both
/// sides keep when the sides differ at once; `None` when the rest is one last chunk.
pub open spec fn next_cut(
    lo: int,
    la: int,
    lb: int,
    ma: Map<usize, usize>,
    mb: Map<usize, usize>,
    io: int,
    ia: int,
    ib: int,
) -> Option<(int, int, int)> {
    if exists|i: int| mismatch_at(lo, la, lb, ma, mb, io, ia, ib, i) {
        let i = choose|i: int| mismatch_at(lo, la, lb, ma, mb, io, ia, ib, i);
        if i == 1 {
            if exists|j: int| next_match_at(lo, ma, mb, io, j) {
                let j = choose|j: int| next_match_at(lo, ma, mb, io, j);
                Some((j - 1, ma[j as usize] - 1, mb[j as usize] - 1))
            } else {
                None
            }
        } else {
            Some((io + i - 1, ia + i - 1, ib + i - 1))
        }
    } else {
        None
    }
}

/// The matchings keep their order, and every line of the original past `io` that a side keeps
/// lies past that side's point.
pub open spec fn cut_state_ok(
    lo: int,
    la: int,
    lb: int,
    ma: Map<usize, usize>,
    mb: Map<usize, usize>,
    io: int,
    ia: int,
    ib: int,
) -> bool {
    &&& monotone_matching(ma, lo, la)
    &&& monotone_matching(mb, lo, lb)
    &&& lo + la + lb <= usize::MAX
    &&& 0 <= io <= lo && 0 <= ia <= la && 0 <= ib <= lb
    &&& forall|x: usize| #[trigger] ma.contains_key(x) && x > io ==> ma[x] > ia
    &&& forall|x: usize| #[trigger] mb.contains_key(x) && x > io ==> mb[x] > ib
}

/// The points at which a three-way comparison cuts the sides, from `(io, ia, ib)` on, the
/// ends of the sides last.
pub open spec fn diff3_cuts(
    lo: int,
    la: int,
    lb: int,
    ma: Map<usize, usize>,
    mb: Map<usize, usize>,
    io: int,
    ia: int,
    ib: int,
) -> Seq<(int, int, int)>
    decreases (lo + la + lb) - (io + ia + ib),
    when cut_state_ok(lo, la, lb, ma, mb, io, ia, ib)
{
    match next_cut(lo, la, lb, ma, mb, io, ia, ib) {
        Some(c) => {
            proof {
                lemma_next_cut_advances(lo, la, lb, ma, mb, io, ia, ib);
            }
            seq![c] + diff3_cuts(lo, la, lb, ma, mb, c.0, c.1, c.2)
        },
        None => seq![(lo, la, lb)],
    }
}

/// At most one place where the sides stop running in step.
proof fn lemma_mismatch_unique(
    lo: int,
    la: int,
    lb: int,
    ma: Map<usize, usize>,
    mb: Map<usize, usize>,
    io: int,
    ia: int,
    ib: int,
    i: int,
    j: int,
)
    requires
        mismatch_at(lo, la, lb, ma, mb, io, ia, ib, i),
        mismatch_at(lo, la, lb, ma, mb, io, ia, ib, j),
    ensures
        i == j,
{
    if i < j {
        assert(stable_at(ma, mb, io, ia, ib, i));
    } else if j < i {
        assert(stable_at(ma, mb, io, ia, ib, j));
    }
}

/// At most one first line kept by both sides.
proof fn lemma_next_match_unique(lo: int, ma: Map<usize, usize>, mb: Map<usize, usize>, io: int, i: int, j: int)
    requires
        next_match_at(lo, ma, mb, io, i),
        next_match_at(lo, ma, mb, io, j),
    ensures
        i == j,
{
    if i < j {
        assert(!(ma.contains_key(i as usize) && mb.contains_key(i as usize)));
    } else if j < i {
        assert(!(ma.contains_key(j as usize) && mb.contains_key(j as usize)));
    }
}

/// The next cut lies past the current points, within the sides, and leaves a good state.
pub proof fn lemma_next_cut_advances(
    lo: int,
    la: int,
    lb: int,
    ma: Map<usize, usize>,
    mb: Map<usize, usize>,
    io: int,
    ia: int,
    ib: int,
)
    requires
        cut_state_ok(lo, la, lb, ma, mb, io, ia, ib),
        next_cut(lo, la, lb, ma, mb, io, ia, ib) is Some,
    ensures
        ({
            let c = next_cut(lo, la, lb, ma, mb, io, ia, ib)->0;
            &&& io <= c.0 <= lo && ia <= c.1 <= la && ib <= c.2 <= lb
            &&& c.0 + c.1 + c.2 > io + ia + ib
            &&& cut_state_ok(lo, la, lb, ma, mb, c.0, c.1, c.2)
        }),
{
    let i = choose|i: int| mismatch_at(lo, la, lb, ma, mb, io, ia, ib, i);
    let c = next_cut(lo, la, lb, ma, mb, io, ia, ib)->0;
    if i == 1 {
        let j = choose|j: int| next_match_at(lo, ma, mb, io, j);
        let ju = j as usize;
        assert(ju == j);
        assert(ma.contains_key(ju) && mb.contains_key(ju));
        assert(ju > io);
        assert(ma[ju] > ia && mb[ju] > ib);
        assert(ma[ju] <= la && mb[ju] <= lb);
        if j - 1 == io && ma[ju] - 1 == ia && mb[ju] - 1 == ib {
            assert((io + 1) as usize == ju);
            assert(stable_at(ma, mb, io, ia, ib, 1));
        }
        assert forall|x: usize| #[trigger] ma.contains_key(x) && x > j - 1 implies ma[x] > ma[ju] - 1 by {
            if x != ju {
                assert(x > ju);
            }
        }
        assert forall|x: usize| #[trigger] mb.contains_key(x) && x > j - 1 implies mb[x] > mb[ju] - 1 by {
            if x != ju {
                assert(x > ju);
            }
        }
    } else {
        assert(stable_at(ma, mb, io, ia, ib, i - 1));
        assert(has_line(lo, la, lb, io, ia, ib, i));
        let k = (io + i - 1) as usize;
        assert(k == io + i - 1);
        assert(ma.contains_key(k) && mb.contains_key(k));
        assert forall|x: usize| #[trigger] ma.contains_key(x) && x > io + i - 1 implies ma[x] > ia + i - 1 by {
            assert(ma[x] > ma[k]);
        }
        assert forall|x: usize| #[trigger] mb.contains_key(x) && x > io + i - 1 implies mb[x] > ib + i - 1 by {
            assert(mb[x] > mb[k]);
        }
    }
}

/// The first, second or third place of each cut point.
pub open spec fn cuts_o(cs: Seq<(int, int, int)>) -> Seq<int> {
    cs.map_values(|c: (int, int, int)| c.0)
}

pub open spec fn cuts_a(cs: Seq<(int, int, int)>) -> Seq<int> {
    cs.map_values(|c: (int, int, int)| c.1)
}

pub open spec fn cuts_b(cs: Seq<(int, int, int)>) -> Seq<int> {
    cs.map_values(|c: (int, int, int)| c.2)
}

pub open spec fn chunks_view(cs: Seq<Chunk>) -> Seq<ChunkV> {
    cs.map_values(|c: Chunk| c@)
}

/// A three-way comparison: `original` against `left` and against `right`.
pub struct Diff3 {
    o: Vec<Line>,
    idx_o: usize,
    a: Vec<Line>,
    idx_a: usize,
    b: Vec<Line>,
    idx_b: usize,
    o_to_a: HashMap<usize, usize>,
    o_to_b: HashMap<usize, usize>,
    chunks: Vec<Chunk>,
}

/// Whether two runs of lines are equal, numbers and text.
fn lines_eq(x: &[Line], y: &[Line]) -> (r: bool)
    ensures
        r == (lines_view(x@) == lines_view(y@)),
{
    if x.len() != y.len() {
        assert(lines_view(x@).len() != lines_view(y@).len());
        return false;
    }
    let mut i: usize = 0;
    while i < x.len()
        invariant
            i <= x@.len() == y@.len(),
            forall|j: int| 0 <= j < i ==> x@[j]@ == y@[j]@,
        decreases x@.len() - i,
    {
        if x[i].0 != y[i].0 || !crate::bytes::bytes_eq(x[i].1.as_slice(), y[i].1.as_slice()) {
            assert(lines_view(x@)[i as int] != lines_view(y@)[i as int]);
            return false;
        }
        i = i + 1;
    }
    assert(lines_view(x@) =~= lines_view(y@));
    true
}

fn create_chunk(o: Vec<Line>, a: Vec<Line>, b: Vec<Line>) -> (r: Chunk)
    ensures
        r@ == chunk_spec(lines_view(o@), lines_view(a@), lines_view(b@)),
{
    let oa = lines_eq(o.as_slice(), a.as_slice());
    let ob = lines_eq(o.as_slice(), b.as_slice());
    if oa && ob {
        Chunk::Normal(o)
    } else if oa {
        Chunk::Normal(b)
    } else if ob {
        Chunk::Normal(a)
    } else {
        Chunk::Conflict { o, a, b }
    }
}

/// Splitting an edit script splits what it reads on each side.
proof fn lemma_sides_concat(x: Seq<EditV>, y: Seq<EditV>)
    ensures
        old_lines(x + y) == old_lines(x) + old_lines(y),
        new_lines(x + y) == new_lines(x) + new_lines(y),
    decreases y.len(),
{
    if y.len() == 0 {
        assert(x + y =~= x);
        assert(old_lines(x) + old_lines(y) =~= old_lines(x));
        assert(new_lines(x) + new_lines(y) =~= new_lines(x));
    } else {
        lemma_sides_concat(x, y.drop_last());
        assert((x + y).drop_last() =~= x + y.drop_last());
        assert((x + y).last() == y.last());
        assert(old_lines(x + y) =~= old_lines(x) + old_lines(y));
        assert(new_lines(x + y) =~= new_lines(x) + new_lines(y));
    }
}

/// The pairs of line numbers, old to new, of the lines that an edit script keeps.
pub open spec fn kept_pairs(es: Seq<EditV>) -> Map<usize, usize>
    decreases es.len(),
{
    if es.len() == 0 {
        Map::empty()
    } else {
        let e = es.last();
        let p = kept_pairs(es.drop_last());
        if e.0 == Action::Nothing {
            match (e.1, e.2) {
                (Some(x), Some(y)) => p.insert(x.0, y.0),
                _ => p,
            }
        } else {
            p
        }
    }
}

/// The line numbers paired by the kept lines of an edit script between numbered sides.
fn equal_lines(a: &[Line], b: &[Line]) -> (m: HashMap<usize, usize>)
    requires
        a@.len() + b@.len() <= max_lines(),
        numbered(lines_view(a@)),
        numbered(lines_view(b@)),
    ensures
        monotone_matching(m@, a@.len() as int, b@.len() as int),
        exists|es: Seq<EditV>| is_edit_script(es, lines_view(a@), lines_view(b@)) && m@ == kept_pairs(es),
{
    let edits = Myers::from_lines(a, b).compare();
    let ghost es = edits_view(edits@);
    let ghost la = lines_view(a@);
    let ghost lb = lines_view(b@);
    let mut m: HashMap<usize, usize> = HashMap::new();
    let mut p: usize = 0;
    let ghost mut xa: int = 0;
    let ghost mut yb: int = 0;
    assert(es.take(0) =~= Seq::<EditV>::empty());
    while p < edits.len()
        invariant
            es == edits_view(edits@),
            is_edit_script(es, la, lb),
            la == lines_view(a@),
            lb == lines_view(b@),
            numbered(la),
            numbered(lb),
            p <= edits@.len(),
            old_lines(es.take(p as int)).len() == xa,
            new_lines(es.take(p as int)).len() == yb,
            old_lines(es.take(p as int)) == la.take(xa),
            new_lines(es.take(p as int)) == lb.take(yb),
            0 <= xa <= la.len(),
            0 <= yb <= lb.len(),
            forall|x: usize| #[trigger] m@.contains_key(x) ==> 1 <= x <= xa && 1 <= m@[x] <= yb,
            forall|x: usize, y: usize|
                #[trigger] m@.contains_key(x) && #[trigger] m@.contains_key(y) && x < y ==> m@[x]
                    < m@[y],
            m@ == kept_pairs(es.take(p as int)),
        decreases edits@.len() - p,
    {
        let ghost pre = es.take(p as int);
        let ghost cur = es.take(p + 1);
        let ghost m0 = m@;
        proof {
            assert(cur.drop_last() =~= pre);
            assert(cur.last() == es[p as int]);
            assert(es =~= cur + es.skip(p + 1));
            lemma_sides_concat(cur, es.skip(p + 1));
            assert(la =~= old_lines(cur) + old_lines(es.skip(p + 1)));
            assert(lb =~= new_lines(cur) + new_lines(es.skip(p + 1)));
        }
        let e = &edits[p];
        if e.action == Action::Nothing {
            match (&e.a, &e.b) {
                (Some(old), Some(new)) => {
                    proof {
                        assert(edit_well_formed_nothing(es[p as int]));
                        assert(old_lines(cur) =~= old_lines(pre).push(old@));
                        assert(new_lines(cur) =~= new_lines(pre).push(new@));
                        assert(old_lines(cur)[xa] == la[xa]);
                        assert(new_lines(cur)[yb] == lb[yb]);
                        assert(old@.0 == xa + 1);
                        assert(new@.0 == yb + 1);
                    }
                    m.insert(old.0, new.0);
                    proof {
                        assert(m@ == kept_pairs(cur));
                        xa = xa + 1;
                        yb = yb + 1;
                        assert(la.take(xa) =~= old_lines(cur));
                        assert(lb.take(yb) =~= new_lines(cur));
                    }
                },
                _ => {
                    proof {
                        assert(false);
                    }
                },
            }
        } else {
            proof {
                assert(kept_pairs(cur) == kept_pairs(pre));
                if es[p as int].1 is Some {
                    assert(old_lines(cur) =~= old_lines(pre).push(es[p as int].1.unwrap()));
                    xa = xa + 1;
                    assert(la.take(xa) =~= old_lines(cur));
                } else {
                    assert(old_lines(cur) =~= old_lines(pre));
                }
                if es[p as int].2 is Some {
                    assert(new_lines(cur) =~= new_lines(pre).push(es[p as int].2.unwrap()));
                    yb = yb + 1;
                    assert(lb.take(yb) =~= new_lines(cur));
                } else {
                    assert(new_lines(cur) =~= new_lines(pre));
                }
            }
        }
        p = p + 1;
    }
    proof {
        assert(es.take(p as int) =~= es);
    }
    m
}

spec fn edit_well_formed_nothing(e: EditV) -> bool {
    crate::myers::edit_well_formed(e)
}

impl Diff3 {
    pub closed spec fn original(&self) -> Seq<LineV> {
        lines_view(self.o@)
    }

    pub closed spec fn left(&self) -> Seq<LineV> {
        lines_view(self.a@)
    }

    pub closed spec fn right(&self) -> Seq<LineV> {
        lines_view(self.b@)
    }

    /// A comparison not yet run.
    pub closed spec fn is_fresh(&self) -> bool {
        &&& self.idx_o == 0 && self.idx_a == 0 && self.idx_b == 0
        &&& self.chunks@.len() == 0
        &&& numbered(self.original()) && numbered(self.left()) && numbered(self.right())
        &&& monotone_matching(self.o_to_a@, self.o@.len() as int, self.a@.len() as int)
        &&& monotone_matching(self.o_to_b@, self.o@.len() as int, self.b@.len() as int)
        &&& self.o@.len() + self.a@.len() + self.b@.len() <= max_lines()
    }

    pub fn new(original: &[u8], left: &[u8], right: &[u8]) -> (r: Self)
        requires
            original@.len() + left@.len() + right@.len() + 3 <= max_lines(),
        ensures
            r.is_fresh(),
            r.original() =~= Seq::new(
                split_lines(original@).len(),
                |i: int| ((i + 1) as usize, split_lines(original@)[i]),
            ),
            r.left() =~= Seq::new(
                split_lines(left@).len(),
                |i: int| ((i + 1) as usize, split_lines(left@)[i]),
            ),
            r.right() =~= Seq::new(
                split_lines(right@).len(),
                |i: int| ((i + 1) as usize, split_lines(right@)[i]),
            ),
            exists|es: Seq<EditV>| is_edit_script(es, r.original(), r.left()) && r.left_matching()
                == kept_pairs(es),
            exists|es: Seq<EditV>| is_edit_script(es, r.original(), r.right()) && r.right_matching()
                == kept_pairs(es),
    {
        let o = lines(original);
        let a = lines(left);
        let b = lines(right);
        proof {
            crate::myers::lemma_split_lines_len(original@);
            crate::myers::lemma_split_lines_len(left@);
            crate::myers::lemma_split_lines_len(right@);
            assert(lines_view(o@) =~= Seq::new(
                split_lines(original@).len(),
                |i: int| ((i + 1) as usize, split_lines(original@)[i]),
            ));
            assert(lines_view(a@) =~= Seq::new(
                split_lines(left@).len(),
                |i: int| ((i + 1) as usize, split_lines(left@)[i]),
            ));
            assert(lines_view(b@) =~= Seq::new(
                split_lines(right@).len(),
                |i: int| ((i + 1) as usize, split_lines(right@)[i]),
            ));
        }
        Self::from_lines(o.as_slice(), a.as_slice(), b.as_slice())
    }

    pub fn from_lines(original: &[Line], left: &[Line], right: &[Line]) -> (r: Self)
        requires
            original@.len() + left@.len() + right@.len() <= max_lines(),
            numbered(lines_view(original@)),
            numbered(lines_view(left@)),
            numbered(lines_view(right@)),
        ensures
            r.is_fresh(),
            r.original() == lines_view(original@),
            r.left() == lines_view(left@),
            r.right() == lines_view(right@),
            exists|es: Seq<EditV>| is_edit_script(es, r.original(), r.left()) && r.left_matching()
                == kept_pairs(es),
            exists|es: Seq<EditV>| is_edit_script(es, r.original(), r.right()) && r.right_matching()
                == kept_pairs(es),
    {
        let o_to_a = equal_lines(original, left);
        let o_to_b = equal_lines(original, right);
        let o = duplicate_lines(original);
        let a = duplicate_lines(left);
        let b = duplicate_lines(right);
        assert(lines_view(o@).len() == o@.len() && lines_view(original@).len() == original@.len());
        assert(lines_view(a@).len() == a@.len() && lines_view(left@).len() == left@.len());
        assert(lines_view(b@).len() == b@.len() && lines_view(right@).len() == right@.len());
        Self {
            o,
            a,
            b,
            idx_o: 0,
            idx_a: 0,
            idx_b: 0,
            chunks: Vec::new(),
            o_to_a,
            o_to_b,
        }
    }

    closed spec fn state_ok(&self) -> bool {
        &&& numbered(self.original()) && numbered(self.left()) && numbered(self.right())
        &&& monotone_matching(self.o_to_a@, self.o@.len() as int, self.a@.len() as int)
        &&& monotone_matching(self.o_to_b@, self.o@.len() as int, self.b@.len() as int)
        &&& self.o@.len() + self.a@.len() + self.b@.len() <= max_lines()
        &&& self.idx_o <= self.o@.len() && self.idx_a <= self.a@.len() && self.idx_b <= self.b@.len()
        &&& forall|x: usize| #[trigger] self.o_to_a@.contains_key(x) && x > self.idx_o ==> self.o_to_a@[x] > self.idx_a
        &&& forall|x: usize| #[trigger] self.o_to_b@.contains_key(x) && x > self.idx_o ==> self.o_to_b@[x] > self.idx_b
    }

    /// The pairs of line numbers, original to left, that the left side keeps.
    pub closed spec fn left_matching(&self) -> Map<usize, usize> {
        self.o_to_a@
    }

    /// The pairs of line numbers, original to right, that the right side keeps.
    pub closed spec fn right_matching(&self) -> Map<usize, usize> {
        self.o_to_b@
    }

    /// The points at which `compare` cuts the three sides: the starts, then each cut that
    /// `next_cut` finds in turn from the matchings, then the ends.
    pub open spec fn cut_points(&self) -> Seq<(int, int, int)> {
        seq![(0int, 0int, 0int)] + diff3_cuts(
            self.original().len() as int,
            self.left().len() as int,
            self.right().len() as int,
            self.left_matching(),
            self.right_matching(),
            0,
            0,
            0,
        )
    }

    proof fn lemma_state_cut_ok(&self)
        requires
            self.state_ok(),
        ensures
            cut_state_ok(
                self.o@.len() as int,
                self.a@.len() as int,
                self.b@.len() as int,
                self.o_to_a@,
                self.o_to_b@,
                self.idx_o as int,
                self.idx_a as int,
                self.idx_b as int,
            ),
    {
    }

    /// The aligned slices of the three sides between consecutive cut points, each made a
    /// chunk.
    pub fn compare(self) -> (r: Vec<Chunk>)
        requires
            self.is_fresh(),
        ensures
            chunks_partition(
                chunks_view(r@),
                cuts_o(self.cut_points()),
                cuts_a(self.cut_points()),
                cuts_b(self.cut_points()),
                self.original(),
                self.left(),
                self.right(),
                self.original().len() as int,
                self.left().len() as int,
                self.right().len() as int,
            ),
    {
        let ghost o = self.original();
        let ghost a = self.left();
        let ghost b = self.right();
        let ghost lo = self.o@.len() as int;
        let ghost la = self.a@.len() as int;
        let ghost lb = self.b@.len() as int;
        let ghost ma = self.o_to_a@;
        let ghost mb = self.o_to_b@;
        let ghost whole = diff3_cuts(lo, la, lb, ma, mb, 0, 0, 0);
        let mut s = self;
        let ghost mut co: Seq<int> = seq![0];
        let ghost mut ca: Seq<int> = seq![0];
        let ghost mut cb: Seq<int> = seq![0];
        let ghost mut done: Seq<(int, int, int)> = seq![];
        proof {
            assert(lines_view(s.o@).len() == lo && lines_view(s.a@).len() == la && lines_view(s.b@).len() == lb);
            assert(cuts_o(seq![(0int, 0int, 0int)]) =~= co);
            assert(cuts_a(seq![(0int, 0int, 0int)]) =~= ca);
            assert(cuts_b(seq![(0int, 0int, 0int)]) =~= cb);
            assert(whole =~= done + whole);
        }
        loop
            invariant
                s.state_ok(),
                s.original() == o,
                s.left() == a,
                s.right() == b,
                s.o@.len() == lo && s.a@.len() == la && s.b@.len() == lb,
                s.o_to_a@ == ma && s.o_to_b@ == mb,
                chunks_partition(chunks_view(s.chunks@), co, ca, cb, o, a, b, s.idx_o as int, s.idx_a as int, s.idx_b as int),
                co == cuts_o(seq![(0int, 0int, 0int)] + done),
                ca == cuts_a(seq![(0int, 0int, 0int)] + done),
                cb == cuts_b(seq![(0int, 0int, 0int)] + done),
                whole == done + diff3_cuts(lo, la, lb, ma, mb, s.idx_o as int, s.idx_a as int, s.idx_b as int),
            ensures
                next_cut(lo, la, lb, ma, mb, s.idx_o as int, s.idx_a as int, s.idx_b as int) is None,
            decreases (s.o@.len() + s.a@.len() + s.b@.len()) - (s.idx_o + s.idx_a + s.idx_b),
        {
            let ghost io = s.idx_o as int;
            let ghost ia = s.idx_a as int;
            let ghost ib = s.idx_b as int;
            proof {
                s.lemma_state_cut_ok();
            }
            match s.find_next_mismatch() {
                Some(i) => {
                    proof {
                        assert forall|k: int| 1 <= k < i implies #[trigger] stable_at(ma, mb, io, ia, ib, k) by {
                            let ku = k as usize;
                            assert(ku == k);
                            assert(s.o_to_a@.contains_key((s.idx_o + ku) as usize));
                        }
                        assert(mismatch_at(lo, la, lb, ma, mb, io, ia, ib, i as int));
                        let ci = choose|i: int| mismatch_at(lo, la, lb, ma, mb, io, ia, ib, i);
                        lemma_mismatch_unique(lo, la, lb, ma, mb, io, ia, ib, i as int, ci);
                    }
                    if i == 1 {
                        let (oo, aa, bb) = s.find_next_match();
                        match (aa, bb) {
                            (Some(aa), Some(bb)) => {
                                proof {
                                    assert(next_match_at(lo, ma, mb, io, oo as int));
                                    let cj = choose|j: int| next_match_at(lo, ma, mb, io, j);
                                    lemma_next_match_unique(lo, ma, mb, io, oo as int, cj);
                                    let c = (oo - 1, aa - 1, bb - 1);
                                    assert(next_cut(lo, la, lb, ma, mb, io, ia, ib) == Some(c));
                                    lemma_next_cut_advances(lo, la, lb, ma, mb, io, ia, ib);
                                    assert(diff3_cuts(lo, la, lb, ma, mb, io, ia, ib) == seq![c] + diff3_cuts(lo, la, lb, ma, mb, c.0, c.1, c.2));
                                    lemma_partition_push(chunks_view(s.chunks@), co, ca, cb, o, a, b, io, ia, ib, oo - 1, aa - 1, bb - 1);
                                    co = co.push(oo - 1);
                                    ca = ca.push(aa - 1);
                                    cb = cb.push(bb - 1);
                                    let nd = done.push(c);
                                    assert(whole =~= nd + diff3_cuts(lo, la, lb, ma, mb, c.0, c.1, c.2));
                                    assert(co =~= cuts_o(seq![(0int, 0int, 0int)] + nd));
                                    assert(ca =~= cuts_a(seq![(0int, 0int, 0int)] + nd));
                                    assert(cb =~= cuts_b(seq![(0int, 0int, 0int)] + nd));
                                    done = nd;
                                }
                                s.emit_chunk(oo, aa, bb);
                            },
                            _ => {
                                proof {
                                    assert(!(exists|j: int| next_match_at(lo, ma, mb, io, j))) by {
                                        if exists|j: int| next_match_at(lo, ma, mb, io, j) {
                                            let j = choose|j: int| next_match_at(lo, ma, mb, io, j);
                                            let ju = j as usize;
                                            assert(ju == j);
                                            if j < oo {
                                                assert(!(s.o_to_a@.contains_key(ju) && s.o_to_b@.contains_key(ju)));
                                            } else if j > oo {
                                                assert(oo <= lo);
                                                assert(!(ma.contains_key(oo as usize) && mb.contains_key(oo as usize)));
                                            }
                                        }
                                    }
                                    assert(next_cut(lo, la, lb, ma, mb, io, ia, ib) is None);
                                }
                                break;
                            },
                        }
                    } else {
                        proof {
                            let k = (i - 1) as usize;
                            assert(s.o_to_a@.contains_key((s.idx_o + k) as usize));
                            let c = (io + i - 1, ia + i - 1, ib + i - 1);
                            assert(next_cut(lo, la, lb, ma, mb, io, ia, ib) == Some(c));
                            lemma_next_cut_advances(lo, la, lb, ma, mb, io, ia, ib);
                            assert(diff3_cuts(lo, la, lb, ma, mb, io, ia, ib) == seq![c] + diff3_cuts(lo, la, lb, ma, mb, c.0, c.1, c.2));
                            lemma_partition_push(chunks_view(s.chunks@), co, ca, cb, o, a, b, io, ia, ib, s.idx_o + i - 1, s.idx_a + i - 1, s.idx_b + i - 1);
                            co = co.push(s.idx_o + i - 1);
                            ca = ca.push(s.idx_a + i - 1);
                            cb = cb.push(s.idx_b + i - 1);
                            let nd = done.push(c);
                            assert(whole =~= nd + diff3_cuts(lo, la, lb, ma, mb, c.0, c.1, c.2));
                            assert(co =~= cuts_o(seq![(0int, 0int, 0int)] + nd));
                            assert(ca =~= cuts_a(seq![(0int, 0int, 0int)] + nd));
                            assert(cb =~= cuts_b(seq![(0int, 0int, 0int)] + nd));
                            done = nd;
                        }
                        s.emit_chunk(s.idx_o + i, s.idx_a + i, s.idx_b + i);
                    }
                },
                None => {
                    proof {
                        assert(!(exists|i: int| mismatch_at(lo, la, lb, ma, mb, io, ia, ib, i))) by {
                            if exists|i: int| mismatch_at(lo, la, lb, ma, mb, io, ia, ib, i) {
                                let i = choose|i: int| mismatch_at(lo, la, lb, ma, mb, io, ia, ib, i);
                                assert(stable_at(ma, mb, io, ia, ib, i)) by {
                                    let k = i as usize;
                                    assert(k == i);
                                    assert(s.o_to_a@.contains_key((s.idx_o + k) as usize));
                                }
                            }
                        }
                        assert(next_cut(lo, la, lb, ma, mb, io, ia, ib) is None);
                    }
                    break;
                },
            }
        }
        proof {
            let io = s.idx_o as int;
            let ia = s.idx_a as int;
            let ib = s.idx_b as int;
            s.lemma_state_cut_ok();
            assert(diff3_cuts(lo, la, lb, ma, mb, io, ia, ib) == seq![(lo, la, lb)]);
            lemma_partition_push(chunks_view(s.chunks@), co, ca, cb, o, a, b, io, ia, ib, o.len() as int, a.len() as int, b.len() as int);
            co = co.push(o.len() as int);
            ca = ca.push(a.len() as int);
            cb = cb.push(b.len() as int);
            let nd = done.push((lo, la, lb));
            assert(whole =~= nd);
            assert(co =~= cuts_o(seq![(0int, 0int, 0int)] + nd));
            assert(ca =~= cuts_a(seq![(0int, 0int, 0int)] + nd));
            assert(cb =~= cuts_b(seq![(0int, 0int, 0int)] + nd));
        }
        s.emit_final_chunk();
        assert(chunks_partition(chunks_view(s.chunks@), co, ca, cb, o, a, b, o.len() as int, a.len() as int, b.len() as int));
        s.chunks
    }

    /// The first `i` from 1 at which the sides stop running in step, if any side has lines
    /// there.
    fn find_next_mismatch(&self) -> (r: Option<usize>)
        requires
            self.state_ok(),
        ensures
            r matches Some(i) ==> {
                &&& i >= 1
                &&& forall|k: usize| 1 <= k < i ==> #[trigger] self.o_to_a@.contains_key((self.idx_o + k) as usize)
                    && self.o_to_a@[(self.idx_o + k) as usize] == self.idx_a + k
                    && self.o_to_b@.contains_key((self.idx_o + k) as usize)
                    && self.o_to_b@[(self.idx_o + k) as usize] == self.idx_b + k
                &&& !(self.o_to_a@.contains_key((self.idx_o + i) as usize)
                    && self.o_to_a@[(self.idx_o + i) as usize] == self.idx_a + i
                    && self.o_to_b@.contains_key((self.idx_o + i) as usize)
                    && self.o_to_b@[(self.idx_o + i) as usize] == self.idx_b + i)
                &&& self.idx_o + i <= max_lines() + 1
                &&& (self.idx_o + i <= self.o@.len() || self.idx_a + i <= self.a@.len() || self.idx_b
                    + i <= self.b@.len())
            },
            r is None ==> forall|k: usize| 1 <= k && (self.idx_o + k <= self.o@.len() || self.idx_a + k
                <= self.a@.len() || self.idx_b + k <= self.b@.len()) ==> #[trigger] self.o_to_a@.contains_key(
                (self.idx_o + k) as usize,
            ) && self.o_to_a@[(self.idx_o + k) as usize] == self.idx_a + k && self.o_to_b@.contains_key(
                (self.idx_o + k) as usize,
            ) && self.o_to_b@[(self.idx_o + k) as usize] == self.idx_b + k,
    {
        let mut i: usize = 1;
        loop
            invariant
                self.state_ok(),
                1 <= i <= self.o@.len() + 1,
                forall|k: usize| 1 <= k < i ==> #[trigger] self.o_to_a@.contains_key((self.idx_o + k) as usize)
                    && self.o_to_a@[(self.idx_o + k) as usize] == self.idx_a + k
                    && self.o_to_b@.contains_key((self.idx_o + k) as usize)
                    && self.o_to_b@[(self.idx_o + k) as usize] == self.idx_b + k,
            decreases self.o@.len() + 1 - i,
        {
            if !self.is_valid_idx(i) {
                return None;
            }
            let key = self.idx_o + i;
            let matched = match self.o_to_a.get(&key) {
                Some(ia) => if *ia == self.idx_a + i {
                    match self.o_to_b.get(&key) {
                        Some(ib) => *ib == self.idx_b + i,
                        None => false,
                    }
                } else {
                    false
                },
                None => false,
            };
            if !matched {
                return Some(i);
            }
            assert(self.o_to_a@.contains_key(key));
            i = i + 1;
        }
    }

    /// The next line of the original, from `idx_o + 1` on, that both sides keep, and where
    /// they keep it.
    fn find_next_match(&self) -> (r: (usize, Option<usize>, Option<usize>))
        requires
            self.state_ok(),
        ensures
            r.0 > self.idx_o,
            r.0 <= self.o@.len() + 1,
            forall|j: usize| self.idx_o < j < r.0 ==> !(#[trigger] self.o_to_a@.contains_key(j) && self.o_to_b@.contains_key(j)),
            r.0 <= self.o@.len() ==> self.o_to_a@.contains_key(r.0) && self.o_to_b@.contains_key(r.0),
            r.1 == (if self.o_to_a@.contains_key(r.0) { Some(self.o_to_a@[r.0]) } else { None::<usize> }),
            r.2 == (if self.o_to_b@.contains_key(r.0) { Some(self.o_to_b@[r.0]) } else { None::<usize> }),
    {
        let mut i = self.idx_o + 1;
        while i <= self.o.len() && (!self.o_to_a.contains_key(&i) || !self.o_to_b.contains_key(&i))
            invariant
                self.state_ok(),
                self.idx_o < i <= self.o@.len() + 1,
                forall|j: usize| self.idx_o < j < i ==> !(#[trigger] self.o_to_a@.contains_key(j) && self.o_to_b@.contains_key(j)),
            decreases self.o@.len() + 1 - i,
        {
            i += 1;
        }
        let ra = match self.o_to_a.get(&i) {
            Some(v) => Some(*v),
            None => None,
        };
        let rb = match self.o_to_b.get(&i) {
            Some(v) => Some(*v),
            None => None,
        };
        (i, ra, rb)
    }

    fn emit_chunk(&mut self, o: usize, a: usize, b: usize)
        requires
            1 <= o,
            1 <= a,
            1 <= b,
            old(self).idx_o <= o - 1 <= old(self).o@.len(),
            old(self).idx_a <= a - 1 <= old(self).a@.len(),
            old(self).idx_b <= b - 1 <= old(self).b@.len(),
        ensures
            final(self).o == old(self).o && final(self).a == old(self).a && final(self).b == old(self).b,
            final(self).o_to_a == old(self).o_to_a && final(self).o_to_b == old(self).o_to_b,
            final(self).idx_o == o - 1 && final(self).idx_a == a - 1 && final(self).idx_b == b - 1,
            chunks_view(final(self).chunks@) == chunks_view(old(self).chunks@).push(chunk_spec(
                lines_view(old(self).o@).subrange(old(self).idx_o as int, o - 1),
                lines_view(old(self).a@).subrange(old(self).idx_a as int, a - 1),
                lines_view(old(self).b@).subrange(old(self).idx_b as int, b - 1),
            )),
    {
        self.add_chunk(self.idx_o, o - 1, self.idx_a, a - 1, self.idx_b, b - 1);
        self.idx_o = o - 1;
        self.idx_a = a - 1;
        self.idx_b = b - 1;
    }

    fn emit_final_chunk(&mut self)
        requires
            old(self).idx_o <= old(self).o@.len(),
            old(self).idx_a <= old(self).a@.len(),
            old(self).idx_b <= old(self).b@.len(),
        ensures
            chunks_view(final(self).chunks@) == chunks_view(old(self).chunks@).push(chunk_spec(
                lines_view(old(self).o@).subrange(old(self).idx_o as int, old(self).o@.len() as int),
                lines_view(old(self).a@).subrange(old(self).idx_a as int, old(self).a@.len() as int),
                lines_view(old(self).b@).subrange(old(self).idx_b as int, old(self).b@.len() as int),
            )),
            final(self).o == old(self).o && final(self).a == old(self).a && final(self).b == old(self).b,
    {
        self.add_chunk(self.idx_o, self.o.len(), self.idx_a, self.a.len(), self.idx_b, self.b.len());
    }

    fn add_chunk(&mut self, o0: usize, o1: usize, a0: usize, a1: usize, b0: usize, b1: usize)
        requires
            o0 <= o1 <= old(self).o@.len(),
            a0 <= a1 <= old(self).a@.len(),
            b0 <= b1 <= old(self).b@.len(),
        ensures
            final(self).o == old(self).o && final(self).a == old(self).a && final(self).b == old(self).b,
            final(self).o_to_a == old(self).o_to_a && final(self).o_to_b == old(self).o_to_b,
            final(self).idx_o == old(self).idx_o && final(self).idx_a == old(self).idx_a && final(self).idx_b == old(self).idx_b,
            chunks_view(final(self).chunks@) == chunks_view(old(self).chunks@).push(chunk_spec(
                lines_view(old(self).o@).subrange(o0 as int, o1 as int),
                lines_view(old(self).a@).subrange(a0 as int, a1 as int),
                lines_view(old(self).b@).subrange(b0 as int, b1 as int),
            )),
    {
        let o = duplicate_lines(&self.o.as_slice()[o0..o1]);
        let a = duplicate_lines(&self.a.as_slice()[a0..a1]);
        let b = duplicate_lines(&self.b.as_slice()[b0..b1]);
        proof {
            assert(lines_view(self.o@.subrange(o0 as int, o1 as int)) =~= lines_view(self.o@).subrange(o0 as int, o1 as int));
            assert(lines_view(self.a@.subrange(a0 as int, a1 as int)) =~= lines_view(self.a@).subrange(a0 as int, a1 as int));
            assert(lines_view(self.b@.subrange(b0 as int, b1 as int)) =~= lines_view(self.b@).subrange(b0 as int, b1 as int));
        }
        let c = create_chunk(o, a, b);
        let ghost prev = self.chunks@;
        self.chunks.push(c);
        assert(chunks_view(self.chunks@) =~= chunks_view(prev).push(c@));
    }

    fn is_valid_idx(&self, i: usize) -> (r: bool)
        requires
            self.state_ok(),
            i <= max_lines() + 1,
        ensures
            r == (self.idx_o + i <= self.o@.len() || self.idx_a + i <= self.a@.len() || self.idx_b + i <= self.b@.len()),
    {
        self.idx_o + i <= self.o.len() || self.idx_a + i <= self.a.len() || self.idx_b + i <= self.b.len()
    }
}

} // verus!
