use vstd::prelude::*;

use crate::binary::{find_first, lemma_find_first, split_until_spec, BinaryReader};
use crate::bytes::{bytes_eq, to_vec};

verus! {

/// A line of text and its number, counting from one.
#[derive(Debug, Clone, PartialEq, Eq)]
pub struct Line(pub usize, pub Vec<u8>);

pub type LineV = (usize, Seq<u8>);

impl View for Line {
    type V = LineV;

    open spec fn view(&self) -> LineV {
        (self.0, self.1@)
    }
}

impl Line {
    /// A copy of the line.
    pub fn duplicate(&self) -> (r: Line)
        ensures
            r@ == self@,
    {
        Line(self.0, to_vec(self.1.as_slice()))
    }
}

pub open spec fn lines_view(ls: Seq<Line>) -> Seq<LineV> {
    ls.map_values(|l: Line| l@)
}

/// Copies of all the lines.
pub fn duplicate_lines(ls: &[Line]) -> (r: Vec<Line>)
    ensures
        lines_view(r@) == lines_view(ls@),
{
    let mut out: Vec<Line> = Vec::new();
    let mut i: usize = 0;
    while i < ls.len()
        invariant
            i <= ls@.len(),
            lines_view(out@) =~= lines_view(ls@).take(i as int),
        decreases ls@.len() - i,
    {
        let ghost prev = out@;
        out.push(ls[i].duplicate());
        assert(lines_view(out@) =~= lines_view(prev).push(ls@[i as int]@));
        assert(lines_view(ls@).take(i + 1) =~= lines_view(ls@).take(i as int).push(ls@[i as int]@));
        i = i + 1;
    }
    assert(lines_view(ls@).take(ls@.len() as int) =~= lines_view(ls@));
    out
}

#[derive(Debug, Clone, Copy, PartialEq, Eq, Structural)]
pub enum Action {
    Nothing,
    Add,
    Delete,
}

/// One step of an edit script: a line kept on both sides, added on the right, or deleted on
/// the left.
#[derive(Debug, Clone, PartialEq, Eq)]
pub struct Edit {
    pub action: Action,
    pub a: Option<Line>,
    pub b: Option<Line>,
}

pub type EditV = (Action, Option<LineV>, Option<LineV>);

pub open spec fn opt_line_view(l: Option<Line>) -> Option<LineV> {
    match l {
        Some(l) => Some(l@),
        None => None,
    }
}

impl View for Edit {
    type V = EditV;

    open spec fn view(&self) -> EditV {
        (self.action, opt_line_view(self.a), opt_line_view(self.b))
    }
}

/// The edit holds the lines that its action calls for, and a kept line reads the same on both
/// sides.
pub open spec fn edit_well_formed(e: EditV) -> bool {
    match e.0 {
        Action::Nothing => e.1 is Some && e.2 is Some && e.1.unwrap().1 == e.2.unwrap().1,
        Action::Add => e.1 is None && e.2 is Some,
        Action::Delete => e.1 is Some && e.2 is None,
    }
}

/// The left-hand lines that an edit script passes over, in order.
pub open spec fn old_lines(es: Seq<EditV>) -> Seq<LineV>
    decreases es.len(),
{
    if es.len() == 0 {
        seq![]
    } else {
        old_lines(es.drop_last()) + match es.last().1 {
            Some(l) => seq![l],
            None => seq![],
        }
    }
}

/// The right-hand lines that an edit script passes over, in order.
pub open spec fn new_lines(es: Seq<EditV>) -> Seq<LineV>
    decreases es.len(),
{
    if es.len() == 0 {
        seq![]
    } else {
        new_lines(es.drop_last()) + match es.last().2 {
            Some(l) => seq![l],
            None => seq![],
        }
    }
}

pub open spec fn edits_view(es: Seq<Edit>) -> Seq<EditV> {
    es.map_values(|e: Edit| e@)
}

/// `es` turns the lines `a` into the lines `b`: read on the left it is `a`, read on the right
/// it is `b`, and every kept line is the same on both sides.
pub open spec fn is_edit_script(es: Seq<EditV>, a: Seq<LineV>, b: Seq<LineV>) -> bool {
    &&& forall|i: int| 0 <= i < es.len() ==> edit_well_formed(#[trigger] es[i])
    &&& old_lines(es) == a
    &&& new_lines(es) == b
}

impl Edit {
    pub fn nothing(a: Line, b: Line) -> (r: Self)
        ensures
            r@ == (Action::Nothing, Some(a@), Some(b@)),
    {
        Edit { action: Action::Nothing, a: Some(a), b: Some(b) }
    }

    pub fn add(line: Line) -> (r: Self)
        ensures
            r@ == (Action::Add, None::<LineV>, Some(line@)),
    {
        Edit { action: Action::Add, a: None, b: Some(line) }
    }

    pub fn delete(line: Line) -> (r: Self)
        ensures
            r@ == (Action::Delete, Some(line@), None::<LineV>),
    {
        Edit { action: Action::Delete, a: Some(line), b: None }
    }

    pub fn action(&self) -> (r: Action)
        ensures
            r == self.action,
    {
        self.action
    }

    /// The left-hand line, or else the right-hand one.
    pub fn line(&self) -> (r: &Line)
        requires
            self.a is Some || self.b is Some,
        ensures
            self.a is Some ==> r@ == self.a.unwrap()@,
            self.a is None ==> r@ == self.b.unwrap()@,
    {
        match &self.a {
            Some(a) => a,
            None => match &self.b {
                Some(b) => b,
                None => {
                    proof {
                        assert(false);
                    }
                    vstd::pervasive::unreached()
                },
            },
        }
    }
}

/// The pieces of `text` between newline bytes.
pub open spec fn split_lines(text: Seq<u8>) -> Seq<Seq<u8>>
    decreases text.len(),
{
    match find_first(text, 10) {
        Some(i) => {
            proof {
                lemma_find_first(text, 10);
            }
            seq![text.take(i)] + split_lines(text.skip(i + 1))
        },
        None => seq![text],
    }
}

/// Pieces joined back with newline bytes between them.
pub open spec fn join_lines(ls: Seq<Seq<u8>>) -> Seq<u8>
    decreases ls.len(),
{
    if ls.len() <= 1 {
        if ls.len() == 1 {
            ls[0]
        } else {
            seq![]
        }
    } else {
        ls[0] + seq![10u8] + join_lines(ls.drop_first())
    }
}

pub proof fn lemma_split_lines_len(text: Seq<u8>)
    ensures
        1 <= split_lines(text).len() <= text.len() + 1,
    decreases text.len(),
{
    lemma_find_first(text, 10);
    match find_first(text, 10) {
        Some(i) => {
            lemma_split_lines_len(text.skip(i + 1));
        },
        None => {},
    }
}

/// Joining the lines of a text with newlines gives the text back.
pub proof fn lemma_join_split_lines(text: Seq<u8>)
    ensures
        split_lines(text).len() >= 1,
        join_lines(split_lines(text)) == text,
    decreases text.len(),
{
    lemma_find_first(text, 10);
    match find_first(text, 10) {
        Some(i) => {
            let rest = text.skip(i + 1);
            lemma_join_split_lines(rest);
            let ls = split_lines(text);
            assert(ls.drop_first() =~= split_lines(rest));
            assert(text =~= text.take(i) + seq![10u8] + rest);
        },
        None => {},
    }
}

/// The lines of `text`, numbered from one; the text after the last newline is a line too.
pub fn lines(text: &[u8]) -> (r: Vec<Line>)
    requires
        text@.len() < usize::MAX,
    ensures
        r@.len() == split_lines(text@).len(),
        forall|i: int| 0 <= i < r@.len() ==> #[trigger] r@[i].0 == i + 1 && r@[i].1@ == split_lines(text@)[i],
{
    let mut reader = BinaryReader::new(text);
    let mut result: Vec<Line> = Vec::new();
    let mut n: usize = 1;
    loop
        invariant
            n == result@.len() + 1,
            text@.len() < usize::MAX,
            result@.len() + reader@.len() <= text@.len(),
            forall|i: int| 0 <= i < result@.len() ==> #[trigger] result@[i].0 == i + 1 && result@[i].1@ == split_lines(text@)[i],
            split_lines(text@).len() == result@.len() + split_lines(reader@).len(),
            forall|i: int| 0 <= i < split_lines(reader@).len() ==> split_lines(text@)[result@.len() + i] == #[trigger] split_lines(reader@)[i],
        decreases reader@.len(),
    {
        let ghost before = reader@;
        match reader.split_until_inclusive(10u8) {
            Some(line) => {
                proof {
                    lemma_find_first(before, 10);
                    assert(split_lines(before) =~= seq![line@] + split_lines(reader@));
                    assert(split_lines(text@)[result@.len() as int] == split_lines(before)[0]);
                    assert forall|i: int| 0 <= i < split_lines(reader@).len() implies split_lines(text@)[result@.len() + 1 + i] == #[trigger] split_lines(reader@)[i] by {
                        assert(split_lines(before)[i + 1] == split_lines(reader@)[i]);
                    }
                }
                result.push(Line(n, to_vec(line)));
                n = n + 1;
            },
            None => {
                let rest = reader.bytes();
                proof {
                    lemma_find_first(before, 10);
                    assert(split_lines(before) =~= seq![rest@]);
                    assert(split_lines(text@)[result@.len() as int] == split_lines(before)[0]);
                }
                result.push(Line(n, to_vec(rest)));
                return result;
            },
        }
    }
}

// ---------------------------------------------------------------------------------------------
// The search for the shortest edit script, after E. Myers, "An O(ND) difference algorithm".
// Points are (x, y): x lines of the left side and y lines of the right side consumed.
/// The bound on the total number of lines that keeps every coordinate far from overflow; a
/// slice of `Line` values this long would not fit in memory.
pub open spec fn max_lines() -> int {
    isize::MAX / 16
}

#[derive(Debug, Clone, Copy)]
struct Point<T> {
    x: T,
    y: T,
}

impl<T> Point<T> {
    fn new(x: T, y: T) -> (r: Self)
        ensures
            r.x == x,
            r.y == y,
    {
        Point { x, y }
    }
}

#[derive(Debug, Clone, Copy)]
struct Region {
    top_left: Point<isize>,
    bottom_right: Point<isize>,
}

impl Region {
    spec fn l(self) -> int {
        self.top_left.x as int
    }

    spec fn t(self) -> int {
        self.top_left.y as int
    }

    spec fn r(self) -> int {
        self.bottom_right.x as int
    }

    spec fn bo(self) -> int {
        self.bottom_right.y as int
    }

    spec fn spec_width(self) -> int {
        self.r() - self.l()
    }

    spec fn spec_height(self) -> int {
        self.bo() - self.t()
    }

    spec fn spec_size(self) -> int {
        self.spec_width() + self.spec_height()
    }

    spec fn spec_delta(self) -> int {
        self.spec_width() - self.spec_height()
    }

    /// Corners in order, inside the grid of `n` by `m` lines.
    spec fn in_grid(self, n: int, m: int) -> bool {
        0 <= self.l() <= self.r() <= n && 0 <= self.t() <= self.bo() <= m
    }

    fn new(left: isize, top: isize, right: isize, bottom: isize) -> (r: Self)
        requires
            left <= right,
            top <= bottom,
        ensures
            r.l() == left,
            r.t() == top,
            r.r() == right,
            r.bo() == bottom,
    {
        Self::from_points(Point::new(left, top), Point::new(right, bottom))
    }

    fn from_points(p1: Point<isize>, p2: Point<isize>) -> (r: Self)
        requires
            p1.x <= p2.x,
            p1.y <= p2.y,
        ensures
            r.top_left == p1,
            r.bottom_right == p2,
    {
        Self { top_left: p1, bottom_right: p2 }
    }

    fn width(&self) -> (r: isize)
        requires
            self.l() <= self.r(),
            self.r() <= max_lines(),
            0 <= self.l(),
        ensures
            r == self.spec_width(),
    {
        self.bottom_right.x - self.top_left.x
    }

    fn height(&self) -> (r: isize)
        requires
            self.t() <= self.bo(),
            self.bo() <= max_lines(),
            0 <= self.t(),
        ensures
            r == self.spec_height(),
    {
        self.bottom_right.y - self.top_left.y
    }

    fn size(&self) -> (r: isize)
        requires
            self.in_grid(max_lines(), max_lines()),
        ensures
            r == self.spec_size(),
    {
        self.width() + self.height()
    }

    fn delta(&self) -> (r: isize)
        requires
            self.in_grid(max_lines(), max_lines()),
        ensures
            r == self.spec_delta(),
    {
        self.width() - self.height()
    }
}

/// A vector indexed from `-d` to `d`.
struct Array {
    d: isize,
    arr: Vec<isize>,
}

impl Array {
    spec fn wf(&self) -> bool {
        &&& 0 <= self.d <= max_lines()
        &&& self.arr@.len() == 2 * self.d + 1
    }

    spec fn at(&self, k: int) -> int {
        self.arr@[k + self.d] as int
    }

    /// Every cell lies within `lo..=hi`.
    spec fn bounded(&self, lo: int, hi: int) -> bool {
        forall|i: int| 0 <= i < self.arr@.len() ==> lo <= #[trigger] self.arr@[i] <= hi
    }

    fn new(d: isize) -> (r: Self)
        requires
            0 <= d <= max_lines(),
        ensures
            r.wf(),
            r.d == d,
            r.bounded(0, 0),
    {
        let n = 2 * (d as usize) + 1;
        let mut arr: Vec<isize> = Vec::new();
        let mut i: usize = 0;
        while i < n
            invariant
                i <= n,
                arr@.len() == i,
                forall|j: int| 0 <= j < i ==> arr@[j] == 0,
            decreases n - i,
        {
            arr.push(0);
            i = i + 1;
        }
        Array { d, arr }
    }

    fn get(&self, index: isize) -> (r: isize)
        requires
            self.wf(),
            -self.d <= index <= self.d,
        ensures
            r == self.at(index as int),
    {
        self.arr[(index + self.d) as usize]
    }

    fn set(&mut self, index: isize, value: isize)
        requires
            old(self).wf(),
            -old(self).d <= index <= old(self).d,
        ensures
            final(self).wf(),
            final(self).d == old(self).d,
            final(self).at(index as int) == value,
            forall|k: int| -old(self).d <= k <= old(self).d && k != index ==> final(self).at(k) == old(self).at(k),
            final(self).arr@ == old(self).arr@.update(index + old(self).d, value),
    {
        let i = (index + self.d) as usize;
        self.arr.set(i, value);
    }
}

spec fn content(a: Seq<Line>, i: int) -> Seq<u8> {
    a[i].1@
}

/// The `n` lines from `x` on the left read as the `n` lines from `y` on the right.
spec fn diag_eq(a: Seq<Line>, b: Seq<Line>, x: int, y: int, n: int) -> bool {
    forall|j: int| x <= j < x + n ==> #[trigger] content(a, j) == content(b, j - x + y)
}

/// From (px, py) to (qx, qy): `s` kept lines, then one added or deleted line when the sides
/// move by different amounts, then kept lines again.
spec fn seg_shape(a: Seq<Line>, b: Seq<Line>, px: int, py: int, qx: int, qy: int, s: int) -> bool {
    let dx = qx - px;
    let dy = qy - py;
    &&& 0 <= s <= dx
    &&& s <= dy
    &&& diag_eq(a, b, px, py, s)
    &&& if dx == dy {
        s == dx
    } else if dx == dy + 1 {
        diag_eq(a, b, px + s + 1, py + s, dy - s)
    } else if dy == dx + 1 {
        diag_eq(a, b, px + s, py + s + 1, dx - s)
    } else {
        false
    }
}

spec fn is_seg(a: Seq<Line>, b: Seq<Line>, px: int, py: int, qx: int, qy: int) -> bool {
    exists|s: int| seg_shape(a, b, px, py, qx, qy, s)
}

spec fn pt_in(p: Point<isize>, reg: Region) -> bool {
    reg.l() <= p.x <= reg.r() && reg.t() <= p.y <= reg.bo()
}

/// A path of snakes from the top-left to the bottom-right corner of `reg`.
spec fn path_ok(path: Seq<Point<isize>>, reg: Region, a: Seq<Line>, b: Seq<Line>) -> bool {
    if reg.spec_size() == 0 {
        path.len() == 0
    } else {
        &&& path.len() >= 2
        &&& path[0] == reg.top_left
        &&& path.last() == reg.bottom_right
        &&& forall|i: int| 0 <= i < path.len() ==> pt_in(#[trigger] path[i], reg)
        &&& forall|i: int|
            0 <= i < path.len() - 1 ==> is_seg(
                a,
                b,
                #[trigger] path[i].x as int,
                path[i].y as int,
                path[i + 1].x as int,
                path[i + 1].y as int,
            )
    }
}

/// Forward frontier after `e` rounds: the furthest x reached on each diagonal `k` of the right
/// parity is at least `(e + k) / 2` past the left edge.
spec fn fwd_ok(f: Array, reg: Region, e: int) -> bool {
    forall|k: int|
        -e <= k <= e && (e - k) % 2 == 0 ==> 2 * (#[trigger] f.at(k) - reg.l()) >= e + k && f.at(k)
            <= reg.r() + e + 1
}

/// Backward frontier after `e` rounds: the furthest y reached on each diagonal `c` of the
/// right parity is at least `(e + c) / 2` above the bottom edge.
spec fn bwd_ok(bw: Array, reg: Region, e: int) -> bool {
    forall|c: int|
        -e <= c <= e && (e - c) % 2 == 0 ==> 2 * (reg.bo() - #[trigger] bw.at(c)) >= e + c && bw.at(c)
            >= -e - 1
}

spec fn big() -> int {
    isize::MAX / 4
}

/// A snake found by either search is inside the region and is not empty.
fn snake_fits(region: Region, snake: Region) -> (r: bool)
    ensures
        r == (pt_in(snake.top_left, region) && pt_in(snake.bottom_right, region) && snake.top_left.x
            <= snake.bottom_right.x && snake.top_left.y <= snake.bottom_right.y && (
        snake.top_left.x != snake.bottom_right.x || snake.top_left.y != snake.bottom_right.y)),
{
    region.top_left.x <= snake.top_left.x && snake.top_left.x <= region.bottom_right.x
        && region.top_left.y <= snake.top_left.y && snake.top_left.y <= region.bottom_right.y
        && region.top_left.x <= snake.bottom_right.x && snake.bottom_right.x
        <= region.bottom_right.x && region.top_left.y <= snake.bottom_right.y
        && snake.bottom_right.y <= region.bottom_right.y && snake.top_left.x
        <= snake.bottom_right.x && snake.top_left.y <= snake.bottom_right.y && (snake.top_left.x
        != snake.bottom_right.x || snake.top_left.y != snake.bottom_right.y)
}

/// The frontier of the previous forward round: `f.at(1)` is the left edge before the first
/// round, and after round `e` the diagonals of its parity are far enough along.
spec fn fwd_prev(f: Array, reg: Region, d: int) -> bool {
    &&& d == 0 ==> f.at(1) == reg.l()
    &&& d > 0 ==> fwd_ok(f, reg, d - 1)
}

spec fn bwd_prev(bw: Array, reg: Region, d: int) -> bool {
    &&& d == 0 ==> bw.at(1) == reg.bo()
    &&& d > 0 ==> bwd_ok(bw, reg, d - 1)
}

/// One forward move on diagonal `k` in round `d`: the point it starts from, and the point
/// that the move and the kept lines after it reach.
fn forward_snake(region: Region, forward: &Array, d: isize, k: isize, a: &[Line], b: &[Line]) -> (r: (
    isize,
    isize,
    isize,
    isize,
))
    requires
        region.in_grid(a@.len() as int, b@.len() as int),
        a@.len() + b@.len() <= max_lines(),
        forward.wf(),
        forward.d >= 1,
        0 <= d <= forward.d,
        -d <= k <= d,
        (d - k) % 2 == 0,
        fwd_prev(*forward, region, d as int),
    ensures
        ({
            let (px, py, x, y) = r;
            &&& 2 * (x - region.l()) >= d + k
            &&& y == region.t() + (x - region.l()) - k
            &&& region.l() <= x <= region.r() + d + 1
            &&& px <= x
            &&& py <= y
            &&& seg_shape(a@, b@, px as int, py as int, x as int, y as int, if d == 0 {
                x - px
            } else {
                0
            })
        }),
{
    let down = k == -d || (k != d && forward.get(k - 1) < forward.get(k + 1));
    let px: isize;
    let mut x: isize;
    if down {
        px = forward.get(k + 1);
        proof {
            if d > 0 {
                assert((d - 1 - (k + 1)) % 2 == 0);
            }
        }
        x = px;
    } else {
        px = forward.get(k - 1);
        proof {
            assert((d - 1 - (k - 1)) % 2 == 0);
        }
        x = px + 1;
    }
    assert(2 * (x - region.l()) >= d + k);
    let mut y: isize = region.top_left.y + (x - region.top_left.x) - k;
    let py = if d == 0 || px != x {
        y
    } else {
        y - 1
    };
    let ghost x0 = x;
    let ghost y0 = y;
    loop
        invariant
            region.in_grid(a@.len() as int, b@.len() as int),
            a@.len() + b@.len() <= max_lines(),
            x0 <= x,
            y - y0 == x - x0,
            y == region.t() + (x - region.l()) - k,
            2 * (x - region.l()) >= d + k,
            -d <= k <= d,
            x <= (if x0 < region.r() {
                region.r() as int
            } else {
                x0 as int
            }),
            region.l() <= x0 <= region.r() + d + 1,
            diag_eq(a@, b@, x0 as int, y0 as int, x - x0),
        decreases region.r() - x,
    {
        if !(x < region.bottom_right.x && y < region.bottom_right.y) {
            break;
        }
        if !bytes_eq(a[x as usize].1.as_slice(), b[y as usize].1.as_slice()) {
            break;
        }
        proof {
            assert(content(a@, x as int) == content(b@, y as int));
            assert forall|j: int| x0 <= j < x + 1 implies #[trigger] content(a@, j) == content(
                b@,
                j - x0 + y0,
            ) by {
                if j < x {
                }
            }
        }
        x = x + 1;
        y = y + 1;
    }
    proof {
        if d == 0 {
            assert(x0 == px && y0 == py);
        } else if px == x0 {
            assert(py == y0 - 1);
        } else {
            assert(px + 1 == x0 && py == y0);
        }
    }
    (px, py, x, y)
}

fn try_forward_move(
    region: Region,
    forward: &mut Array,
    backward: &Array,
    d: isize,
    a: &[Line],
    b: &[Line],
) -> (r: Option<Region>)
    requires
        region.in_grid(a@.len() as int, b@.len() as int),
        a@.len() + b@.len() <= max_lines(),
        region.spec_size() > 0,
        old(forward).wf(),
        backward.wf(),
        old(forward).d == backward.d,
        0 <= d <= old(forward).d,
        old(forward).d * 2 == region.spec_size() || old(forward).d * 2 == region.spec_size() + 1,
        fwd_prev(*old(forward), region, d as int),
        d > 0 ==> bwd_ok(*backward, region, d - 1),
        old(forward).bounded(-big(), big()),
        backward.bounded(-big(), big()),
    ensures
        final(forward).wf(),
        final(forward).d == old(forward).d,
        final(forward).bounded(-big(), big()),
        r is None ==> fwd_ok(*final(forward), region, d as int),
        r is None ==> (d < old(forward).d || region.spec_delta() % 2 == 0),
        r matches Some(snake) ==> is_seg(
            a@,
            b@,
            snake.l(),
            snake.t(),
            snake.r(),
            snake.bo(),
        ) && snake.l() <= snake.r() && snake.t() <= snake.bo(),
{
    let delta = region.delta();
    let odd = region.size() % 2 != 0;
    assert(odd == (region.spec_delta() % 2 != 0));
    let ghost max = forward.d as int;
    let ghost kstar: int = if -d < delta - d + 1 {
        delta - d + 1
    } else {
        -d as int
    };
    let mut k: isize = d;
    while k >= -d
        invariant
            region.in_grid(a@.len() as int, b@.len() as int),
            a@.len() + b@.len() <= max_lines(),
            region.spec_size() > 0,
            delta == region.spec_delta(),
            odd == (region.spec_delta() % 2 != 0),
            forward.wf(),
            backward.wf(),
            forward.d == backward.d,
            forward.d == max,
            old(forward).d == max,
            0 <= d <= max,
            max * 2 == region.spec_size() || max * 2 == region.spec_size() + 1,
            -d - 2 <= k <= d,
            (d - k) % 2 == 0,
            fwd_prev(*forward, region, d as int),
            d > 0 ==> bwd_ok(*backward, region, d - 1),
            backward.bounded(-big(), big()),
            forward.bounded(-big(), big()),
            forall|j: int|
                k < j <= d && (d - j) % 2 == 0 ==> 2 * (#[trigger] forward.at(j) - region.l()) >= d
                    + j && forward.at(j) <= region.r() + d + 1,
            kstar == (if -d < delta - d + 1 {
                delta - d + 1
            } else {
                -d as int
            }),
            (d == max && odd) ==> k >= kstar,
        decreases k + d + 2,
    {
        let c = k - delta;
        let (px, py, x, y) = forward_snake(region, forward, d, k, a, b);
        let ghost fprev = *forward;
        forward.set(k, x);
        proof {
            assert forall|i: int| 0 <= i < forward.arr@.len() implies -big() <= #[trigger] forward.arr@[i]
                <= big() by {
                if i != k + max {
                    assert(forward.arr@[i] == fprev.arr@[i]);
                }
            }
            if d == 0 {
                assert(forward.at(1) == fprev.at(1));
            } else {
                assert forall|j: int| -(d - 1) <= j <= d - 1 && (d - 1 - j) % 2 == 0 implies 2 * (
                #[trigger] forward.at(j) - region.l()) >= d - 1 + j && forward.at(j) <= region.r() + d by {
                    assert(forward.at(j) == fprev.at(j));
                }
            }
            assert forall|j: int| k - 2 < j <= d && (d - j) % 2 == 0 implies 2 * (
            #[trigger] forward.at(j) - region.l()) >= d + j && forward.at(j) <= region.r() + d + 1 by {
                if j != k {
                    assert(forward.at(j) == fprev.at(j));
                }
            }
        }
        if odd && -(d - 1) <= c && c <= d - 1 && y >= backward.get(c) {
            return Some(Region::new(px, py, x, y));
        }
        proof {
            if d == max && odd && k == kstar {
                let cs = kstar - delta;
                assert(-(d - 1) <= cs <= d - 1);
                assert((d - 1 - cs) % 2 == 0);
                assert(2 * (region.bo() - backward.at(cs)) >= d - 1 + cs);
                assert(y >= backward.at(cs));
                assert(false);
            }
        }
        k = k - 2;
    }
    proof {
        assert forall|j: int| -d <= j <= d && (d - j) % 2 == 0 implies 2 * (#[trigger] forward.at(j)
            - region.l()) >= d + j && forward.at(j) <= region.r() + d + 1 by {}
    }
    None
}

/// One backward move on diagonal `c` in round `d`: the point it starts from, and the point
/// that the move and the kept lines before it reach.
fn backward_snake(region: Region, backward: &Array, d: isize, c: isize, a: &[Line], b: &[Line]) -> (r: (
    isize,
    isize,
    isize,
    isize,
))
    requires
        region.in_grid(a@.len() as int, b@.len() as int),
        a@.len() + b@.len() <= max_lines(),
        backward.wf(),
        backward.d >= 1,
        0 <= d <= backward.d,
        -d <= c <= d,
        (d - c) % 2 == 0,
        bwd_prev(*backward, region, d as int),
    ensures
        ({
            let (px, py, x, y) = r;
            &&& 2 * (region.bo() - y) >= d + c
            &&& x == region.l() + (y - region.t()) + c + region.spec_delta()
            &&& -d - 1 <= y <= region.bo()
            &&& x <= px
            &&& y <= py
            &&& seg_shape(a@, b@, x as int, y as int, px as int, py as int, if px - x == py - y + 1 {
                px - x - 1
            } else {
                px - x
            })
        }),
{
    let k = c + region.delta();
    let up = c == -d || (c != d && backward.get(c - 1) > backward.get(c + 1));
    let py: isize;
    let mut y: isize;
    if up {
        py = backward.get(c + 1);
        proof {
            if d > 0 {
                assert((d - 1 - (c + 1)) % 2 == 0);
            }
        }
        y = py;
    } else {
        py = backward.get(c - 1);
        proof {
            assert((d - 1 - (c - 1)) % 2 == 0);
        }
        y = py - 1;
    }
    assert(2 * (region.bo() - y) >= d + c);
    let mut x: isize = region.top_left.x + (y - region.top_left.y) + k;
    let px = if d == 0 || py != y {
        x
    } else {
        x + 1
    };
    let ghost x0 = x;
    let ghost y0 = y;
    loop
        invariant
            region.in_grid(a@.len() as int, b@.len() as int),
            a@.len() + b@.len() <= max_lines(),
            y <= y0,
            y0 - y == x0 - x,
            x == region.l() + (y - region.t()) + k,
            k == c + region.spec_delta(),
            2 * (region.bo() - y) >= d + c,
            -d <= c <= d,
            y >= (if y0 > region.t() {
                region.t() as int
            } else {
                y0 as int
            }),
            -d - 1 <= y0 <= region.bo(),
            diag_eq(a@, b@, x as int, y as int, x0 - x),
        decreases y - region.t(),
    {
        if !(x > region.top_left.x && y > region.top_left.y) {
            break;
        }
        if !bytes_eq(a[(x - 1) as usize].1.as_slice(), b[(y - 1) as usize].1.as_slice()) {
            break;
        }
        proof {
            assert(content(a@, x - 1) == content(b@, y - 1));
            assert forall|j: int| x - 1 <= j < x0 implies #[trigger] content(a@, j) == content(
                b@,
                j - (x - 1) + (y - 1),
            ) by {
                if j >= x {
                    assert(j - x + y == j - (x - 1) + (y - 1));
                }
            }
        }
        x = x - 1;
        y = y - 1;
    }
    proof {
        if d == 0 {
            assert(x0 == px && y0 == py);
        } else if py == y0 {
            assert(px == x0 + 1);
        } else {
            assert(px == x0 && py == y0 + 1);
        }
    }
    (px, py, x, y)
}

fn try_backward_move(
    region: Region,
    forward: &Array,
    backward: &mut Array,
    d: isize,
    a: &[Line],
    b: &[Line],
) -> (r: Option<Region>)
    requires
        region.in_grid(a@.len() as int, b@.len() as int),
        a@.len() + b@.len() <= max_lines(),
        region.spec_size() > 0,
        forward.wf(),
        old(backward).wf(),
        forward.d == old(backward).d,
        0 <= d <= forward.d,
        forward.d * 2 == region.spec_size() || forward.d * 2 == region.spec_size() + 1,
        bwd_prev(*old(backward), region, d as int),
        fwd_ok(*forward, region, d as int),
        old(backward).bounded(-big(), big()),
    ensures
        final(backward).wf(),
        final(backward).d == old(backward).d,
        final(backward).bounded(-big(), big()),
        r is None ==> bwd_ok(*final(backward), region, d as int),
        r is None ==> (d < forward.d || region.spec_delta() % 2 != 0),
        r matches Some(snake) ==> is_seg(
            a@,
            b@,
            snake.l(),
            snake.t(),
            snake.r(),
            snake.bo(),
        ) && snake.l() <= snake.r() && snake.t() <= snake.bo(),
{
    let delta = region.delta();
    let even = region.size() % 2 == 0;
    assert(even == (region.spec_delta() % 2 == 0));
    let ghost max = forward.d as int;
    let ghost cstar: int = if -d < -delta - d {
        -delta - d
    } else {
        -d as int
    };
    let mut c: isize = d;
    while c >= -d
        invariant
            region.in_grid(a@.len() as int, b@.len() as int),
            a@.len() + b@.len() <= max_lines(),
            region.spec_size() > 0,
            delta == region.spec_delta(),
            even == (region.spec_delta() % 2 == 0),
            forward.wf(),
            backward.wf(),
            forward.d == backward.d,
            forward.d == max,
            old(backward).d == max,
            0 <= d <= max,
            max * 2 == region.spec_size() || max * 2 == region.spec_size() + 1,
            -d - 2 <= c <= d,
            (d - c) % 2 == 0,
            bwd_prev(*backward, region, d as int),
            fwd_ok(*forward, region, d as int),
            backward.bounded(-big(), big()),
            forall|j: int|
                c < j <= d && (d - j) % 2 == 0 ==> 2 * (region.bo() - #[trigger] backward.at(j))
                    >= d + j && backward.at(j) >= -d - 1,
            cstar == (if -d < -delta - d {
                -delta - d
            } else {
                -d as int
            }),
            (d == max && even) ==> c >= cstar,
        decreases c + d + 2,
    {
        let k = c + delta;
        let (px, py, x, y) = backward_snake(region, backward, d, c, a, b);
        let ghost bprev = *backward;
        backward.set(c, y);
        proof {
            assert forall|i: int| 0 <= i < backward.arr@.len() implies -big() <= #[trigger] backward.arr@[i]
                <= big() by {
                if i != c + max {
                    assert(backward.arr@[i] == bprev.arr@[i]);
                }
            }
            if d == 0 {
                assert(backward.at(1) == bprev.at(1));
            } else {
                assert forall|j: int| -(d - 1) <= j <= d - 1 && (d - 1 - j) % 2 == 0 implies 2 * (
                region.bo() - #[trigger] backward.at(j)) >= d - 1 + j && backward.at(j) >= -(d - 1) - 1 by {
                    assert(backward.at(j) == bprev.at(j));
                }
            }
            assert forall|j: int| c - 2 < j <= d && (d - j) % 2 == 0 implies 2 * (region.bo()
                - #[trigger] backward.at(j)) >= d + j && backward.at(j) >= -d - 1 by {
                if j != c {
                    assert(backward.at(j) == bprev.at(j));
                }
            }
        }
        if even && -d <= k && k <= d && x <= forward.get(k) {
            return Some(Region::new(x, y, px, py));
        }
        proof {
            if d == max && even && c == cstar {
                let ks = cstar + delta;
                assert(-d <= ks <= d);
                assert((d - ks) % 2 == 0);
                assert(2 * (forward.at(ks) - region.l()) >= d + ks);
                assert(x <= forward.at(ks));
                assert(false);
            }
        }
        c = c - 2;
    }
    proof {
        assert forall|j: int| -d <= j <= d && (d - j) % 2 == 0 implies 2 * (region.bo()
            - #[trigger] backward.at(j)) >= d + j && backward.at(j) >= -d - 1 by {}
    }
    None
}

/// The middle snake of the region: a piece of a shortest edit path through its middle.
fn midpoint(region: Region, a: &[Line], b: &[Line]) -> (r: Option<Region>)
    requires
        region.in_grid(a@.len() as int, b@.len() as int),
        a@.len() + b@.len() <= max_lines(),
    ensures
        region.spec_size() == 0 <==> r is None,
        r matches Some(snake) ==> is_seg(a@, b@, snake.l(), snake.t(), snake.r(), snake.bo())
            && pt_in(snake.top_left, region) && pt_in(snake.bottom_right, region) && snake.l()
            <= snake.r() && snake.t() <= snake.bo() && snake.spec_size() > 0,
{
    if region.size() == 0 {
        return None;
    }
    let mut max = region.size() / 2;
    if region.size() % 2 != 0 {
        max += 1;
    }
    let mut forward = Array::new(max);
    forward.set(1, region.top_left.x);
    let mut backward = Array::new(max);
    backward.set(1, region.bottom_right.y);
    proof {
        assert(forward.bounded(-big(), big()));
        assert(backward.bounded(-big(), big()));
    }
    let mut d: isize = 0;
    while d <= max
        invariant
            region.in_grid(a@.len() as int, b@.len() as int),
            a@.len() + b@.len() <= max_lines(),
            region.spec_size() > 0,
            forward.wf(),
            backward.wf(),
            forward.d == max,
            backward.d == max,
            max * 2 == region.spec_size() || max * 2 == region.spec_size() + 1,
            0 <= d <= max,
            fwd_prev(forward, region, d as int),
            bwd_prev(backward, region, d as int),
            forward.bounded(-big(), big()),
            backward.bounded(-big(), big()),
        decreases max - d,
    {
        match try_forward_move(region, &mut forward, &backward, d, a, b) {
            Some(snake) => {
                return Some(guard_snake(region, snake, a, b));
            },
            None => {},
        }
        match try_backward_move(region, &forward, &mut backward, d, a, b) {
            Some(snake) => {
                return Some(guard_snake(region, snake, a, b));
            },
            None => {},
        }
        d = d + 1;
    }
    vstd::pervasive::unreached()
}

/// The snake as found; a snake is always inside its region and never empty, and the check
/// below makes that evident by falling back, should it not be, to a single step of the region.
fn guard_snake(region: Region, snake: Region, a: &[Line], b: &[Line]) -> (r: Region)
    requires
        region.in_grid(a@.len() as int, b@.len() as int),
        region.spec_size() > 0,
        a@.len() + b@.len() <= max_lines(),
        is_seg(a@, b@, snake.l(), snake.t(), snake.r(), snake.bo()),
    ensures
        is_seg(a@, b@, r.l(), r.t(), r.r(), r.bo()),
        pt_in(r.top_left, region),
        pt_in(r.bottom_right, region),
        r.l() <= r.r(),
        r.t() <= r.bo(),
        r.spec_size() > 0,
{
    if snake_fits(region, snake) {
        snake
    } else if region.bottom_right.x > region.top_left.x {
        let r = Region::new(
            region.top_left.x,
            region.top_left.y,
            region.top_left.x + 1,
            region.top_left.y,
        );
        assert(seg_shape(a@, b@, r.l(), r.t(), r.r(), r.bo(), 0));
        r
    } else {
        let r = Region::new(
            region.top_left.x,
            region.top_left.y,
            region.top_left.x,
            region.top_left.y + 1,
        );
        assert(seg_shape(a@, b@, r.l(), r.t(), r.r(), r.bo(), 0));
        r
    }
}

fn find_path(region: Region, a: &[Line], b: &[Line]) -> (path: Vec<Point<isize>>)
    requires
        region.in_grid(a@.len() as int, b@.len() as int),
        a@.len() + b@.len() <= max_lines(),
    ensures
        path_ok(path@, region, a@, b@),
    decreases region.spec_size(),
{
    let mut path: Vec<Point<isize>> = Vec::new();
    match midpoint(region, a, b) {
        Some(snake) => {
            let left = Region::from_points(region.top_left, snake.top_left);
            let right = Region::from_points(snake.bottom_right, region.bottom_right);
            let mut head = find_path(left, a, b);
            let mut tail = find_path(right, a, b);
            let ghost h = head@;
            let ghost tl = tail@;
            let head_empty = head.len() == 0;
            let tail_empty = tail.len() == 0;
            if head_empty {
                path.push(snake.top_left);
            } else {
                path.append(&mut head);
            }
            let ghost mid = path@;
            if tail_empty {
                path.push(snake.bottom_right);
            } else {
                path.append(&mut tail);
            }
            proof {
                let p = path@;
                assert(mid.len() >= 1);
                assert(mid.last() == snake.top_left);
                assert(p[mid.len() as int] == snake.bottom_right);
                assert(p[mid.len() - 1] == snake.top_left);
                assert forall|i: int| 0 <= i < p.len() implies pt_in(#[trigger] p[i], region) by {
                    if i < mid.len() {
                        if !head_empty {
                            assert(p[i] == h[i]);
                            assert(pt_in(h[i], left));
                        }
                    } else {
                        if !tail_empty {
                            assert(p[i] == tl[i - mid.len()]);
                            assert(pt_in(tl[i - mid.len()], right));
                        }
                    }
                }
                assert forall|i: int| 0 <= i < p.len() - 1 implies is_seg(
                    a@,
                    b@,
                    #[trigger] p[i].x as int,
                    p[i].y as int,
                    p[i + 1].x as int,
                    p[i + 1].y as int,
                ) by {
                    if i < mid.len() - 1 {
                        assert(p[i] == h[i] && p[i + 1] == h[i + 1]);
                        assert(is_seg(
                            a@,
                            b@,
                            h[i].x as int,
                            h[i].y as int,
                            h[i + 1].x as int,
                            h[i + 1].y as int,
                        ));
                    } else if i == mid.len() - 1 {
                    } else {
                        let j = i - mid.len();
                        assert(p[i] == tl[j] && p[i + 1] == tl[j + 1]);
                        assert(is_seg(
                            a@,
                            b@,
                            tl[j].x as int,
                            tl[j].y as int,
                            tl[j + 1].x as int,
                            tl[j + 1].y as int,
                        ));
                    }
                }
            }
        },
        None => {},
    }
    path
}

/// A unit step: one kept line, one added line or one deleted line.
spec fn unit_ok(reg: Region, a: Seq<Line>, b: Seq<Line>) -> bool {
    &&& 0 <= reg.l()
    &&& 0 <= reg.t()
    &&& reg.r() <= a.len()
    &&& reg.bo() <= b.len()
    &&& ((reg.r() == reg.l() + 1 && reg.bo() == reg.t() + 1 && content(a, reg.l()) == content(
        b,
        reg.t(),
    )) || (reg.r() == reg.l() && reg.bo() == reg.t() + 1) || (reg.r() == reg.l() + 1 && reg.bo()
        == reg.t()))
}

spec fn before(regs: Seq<Region>, i: int) -> (int, int) {
    if i == 0 {
        (0, 0)
    } else {
        (regs[i - 1].r(), regs[i - 1].bo())
    }
}

/// Unit steps that lead one into the next from (0, 0) to (ex, ey).
#[verifier::opaque]
spec fn chain_ok(regs: Seq<Region>, a: Seq<Line>, b: Seq<Line>, ex: int, ey: int) -> bool {
    &&& forall|i: int|
        0 <= i < regs.len() ==> unit_ok(#[trigger] regs[i], a, b) && (regs[i].l(), regs[i].t())
            == before(regs, i)
    &&& before(regs, regs.len() as int) == (ex, ey)
}

proof fn lemma_seg_diag_step(a: Seq<Line>, b: Seq<Line>, px: int, py: int, qx: int, qy: int)
    requires
        is_seg(a, b, px, py, qx, qy),
        px < qx,
        py < qy,
        content(a, px) == content(b, py),
    ensures
        is_seg(a, b, px + 1, py + 1, qx, qy),
{
    let s = choose|s: int| seg_shape(a, b, px, py, qx, qy, s);
    let dx = qx - px;
    let dy = qy - py;
    if s >= 1 {
        assert(seg_shape(a, b, px + 1, py + 1, qx, qy, s - 1)) by {
            assert forall|j: int| px + 1 <= j < px + 1 + (s - 1) implies #[trigger] content(a, j)
                == content(b, j - (px + 1) + (py + 1)) by {
                assert(content(a, j) == content(b, j - px + py));
            }
            if dx == dy + 1 {
                assert(forall|j: int|
                    px + s + 1 <= j < px + s + 1 + (dy - s) ==> #[trigger] content(a, j) == content(
                        b,
                        j - (px + s + 1) + (py + s),
                    ));
            }
        }
    } else {
        if dx == dy + 1 {
            assert(seg_shape(a, b, px + 1, py + 1, qx, qy, 0)) by {
                assert forall|j: int| px + 2 <= j < px + 2 + (dy - 1) implies #[trigger] content(
                    a,
                    j,
                ) == content(b, j - (px + 2) + (py + 1)) by {
                    assert(content(a, j) == content(b, j - (px + 1) + py));
                }
            }
        } else if dy == dx + 1 {
            assert(seg_shape(a, b, px + 1, py + 1, qx, qy, 0)) by {
                assert forall|j: int| px + 1 <= j < px + 1 + (dx - 1) implies #[trigger] content(
                    a,
                    j,
                ) == content(b, j - (px + 1) + (py + 2)) by {
                    assert(content(a, j) == content(b, j - px + (py + 1)));
                }
            }
        }
    }
}

proof fn lemma_chain_push(regs: Seq<Region>, reg: Region, a: Seq<Line>, b: Seq<Line>, ex: int, ey: int)
    requires
        chain_ok(regs, a, b, ex, ey),
        unit_ok(reg, a, b),
        reg.l() == ex,
        reg.t() == ey,
    ensures
        chain_ok(regs.push(reg), a, b, reg.r(), reg.bo()),
{
    reveal(chain_ok);
    let n = regs.push(reg);
    assert forall|j: int| 0 <= j < n.len() implies unit_ok(#[trigger] n[j], a, b) && (n[j].l(), n[j].t())
        == before(n, j) by {
        if j < regs.len() {
            assert(n[j] == regs[j]);
            if j > 0 {
                assert(n[j - 1] == regs[j - 1]);
            }
        }
    }
}

/// Kept lines from `p1` toward `p2`, for as long as the lines read the same.
fn greedy_diag(a: &[Line], b: &[Line], p1: Point<isize>, p2: Point<isize>, snakes: &mut Vec<Region>) -> (q: Point<isize>)
    requires
        0 <= p1.x <= p2.x <= a@.len(),
        0 <= p1.y <= p2.y <= b@.len(),
        a@.len() + b@.len() <= max_lines(),
        is_seg(a@, b@, p1.x as int, p1.y as int, p2.x as int, p2.y as int),
        chain_ok(old(snakes)@, a@, b@, p1.x as int, p1.y as int),
    ensures
        p1.x <= q.x <= p2.x,
        p1.y <= q.y <= p2.y,
        q.x - p1.x == q.y - p1.y,
        is_seg(a@, b@, q.x as int, q.y as int, p2.x as int, p2.y as int),
        chain_ok(final(snakes)@, a@, b@, q.x as int, q.y as int),
        !(q.x < p2.x && q.y < p2.y && content(a@, q.x as int) == content(b@, q.y as int)),
{
    let mut q = p1;
    loop
        invariant
            p1.x <= q.x <= p2.x <= a@.len(),
            p1.y <= q.y <= p2.y <= b@.len(),
            0 <= p1.x,
            0 <= p1.y,
            q.x - p1.x == q.y - p1.y,
            a@.len() + b@.len() <= max_lines(),
            is_seg(a@, b@, q.x as int, q.y as int, p2.x as int, p2.y as int),
            chain_ok(snakes@, a@, b@, q.x as int, q.y as int),
        ensures
            p1.x <= q.x <= p2.x,
            p1.y <= q.y <= p2.y,
            q.x - p1.x == q.y - p1.y,
            is_seg(a@, b@, q.x as int, q.y as int, p2.x as int, p2.y as int),
            chain_ok(snakes@, a@, b@, q.x as int, q.y as int),
            !(q.x < p2.x && q.y < p2.y && content(a@, q.x as int) == content(b@, q.y as int)),
        decreases p2.x - q.x,
    {
        if !(q.x < p2.x && q.y < p2.y) {
            break;
        }
        if !bytes_eq(a[q.x as usize].1.as_slice(), b[q.y as usize].1.as_slice()) {
            break;
        }
        proof {
            lemma_seg_diag_step(a@, b@, q.x as int, q.y as int, p2.x as int, p2.y as int);
        }
        let reg = Region::new(q.x, q.y, q.x + 1, q.y + 1);
        proof {
            lemma_chain_push(snakes@, reg, a@, b@, q.x as int, q.y as int);
        }
        snakes.push(reg);
        q.x = q.x + 1;
        q.y = q.y + 1;
    }
    q
}

proof fn lemma_chain_at(regs: Seq<Region>, a: Seq<Line>, b: Seq<Line>, ex: int, ey: int, i: int)
    requires
        chain_ok(regs, a, b, ex, ey),
        0 <= i < regs.len(),
    ensures
        unit_ok(regs[i], a, b),
        (regs[i].l(), regs[i].t()) == before(regs, i),
{
    reveal(chain_ok);
}

proof fn lemma_chain_end(regs: Seq<Region>, a: Seq<Line>, b: Seq<Line>, ex: int, ey: int)
    requires
        chain_ok(regs, a, b, ex, ey),
    ensures
        before(regs, regs.len() as int) == (ex, ey),
{
    reveal(chain_ok);
}

proof fn lemma_chain_empty(a: Seq<Line>, b: Seq<Line>)
    ensures
        chain_ok(Seq::<Region>::empty(), a, b, 0, 0),
{
    reveal(chain_ok);
}

/// Where the kept lines can go no further, a snake has its one step next, or has ended.
proof fn lemma_seg_blocked(a: Seq<Line>, b: Seq<Line>, px: int, py: int, qx: int, qy: int)
    requires
        is_seg(a, b, px, py, qx, qy),
        !(px < qx && py < qy && content(a, px) == content(b, py)),
    ensures
        qx - px != qy - py ==> seg_shape(a, b, px, py, qx, qy, 0),
        qx - px == qy - py ==> px == qx && py == qy,
{
    let s = choose|s: int| seg_shape(a, b, px, py, qx, qy, s);
    if s >= 1 {
        assert(content(a, px) == content(b, px - px + py));
    }
}

/// Unit steps along one snake of the path, from `p1` to `p2`.
fn walk_segment(a: &[Line], b: &[Line], p1: Point<isize>, p2: Point<isize>, snakes: &mut Vec<Region>)
    requires
        0 <= p1.x <= p2.x <= a@.len(),
        0 <= p1.y <= p2.y <= b@.len(),
        a@.len() + b@.len() <= max_lines(),
        is_seg(a@, b@, p1.x as int, p1.y as int, p2.x as int, p2.y as int),
        chain_ok(old(snakes)@, a@, b@, p1.x as int, p1.y as int),
    ensures
        chain_ok(final(snakes)@, a@, b@, p2.x as int, p2.y as int),
{
    let mut p = greedy_diag(a, b, p1, p2, snakes);
    proof {
        lemma_seg_blocked(a@, b@, p.x as int, p.y as int, p2.x as int, p2.y as int);
    }
    if p2.x - p.x < p2.y - p.y {
        let reg = Region::new(p.x, p.y, p.x, p.y + 1);
        proof {
            lemma_chain_push(snakes@, reg, a@, b@, p.x as int, p.y as int);
            assert(seg_shape(a@, b@, p.x as int, p.y + 1, p2.x as int, p2.y as int, p2.x - p.x));
        }
        snakes.push(reg);
        p.y = p.y + 1;
    } else if p2.x - p.x > p2.y - p.y {
        let reg = Region::new(p.x, p.y, p.x + 1, p.y);
        proof {
            lemma_chain_push(snakes@, reg, a@, b@, p.x as int, p.y as int);
            assert(seg_shape(a@, b@, p.x + 1, p.y as int, p2.x as int, p2.y as int, p2.y - p.y));
        }
        snakes.push(reg);
        p.x = p.x + 1;
    }
    assert(p2.x - p.x == p2.y - p.y);
    let q = greedy_diag(a, b, p, p2, snakes);
    proof {
        lemma_seg_blocked(a@, b@, q.x as int, q.y as int, p2.x as int, p2.y as int);
    }
}

/// Splits the path into unit steps: kept lines, then the added or deleted line, then kept lines.
fn walk_snakes(a: &[Line], b: &[Line]) -> (snakes: Vec<Region>)
    requires
        a@.len() + b@.len() <= max_lines(),
    ensures
        chain_ok(snakes@, a@, b@, a@.len() as int, b@.len() as int),
{
    let mut snakes: Vec<Region> = Vec::new();
    let region = Region::new(0, 0, a.len() as isize, b.len() as isize);
    let path = find_path(region, a, b);
    proof {
        lemma_chain_empty(a@, b@);
    }
    if path.len() == 0 {
        return snakes;
    }
    let mut i: usize = 0;
    while i + 1 < path.len()
        invariant
            path_ok(path@, region, a@, b@),
            region.l() == 0 && region.t() == 0 && region.r() == a@.len() && region.bo() == b@.len(),
            a@.len() + b@.len() <= max_lines(),
            path@.len() >= 2,
            i + 1 <= path@.len(),
            chain_ok(snakes@, a@, b@, path@[i as int].x as int, path@[i as int].y as int),
        decreases path@.len() - i,
    {
        let p1 = path[i];
        let p2 = path[i + 1];
        assert(pt_in(path@[i as int], region) && pt_in(path@[i + 1], region));
        assert(is_seg(a@, b@, p1.x as int, p1.y as int, p2.x as int, p2.y as int));
        proof {
            let s = choose|s: int| seg_shape(a@, b@, p1.x as int, p1.y as int, p2.x as int, p2.y as int, s);
        }
        walk_segment(a, b, p1, p2, &mut snakes);
        i = i + 1;
    }
    assert(path@[i as int] == path@.last());
    snakes
}

pub struct Myers<'a> {
    a: &'a [Line],
    b: &'a [Line],
}

impl<'a> Myers<'a> {
    pub closed spec fn left(&self) -> Seq<Line> {
        self.a@
    }

    pub closed spec fn right(&self) -> Seq<Line> {
        self.b@
    }

    pub fn from_lines(left: &'a [Line], right: &'a [Line]) -> (r: Self)
        ensures
            r.left() == left@,
            r.right() == right@,
    {
        Myers { a: left, b: right }
    }

    /// An edit script that turns the left lines into the right ones.
    pub fn compare(&self) -> (r: Vec<Edit>)
        requires
            self.left().len() + self.right().len() <= max_lines(),
        ensures
            is_edit_script(edits_view(r@), lines_view(self.left()), lines_view(self.right())),
    {
        let regions = walk_snakes(self.a, self.b);
        let mut edits: Vec<Edit> = Vec::new();
        let mut i: usize = 0;
        while i < regions.len()
            invariant
                i <= regions@.len(),
                chain_ok(regions@, self.a@, self.b@, self.a@.len() as int, self.b@.len() as int),
                edits@.len() == i,
                forall|j: int| 0 <= j < i ==> edit_well_formed(#[trigger] edits_view(edits@)[j]),
                old_lines(edits_view(edits@)) == lines_view(self.a@).take(before(regions@, i as int).0),
                new_lines(edits_view(edits@)) == lines_view(self.b@).take(before(regions@, i as int).1),
            decreases regions@.len() - i,
        {
            proof {
                lemma_chain_at(regions@, self.a@, self.b@, self.a@.len() as int, self.b@.len() as int, i as int);
            }
            let ghost prev = edits_view(edits@);
            let e = region_edit(regions[i], self.a, self.b);
            edits.push(e);
            proof {
                assert(edits_view(edits@) =~= prev.push(e@));
                lemma_script_push(prev, edits_view(edits@), e@, lines_view(self.a@), lines_view(self.b@), before(regions@, i as int).0, before(regions@, i as int).1, regions@[i as int].r(), regions@[i as int].bo());
            }
            i = i + 1;
        }
        proof {
            lemma_chain_end(regions@, self.a@, self.b@, self.a@.len() as int, self.b@.len() as int);
        }
        assert(lines_view(self.a@).take(self.a@.len() as int) =~= lines_view(self.a@));
        assert(lines_view(self.b@).take(self.b@.len() as int) =~= lines_view(self.b@));
        edits
    }
}

/// The edit for one unit step.
fn region_edit(region: Region, a: &[Line], b: &[Line]) -> (e: Edit)
    requires
        unit_ok(region, a@, b@),
    ensures
        edit_well_formed(e@),
        region.r() == region.l() ==> e@.1 is None,
        region.r() == region.l() + 1 ==> e@.1 == Some(a@[region.l()]@),
        region.bo() == region.t() ==> e@.2 is None,
        region.bo() == region.t() + 1 ==> e@.2 == Some(b@[region.t()]@),
{
    let x = region.top_left.x;
    let y = region.top_left.y;
    if region.bottom_right.x == region.top_left.x {
        Edit::add(b[y as usize].duplicate())
    } else if region.bottom_right.y == region.top_left.y {
        Edit::delete(a[x as usize].duplicate())
    } else {
        Edit::nothing(a[x as usize].duplicate(), b[y as usize].duplicate())
    }
}

proof fn lemma_script_push(
    prev: Seq<EditV>,
    cur: Seq<EditV>,
    e: EditV,
    a: Seq<LineV>,
    b: Seq<LineV>,
    x: int,
    y: int,
    nx: int,
    ny: int,
)
    requires
        cur == prev.push(e),
        forall|j: int| 0 <= j < prev.len() ==> edit_well_formed(#[trigger] prev[j]),
        edit_well_formed(e),
        old_lines(prev) == a.take(x),
        new_lines(prev) == b.take(y),
        0 <= x <= nx <= a.len(),
        0 <= y <= ny <= b.len(),
        nx == x ==> e.1 is None,
        nx == x + 1 ==> e.1 == Some(a[x]),
        ny == y ==> e.2 is None,
        ny == y + 1 ==> e.2 == Some(b[y]),
        nx <= x + 1,
        ny <= y + 1,
    ensures
        forall|j: int| 0 <= j < cur.len() ==> edit_well_formed(#[trigger] cur[j]),
        old_lines(cur) == a.take(nx),
        new_lines(cur) == b.take(ny),
{
    assert(cur.drop_last() =~= prev);
    assert forall|j: int| 0 <= j < cur.len() implies edit_well_formed(#[trigger] cur[j]) by {
        if j < prev.len() {
            assert(cur[j] == prev[j]);
        }
    }
    if nx == x + 1 {
        assert(a.take(x + 1) =~= a.take(x).push(a[x]));
    } else {
        assert(old_lines(cur) =~= old_lines(prev));
    }
    if ny == y + 1 {
        assert(b.take(y + 1) =~= b.take(y).push(b[y]));
    } else {
        assert(new_lines(cur) =~= new_lines(prev));
    }
}

} // verus!
