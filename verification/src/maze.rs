use vstd::prelude::*;

verus! {

use crate::color::Color;
use crate::color::Gradient;
use crate::color::color_at_spec;
use crate::mazecell::MazeCell;
use crate::mazecell::classify_spec;
use crate::raster::Raster;
use crate::raster::raster_dims;
use crate::raster::raster_pixels;

/// Why an image fails to decode into a maze.
#[derive(Clone, Copy, Debug, PartialEq, Eq, Structural)]
pub enum MazeError {
    InvalidPixelColor,
    IncompatibleDimensons,
    MissingEndpoints,
    TooManyEndpoints,
}

/// A coordinate is valid iff it lies inside the `w` by `h` rectangle.
pub open spec fn in_bounds(w: int, h: int, p: (usize, usize)) -> bool {
    p.0 < w && p.1 < h
}

/// The flat row-major index of a coordinate in a grid of width `w`.
pub open spec fn flat(w: int, p: (usize, usize)) -> int {
    p.1 * w + p.0
}

/// The cell a row-major grid of width `w` holds at `p`.
pub open spec fn cell_of(g: Seq<MazeCell>, w: int, p: (usize, usize)) -> MazeCell {
    g[flat(w, p)]
}

/// The cells the search may step onto.
pub open spec fn is_free(c: MazeCell) -> bool {
    c is Path || c is End
}

/// Four-directional adjacency: the coordinates differ by one in exactly
/// one component.
pub open spec fn adjacent(p: (usize, usize), q: (usize, usize)) -> bool {
    ||| p.1 == q.1 && (q.0 == p.0 + 1 || p.0 == q.0 + 1)
    ||| p.0 == q.0 && (q.1 == p.1 + 1 || p.1 == q.1 + 1)
}

/// `path` is a route in `g` from beside `from` through `to`: nonempty,
/// starting next to `from`, stepping to a 4-adjacent coordinate each time,
/// ending at `to`, through pairwise distinct in-bounds cells that `g` holds
/// free (Path or End).
pub open spec fn is_route(
    g: Seq<MazeCell>,
    w: int,
    h: int,
    from: (usize, usize),
    to: (usize, usize),
    path: Seq<(usize, usize)>,
) -> bool {
    &&& path.len() > 0
    &&& adjacent(from, path[0])
    &&& path.last() == to
    &&& forall|i: int| 0 <= i < path.len() ==> in_bounds(w, h, #[trigger] path[i])
    &&& forall|i: int| 0 <= i < path.len() ==> is_free(cell_of(g, w, #[trigger] path[i]))
    &&& forall|i: int| 0 <= i < path.len() - 1 ==> adjacent(#[trigger] path[i], path[i + 1])
    &&& forall|i: int, j: int| 0 <= i < j < path.len() ==> #[trigger] path[i] != #[trigger] path[j]
}

/// Some route from beside `from` through `to` exists in `g`.
pub open spec fn has_route(
    g: Seq<MazeCell>,
    w: int,
    h: int,
    from: (usize, usize),
    to: (usize, usize),
) -> bool {
    exists|path: Seq<(usize, usize)>| is_route(g, w, h, from, to, path)
}

/// How many cells of `g` are free (Path or End); the measure that shrinks
/// as the search marks cells.
pub open spec fn free_count(g: Seq<MazeCell>) -> nat
    decreases g.len(),
{
    if g.len() == 0 {
        0
    } else {
        free_count(g.drop_last()) + if is_free(g.last()) {
            1nat
        } else {
            0nat
        }
    }
}

/// Overwriting a free cell with a non-free one lowers the free count by
/// exactly one.
proof fn lemma_free_count_update(g: Seq<MazeCell>, i: int, c: MazeCell)
    requires
        0 <= i < g.len(),
        is_free(g[i]),
        !is_free(c),
    ensures
        free_count(g.update(i, c)) + 1 == free_count(g),
    decreases g.len(),
{
    let gu = g.update(i, c);
    if i == g.len() - 1 {
        assert(gu.drop_last() =~= g.drop_last());
        assert(gu.last() == c);
    } else {
        lemma_free_count_update(g.drop_last(), i, c);
        assert(gu.drop_last() =~= g.drop_last().update(i, c));
        assert(gu.last() == g.last());
    }
}

/// An in-bounds coordinate's flat index lies within the grid.
proof fn lemma_flat_in_range(w: int, h: int, p: (usize, usize))
    requires
        w > 0,
        h > 0,
        in_bounds(w, h, p),
    ensures
        0 <= flat(w, p) < w * h,
{
    assert(p.1 * w + p.0 < w * h) by (nonlinear_arith)
        requires
            p.0 < w,
            p.1 < h,
            w > 0,
    ;
}

/// Distinct in-bounds coordinates have distinct flat indices.
proof fn lemma_flat_injective(w: int, h: int, p: (usize, usize), q: (usize, usize))
    requires
        w > 0,
        in_bounds(w, h, p),
        in_bounds(w, h, q),
        p != q,
    ensures
        flat(w, p) != flat(w, q),
{
    assert(p.1 * w + p.0 != q.1 * w + q.0) by (nonlinear_arith)
        requires
            p.0 < w,
            q.0 < w,
            w > 0,
            p.0 != q.0 || p.1 != q.1,
    ;
}

/// The in-bounds 4-neighbors of `p`, in the fixed deterministic search
/// order: left, right, up, down.
pub open spec fn directions_of(w: int, h: int, p: (usize, usize)) -> Seq<(usize, usize)> {
    let left: Seq<(usize, usize)> = if p.0 > 0 {
        seq![(((p.0 - 1) as usize), p.1)]
    } else {
        seq![]
    };
    let right: Seq<(usize, usize)> = if p.0 + 1 < w {
        seq![(((p.0 + 1) as usize), p.1)]
    } else {
        seq![]
    };
    let up: Seq<(usize, usize)> = if p.1 > 0 {
        seq![(p.0, ((p.1 - 1) as usize))]
    } else {
        seq![]
    };
    let down: Seq<(usize, usize)> = if p.1 + 1 < h {
        seq![(p.0, ((p.1 + 1) as usize))]
    } else {
        seq![]
    };
    left + right + up + down
}

/// Every listed direction is in bounds and adjacent to `p`, and every
/// in-bounds neighbor of `p` is listed.
proof fn lemma_directions_of(w: int, h: int, p: (usize, usize))
    requires
        w <= usize::MAX,
        h <= usize::MAX,
        in_bounds(w, h, p),
    ensures
        forall|i: int|
            0 <= i < directions_of(w, h, p).len() ==> in_bounds(w, h, #[trigger] directions_of(w, h, p)[i])
                && adjacent(p, directions_of(w, h, p)[i]),
        forall|q: (usize, usize)|
            in_bounds(w, h, q) && adjacent(p, q) ==> directions_of(w, h, p).contains(q),
{
    let dirs = directions_of(w, h, p);
    let l0 = if p.0 > 0 { 1int } else { 0int };
    let l1 = l0 + if p.0 + 1 < w { 1int } else { 0int };
    let l2 = l1 + if p.1 > 0 { 1int } else { 0int };
    let l3 = l2 + if p.1 + 1 < h { 1int } else { 0int };
    assert(dirs.len() == l3);
    assert forall|i: int|
        0 <= i < dirs.len() implies in_bounds(w, h, #[trigger] dirs[i]) && adjacent(p, dirs[i]) by {
        if i < l0 {
            assert(dirs[i] == (((p.0 - 1) as usize), p.1));
        } else if i < l1 {
            assert(dirs[i] == (((p.0 + 1) as usize), p.1));
        } else if i < l2 {
            assert(dirs[i] == (p.0, ((p.1 - 1) as usize)));
        } else {
            assert(dirs[i] == (p.0, ((p.1 + 1) as usize)));
        }
    }
    assert forall|q: (usize, usize)| in_bounds(w, h, q) && adjacent(p, q) implies dirs.contains(q) by {
        if p.1 == q.1 && p.0 == q.0 + 1 {
            assert(dirs[0] == q);
        } else if p.1 == q.1 && q.0 == p.0 + 1 {
            let i = if p.0 > 0 { 1int } else { 0int };
            assert(dirs[i] == q);
        } else if p.0 == q.0 && p.1 == q.1 + 1 {
            let i = (if p.0 > 0 { 1int } else { 0int }) + (if p.0 + 1 < w { 1int } else { 0int });
            assert(dirs[i] == q);
        } else {
            let i = (if p.0 > 0 { 1int } else { 0int }) + (if p.0 + 1 < w { 1int } else { 0int })
                + (if p.1 > 0 { 1int } else { 0int });
            assert(dirs[i] == q);
        }
    }
}

/// The color held in one raster pixel triple.
pub open spec fn color_from_triple(t: (u8, u8, u8)) -> Color {
    Color { r: t.0, g: t.1, b: t.2 }
}

/// The triple a color writes back as.
pub open spec fn color_triple(c: Color) -> (u8, u8, u8) {
    (c.r, c.g, c.b)
}

/// The cell the raster pixel at `(x, y)` decodes to, if its color lies in
/// the palette.
pub open spec fn pixel_cell(img: Raster, x: int, y: int) -> Option<MazeCell> {
    classify_spec(color_from_triple(raster_pixels(img)[(x, y)]))
}

/// Every pixel of the raster carries a palette color.
pub open spec fn all_pixels_valid(img: Raster) -> bool {
    forall|x: int, y: int|
        0 <= x < raster_dims(img).0 && 0 <= y < raster_dims(img).1 ==> (#[trigger] pixel_cell(
            img,
            x,
            y,
        )) is Some
}

/// The in-bounds pixel at `(x, y)` decodes to the cell `k`.
pub open spec fn kind_at(img: Raster, k: MazeCell, x: int, y: int) -> bool {
    &&& 0 <= x < raster_dims(img).0
    &&& 0 <= y < raster_dims(img).1
    &&& pixel_cell(img, x, y) == Some(k)
}

/// Some pixel decodes to the cell `k`.
pub open spec fn has_kind(img: Raster, k: MazeCell) -> bool {
    exists|x: int, y: int| kind_at(img, k, x, y)
}

/// At most one pixel decodes to the cell `k`.
pub open spec fn at_most_one_kind(img: Raster, k: MazeCell) -> bool {
    forall|x1: int, y1: int, x2: int, y2: int|
        #[trigger] kind_at(img, k, x1, y1) && #[trigger] kind_at(img, k, x2, y2) ==> x1 == x2
            && y1 == y2
}

/// The raster coordinates strictly before `(x, y)` in row-major order.
spec fn scanned_before(x: int, y: int, xi: int, yi: int) -> bool {
    yi < y || (yi == y && xi < x)
}

/// A flat index bounded by the row-major position `(x, y)`.
proof fn lemma_flat_below(w: int, x: int, y: int, p: (usize, usize))
    requires
        w > 0,
        0 <= x <= w,
        0 <= y,
        p.0 < w,
        scanned_before(x, y, p.0 as int, p.1 as int),
    ensures
        0 <= flat(w, p) < y * w + x,
{
    assert(p.1 * w + p.0 < y * w + x) by (nonlinear_arith)
        requires
            w > 0,
            0 <= x <= w,
            p.0 < w,
            0 <= p.0,
            0 <= p.1,
            p.1 < y || (p.1 == y && p.0 < x),
    ;
}

/// The running state of one endpoint-kind tally during the raster scan:
/// `count` pixels of kind `k` lie before the frontier `(x, y)` in
/// row-major order, and `pos` is the first of them.
spec fn scan_ok(img: Raster, k: MazeCell, x: int, y: int, count: int, pos: (usize, usize)) -> bool {
    &&& count >= 0
    &&& (count == 0 <==> (forall|xi: int, yi: int|
        scanned_before(x, y, xi, yi) ==> !(#[trigger] kind_at(img, k, xi, yi))))
    &&& (count > 0 ==> kind_at(img, k, pos.0 as int, pos.1 as int) && scanned_before(
        x,
        y,
        pos.0 as int,
        pos.1 as int,
    ))
    &&& (count == 1 ==> (forall|xi: int, yi: int|
        scanned_before(x, y, xi, yi) && #[trigger] kind_at(img, k, xi, yi) ==> xi == pos.0 as int
            && yi == pos.1 as int))
    &&& (count >= 2 ==> (exists|a: (int, int), b: (int, int)|
        #![trigger kind_at(img, k, a.0, a.1), kind_at(img, k, b.0, b.1)]
        a != b && kind_at(img, k, a.0, a.1) && kind_at(img, k, b.0, b.1)))
}

/// One pixel advances the scan frontier and keeps the tally accurate.
proof fn lemma_scan_step(
    img: Raster,
    k: MazeCell,
    x: int,
    y: int,
    count0: int,
    count1: int,
    pos0: (usize, usize),
    pos1: (usize, usize),
    cur: MazeCell,
    cx: usize,
    cy: usize,
)
    requires
        scan_ok(img, k, x, y, count0, pos0),
        cx as int == x,
        cy as int == y,
        0 <= x < raster_dims(img).0,
        0 <= y < raster_dims(img).1,
        pixel_cell(img, x, y) == Some(cur),
        cur == k ==> count1 == count0 + 1 && (count0 == 0 ==> pos1 == (cx, cy)) && (count0 > 0
            ==> pos1 == pos0),
        cur != k ==> count1 == count0 && pos1 == pos0,
    ensures
        scan_ok(img, k, x + 1, y, count1, pos1),
{
    assert forall|xi: int, yi: int|
        scanned_before(x + 1, y, xi, yi) implies scanned_before(x, y, xi, yi) || (xi == x && yi
        == y) by {}
    if cur == k {
        assert(kind_at(img, k, x, y));
        if count0 == 0 {
            assert(kind_at(img, k, pos1.0 as int, pos1.1 as int));
        } else if count0 == 1 {
            assert(pos0.0 as int != x || pos0.1 as int != y);
            let a = (pos0.0 as int, pos0.1 as int);
            let b = (x, y);
            assert(a != b && kind_at(img, k, a.0, a.1) && kind_at(img, k, b.0, b.1));
        }
    } else {
        assert(!kind_at(img, k, x, y));
    }
}

/// Moving the frontier from the end of one row to the head of the next
/// keeps the tally accurate.
proof fn lemma_scan_wrap(img: Raster, k: MazeCell, y: int, count: int, pos: (usize, usize))
    requires
        scan_ok(img, k, raster_dims(img).0, y, count, pos),
    ensures
        scan_ok(img, k, 0, y + 1, count, pos),
{
    assert forall|xi: int, yi: int|
        scanned_before(0, y + 1, xi, yi) && 0 <= xi < raster_dims(img).0 implies scanned_before(
        raster_dims(img).0,
        y,
        xi,
        yi,
    ) by {}
}

/// A sequence that holds `y`, or is extended by it, holds it after a push.
proof fn lemma_push_contains<T>(s: Seq<T>, x: T, y: T)
    requires
        s.contains(y) || x == y,
    ensures
        s.push(x).contains(y),
{
    if s.contains(y) {
        let i = choose|i: int| 0 <= i < s.len() && s[i] == y;
        assert(s.push(x)[i] == y);
    } else {
        assert(s.push(x)[s.len() as int] == y);
    }
}

/// Cutting the first cell off a route and marking it leaves a route from
/// that cell through the same goal.
proof fn lemma_route_step(
    g: Seq<MazeCell>,
    w: int,
    h: int,
    pos: (usize, usize),
    to: (usize, usize),
    e: Seq<(usize, usize)>,
)
    requires
        w > 0,
        h > 0,
        g.len() == w * h,
        is_route(g, w, h, pos, to, e),
        e.len() > 1,
    ensures
        is_route(g.update(flat(w, e[0]), MazeCell::TraversedPath), w, h, e[0], to, e.skip(1)),
{
    let q1 = e[0];
    let g1 = g.update(flat(w, q1), MazeCell::TraversedPath);
    let e1 = e.skip(1);
    lemma_flat_in_range(w, h, q1);
    assert(e1.len() == e.len() - 1);
    assert(e1[0] == e[1]);
    assert(e1.last() == e.last());
    assert forall|i: int| 0 <= i < e1.len() implies in_bounds(w, h, #[trigger] e1[i]) && is_free(
        cell_of(g1, w, e1[i]),
    ) by {
        assert(e1[i] == e[i + 1]);
        assert(e[i + 1] != q1);
        lemma_flat_in_range(w, h, e[i + 1]);
        lemma_flat_injective(w, h, e[i + 1], q1);
    }
    assert forall|i: int| 0 <= i < e1.len() - 1 implies adjacent(#[trigger] e1[i], e1[i + 1]) by {
        assert(e1[i] == e[i + 1] && e1[i + 1] == e[i + 2]);
    }
    assert forall|i: int, j: int| 0 <= i < j < e1.len() implies e1[i] != e1[j] by {
        assert(e1[i] == e[i + 1] && e1[j] == e[j + 1]);
    }
}

/// The heart of the search's completeness: when every free neighbor of
/// `pos` has been marked and found routeless, and none of them is the end
/// cell, no route leaves `pos` at all.
proof fn lemma_no_route(
    g: Seq<MazeCell>,
    w: int,
    h: int,
    pos: (usize, usize),
    to: (usize, usize),
    neighbors: Seq<(usize, usize)>,
)
    requires
        w > 0,
        h > 0,
        g.len() == w * h,
        forall|q: (usize, usize)|
            in_bounds(w, h, q) && adjacent(pos, q) && is_free(#[trigger] cell_of(g, w, q))
                ==> neighbors.contains(q),
        forall|j: int| 0 <= j < neighbors.len() ==> #[trigger] neighbors[j] != to,
        forall|j: int|
            0 <= j < neighbors.len() ==> !has_route(
                g.update(flat(w, #[trigger] neighbors[j]), MazeCell::TraversedPath),
                w,
                h,
                neighbors[j],
                to,
            ),
    ensures
        !has_route(g, w, h, pos, to),
{
    if has_route(g, w, h, pos, to) {
        let e = choose|e: Seq<(usize, usize)>| is_route(g, w, h, pos, to, e);
        let q1 = e[0];
        assert(in_bounds(w, h, q1) && adjacent(pos, q1) && is_free(cell_of(g, w, q1)));
        assert(neighbors.contains(q1));
        let j = choose|j: int| 0 <= j < neighbors.len() && neighbors[j] == q1;
        if e.len() == 1 {
            assert(e.last() == q1);
            assert(neighbors[j] != to);
            assert(false);
        } else {
            lemma_route_step(g, w, h, pos, to, e);
            assert(has_route(g.update(flat(w, q1), MazeCell::TraversedPath), w, h, q1, to));
            assert(neighbors[j] == q1);
            assert(false);
        }
    }
}

/// The raster coordinate a grid coordinate paints.
pub open spec fn pixel_key(p: (usize, usize)) -> (int, int) {
    (p.0 as int, p.1 as int)
}

/// Whether some cell of `path` paints the raster coordinate `q`.
pub open spec fn path_covers(path: Seq<(usize, usize)>, q: (int, int)) -> bool {
    exists|i: int| 0 <= i < path.len() && pixel_key(#[trigger] path[i]) == q
}

/// A maze: a width-by-height grid of cells decoded from an image, the
/// start and end coordinates, and the working path stack of the search.
pub struct Maze {
    maze: Vec<MazeCell>,
    width: usize,
    height: usize,
    start: (usize, usize),
    end: (usize, usize),
    path: Vec<(usize, usize)>,
    is_solved: bool,
}

impl Maze {
    /// The grid in row-major order.
    pub closed spec fn grid(self) -> Seq<MazeCell> {
        self.maze@
    }

    pub closed spec fn spec_width(self) -> int {
        self.width as int
    }

    pub closed spec fn spec_height(self) -> int {
        self.height as int
    }

    pub closed spec fn spec_start(self) -> (usize, usize) {
        self.start
    }

    pub closed spec fn spec_end(self) -> (usize, usize) {
        self.end
    }

    pub closed spec fn spec_path(self) -> Seq<(usize, usize)> {
        self.path@
    }

    pub closed spec fn spec_is_solved(self) -> bool {
        self.is_solved
    }

    /// The cell at `p`.
    pub open spec fn cell(self, p: (usize, usize)) -> MazeCell {
        cell_of(self.grid(), self.spec_width(), p)
    }

    /// Structural well-formedness: positive dimensions, a grid of exactly
    /// width times height cells, start and end in bounds, and a path stack
    /// of pairwise distinct in-bounds coordinates.
    pub open spec fn wf(self) -> bool {
        let w = self.spec_width();
        let h = self.spec_height();
        &&& w > 0
        &&& h > 0
        &&& self.grid().len() == w * h
        &&& in_bounds(w, h, self.spec_start())
        &&& in_bounds(w, h, self.spec_end())
        &&& forall|i: int| 0 <= i < self.spec_path().len() ==> in_bounds(w, h, #[trigger] self.spec_path()[i])
        &&& forall|i: int, j: int|
            0 <= i < j < self.spec_path().len() ==> #[trigger] self.spec_path()[i] != #[trigger] self.spec_path()[j]
    }

    /// A freshly decoded, not yet searched maze: the path stack holds
    /// exactly the start coordinate, no cell is marked traversed, the start
    /// cell is Start, and the end coordinate holds the one End cell.
    pub open spec fn ready(self) -> bool {
        let w = self.spec_width();
        let h = self.spec_height();
        &&& self.wf()
        &&& !self.spec_is_solved()
        &&& self.spec_path() == seq![self.spec_start()]
        &&& self.cell(self.spec_start()) is Start
        &&& forall|p: (usize, usize)| in_bounds(w, h, p) ==> ((#[trigger] self.cell(p)) is End <==> p == self.spec_end())
        &&& forall|p: (usize, usize)| in_bounds(w, h, p) ==> !((#[trigger] self.cell(p)) is TraversedPath)
    }

    /// Read the cell at an in-bounds coordinate.
    fn cell_at(&self, p: (usize, usize)) -> (c: MazeCell)
        requires
            self.wf(),
            in_bounds(self.spec_width(), self.spec_height(), p),
        ensures
            c == self.cell(p),
    {
        proof {
            lemma_flat_in_range(self.spec_width(), self.spec_height(), p);
        }
        let len = self.maze.len();
        self.maze[p.1 * self.width + p.0]
    }

    /// Overwrite the cell at an in-bounds coordinate, leaving every other
    /// field alone.
    fn set_cell(&mut self, p: (usize, usize), c: MazeCell)
        requires
            old(self).wf(),
            in_bounds(old(self).spec_width(), old(self).spec_height(), p),
        ensures
            final(self).grid() == old(self).grid().update(
                flat(old(self).spec_width(), p),
                c,
            ),
            final(self).spec_width() == old(self).spec_width(),
            final(self).spec_height() == old(self).spec_height(),
            final(self).spec_start() == old(self).spec_start(),
            final(self).spec_end() == old(self).spec_end(),
            final(self).spec_path() == old(self).spec_path(),
            final(self).spec_is_solved() == old(self).spec_is_solved(),
            final(self).wf(),
    {
        proof {
            lemma_flat_in_range(self.spec_width(), self.spec_height(), p);
        }
        let len = self.maze.len();
        let i = p.1 * self.width + p.0;
        self.maze.set(i, c);
        proof {
            assert(self.spec_path() == old(self).spec_path());
        }
    }

    /// The in-bounds neighbors of `p`, in the fixed order left, right, up,
    /// down.
    fn get_directions(&self, p: (usize, usize)) -> (r: Vec<(usize, usize)>)
        requires
            self.wf(),
            in_bounds(self.spec_width(), self.spec_height(), p),
        ensures
            r@ == directions_of(self.spec_width(), self.spec_height(), p),
    {
        let (x, y) = p;
        let mut directions: Vec<(usize, usize)> = Vec::new();
        if x != 0 {
            directions.push((x - 1, y));
        }
        if x + 1 < self.width {
            directions.push((x + 1, y));
        }
        if y != 0 {
            directions.push((x, y - 1));
        }
        if y + 1 < self.height {
            directions.push((x, y + 1));
        }
        proof {
            assert(directions@ =~= directions_of(self.spec_width(), self.spec_height(), p));
        }
        directions
    }

    /// Decode a raster into a maze.  The grid takes the raster's
    /// dimensions; a zero dimension is rejected, every pixel must carry a
    /// palette color, and exactly one Start and one End pixel must
    /// appear.  The decoded maze is ready to solve, its path stack seeded
    /// with the start coordinate.
    #[verifier::loop_isolation(false)]
    #[verifier::rlimit(100)]
    pub fn try_from(image: &Raster) -> (r: Result<Maze, MazeError>)
        ensures
            (raster_dims(*image).0 <= 0 || raster_dims(*image).1 <= 0) <==> r == Err::<
                Maze,
                MazeError,
            >(MazeError::IncompatibleDimensons),
            raster_dims(*image).0 > 0 && raster_dims(*image).1 > 0 ==> (!all_pixels_valid(*image)
                <==> r == Err::<Maze, MazeError>(MazeError::InvalidPixelColor)),
            raster_dims(*image).0 > 0 && raster_dims(*image).1 > 0 && all_pixels_valid(*image)
                ==> ((!has_kind(*image, MazeCell::Start) || !has_kind(*image, MazeCell::End))
                <==> r == Err::<Maze, MazeError>(MazeError::MissingEndpoints)),
            raster_dims(*image).0 > 0 && raster_dims(*image).1 > 0 && all_pixels_valid(*image)
                && has_kind(*image, MazeCell::Start) && has_kind(*image, MazeCell::End) ==> ((
            !at_most_one_kind(*image, MazeCell::Start) || !at_most_one_kind(
                *image,
                MazeCell::End,
            )) <==> r == Err::<Maze, MazeError>(MazeError::TooManyEndpoints)),
            r matches Ok(m) ==> {
                &&& m.ready()
                &&& m.spec_width() == raster_dims(*image).0
                &&& m.spec_height() == raster_dims(*image).1
                &&& (forall|p: (usize, usize)|
                    in_bounds(m.spec_width(), m.spec_height(), p) ==> Some(#[trigger] m.cell(p))
                        == pixel_cell(*image, p.0 as int, p.1 as int))
                &&& kind_at(*image, MazeCell::Start, m.spec_start().0 as int, m.spec_start().1 as int)
                &&& kind_at(*image, MazeCell::End, m.spec_end().0 as int, m.spec_end().1 as int)
            },
    {
        let w32 = image.width();
        let h32 = image.height();
        if w32 == 0 || h32 == 0 {
            return Err(MazeError::IncompatibleDimensons);
        }
        let w = w32 as usize;
        let h = h32 as usize;
        let ghost wi = w as int;
        let ghost hi = h as int;
        let mut cells: Vec<MazeCell> = Vec::new();
        let mut start_count: usize = 0;
        let mut end_count: usize = 0;
        let mut start: (usize, usize) = (0, 0);
        let mut end: (usize, usize) = (0, 0);
        let mut y: usize = 0;
        while y < h
            invariant
                y <= h,
                cells@.len() == (y as int) * wi,
                forall|p: (usize, usize)|
                    p.0 < w && p.1 < h && scanned_before(0, y as int, p.0 as int, p.1 as int)
                        ==> Some(cells@[#[trigger] flat(wi, p)]) == pixel_cell(
                        *image,
                        p.0 as int,
                        p.1 as int,
                    ),
                scan_ok(*image, MazeCell::Start, 0, y as int, start_count as int, start),
                scan_ok(*image, MazeCell::End, 0, y as int, end_count as int, end),
                start_count as int <= cells@.len(),
                end_count as int <= cells@.len(),
            decreases h - y,
        {
            let mut x: usize = 0;
            while x < w
                invariant
                    x <= w,
                    cells@.len() == (y as int) * wi + x as int,
                    forall|p: (usize, usize)|
                        p.0 < w && p.1 < h && scanned_before(
                            x as int,
                            y as int,
                            p.0 as int,
                            p.1 as int,
                        ) ==> Some(cells@[#[trigger] flat(wi, p)]) == pixel_cell(
                            *image,
                            p.0 as int,
                            p.1 as int,
                        ),
                    scan_ok(*image, MazeCell::Start, x as int, y as int, start_count as int, start),
                    scan_ok(*image, MazeCell::End, x as int, y as int, end_count as int, end),
                    start_count as int <= cells@.len(),
                    end_count as int <= cells@.len(),
                decreases w - x,
            {
                let c = image.get_pixel(x as u32, y as u32);
                proof {
                    assert(color_from_triple(raster_pixels(*image)[(x as int, y as int)]) == c);
                }
                let cell = match MazeCell::classify(c) {
                    Ok(cell) => cell,
                    Err(_) => {
                        proof {
                            assert(pixel_cell(*image, x as int, y as int) is None);
                            assert(!all_pixels_valid(*image));
                        }
                        return Err(MazeError::InvalidPixelColor);
                    },
                };
                cells.push(cell);
                let n = cells.len();
                let ghost sc0 = start_count as int;
                let ghost ec0 = end_count as int;
                let ghost spos0 = start;
                let ghost epos0 = end;
                if cell.is_start() {
                    if start_count == 0 {
                        start = (x, y);
                    }
                    start_count = start_count + 1;
                } else if cell.is_end() {
                    if end_count == 0 {
                        end = (x, y);
                    }
                    end_count = end_count + 1;
                }
                proof {
                    assert(pixel_cell(*image, x as int, y as int) == Some(cell));
                    lemma_scan_step(
                        *image,
                        MazeCell::Start,
                        x as int,
                        y as int,
                        sc0,
                        start_count as int,
                        spos0,
                        start,
                        cell,
                        x,
                        y,
                    );
                    lemma_scan_step(
                        *image,
                        MazeCell::End,
                        x as int,
                        y as int,
                        ec0,
                        end_count as int,
                        epos0,
                        end,
                        cell,
                        x,
                        y,
                    );
                    assert(flat(wi, (x, y)) == (y as int) * wi + x as int);
                    assert forall|p: (usize, usize)|
                        p.0 < w && p.1 < h && scanned_before(
                            x as int + 1,
                            y as int,
                            p.0 as int,
                            p.1 as int,
                        ) implies Some(cells@[#[trigger] flat(wi, p)]) == pixel_cell(
                        *image,
                        p.0 as int,
                        p.1 as int,
                    ) by {
                        if scanned_before(x as int, y as int, p.0 as int, p.1 as int) {
                            lemma_flat_below(wi, x as int, y as int, p);
                        } else {
                            assert(p == (x, y));
                        }
                    }
                }
                x = x + 1;
            }
            proof {
                lemma_scan_wrap(*image, MazeCell::Start, y as int, start_count as int, start);
                lemma_scan_wrap(*image, MazeCell::End, y as int, end_count as int, end);
                assert((y as int + 1) * wi == (y as int) * wi + wi) by (nonlinear_arith);
                assert forall|p: (usize, usize)|
                    p.0 < w && p.1 < h && scanned_before(
                        0,
                        y as int + 1,
                        p.0 as int,
                        p.1 as int,
                    ) implies scanned_before(w as int, y as int, p.0 as int, p.1 as int) by {}
            }
            y = y + 1;
        }
        proof {
            assert forall|xi: int, yi: int| 0 <= xi < wi && 0 <= yi < hi implies (
            #[trigger] pixel_cell(*image, xi, yi)) is Some by {
                let p = (xi as usize, yi as usize);
                assert(scanned_before(0, hi, xi, yi));
                assert(Some(cells@[flat(wi, p)]) == pixel_cell(*image, xi, yi));
            }
            assert(all_pixels_valid(*image));
        }
        if start_count == 0 || end_count == 0 {
            proof {
                if start_count == 0 {
                    assert(!has_kind(*image, MazeCell::Start)) by {
                        if has_kind(*image, MazeCell::Start) {
                            let (xi, yi) = choose|xi: int, yi: int|
                                kind_at(*image, MazeCell::Start, xi, yi);
                            assert(scanned_before(0, hi, xi, yi));
                        }
                    }
                } else {
                    assert(!has_kind(*image, MazeCell::End)) by {
                        if has_kind(*image, MazeCell::End) {
                            let (xi, yi) = choose|xi: int, yi: int|
                                kind_at(*image, MazeCell::End, xi, yi);
                            assert(scanned_before(0, hi, xi, yi));
                        }
                    }
                }
            }
            return Err(MazeError::MissingEndpoints);
        }
        proof {
            assert(kind_at(*image, MazeCell::Start, start.0 as int, start.1 as int));
            assert(kind_at(*image, MazeCell::End, end.0 as int, end.1 as int));
            assert(has_kind(*image, MazeCell::Start));
            assert(has_kind(*image, MazeCell::End));
        }
        if start_count > 1 || end_count > 1 {
            proof {
                if start_count > 1 {
                    assert(!at_most_one_kind(*image, MazeCell::Start)) by {
                        if at_most_one_kind(*image, MazeCell::Start) {
                            let (a, b) = choose|a: (int, int), b: (int, int)|
                                a != b && kind_at(*image, MazeCell::Start, a.0, a.1) && kind_at(
                                    *image,
                                    MazeCell::Start,
                                    b.0,
                                    b.1,
                                );
                            assert(a.0 == b.0 && a.1 == b.1);
                        }
                    }
                } else {
                    assert(!at_most_one_kind(*image, MazeCell::End)) by {
                        if at_most_one_kind(*image, MazeCell::End) {
                            let (a, b) = choose|a: (int, int), b: (int, int)|
                                a != b && kind_at(*image, MazeCell::End, a.0, a.1) && kind_at(
                                    *image,
                                    MazeCell::End,
                                    b.0,
                                    b.1,
                                );
                            assert(a.0 == b.0 && a.1 == b.1);
                        }
                    }
                }
            }
            return Err(MazeError::TooManyEndpoints);
        }
        let mut seed: Vec<(usize, usize)> = Vec::new();
        seed.push(start);
        let m = Maze {
            maze: cells,
            width: w,
            height: h,
            start,
            end,
            path: seed,
            is_solved: false,
        };
        proof {
            assert(at_most_one_kind(*image, MazeCell::Start)) by {
                assert forall|x1: int, y1: int, x2: int, y2: int|
                    #[trigger] kind_at(*image, MazeCell::Start, x1, y1) && #[trigger] kind_at(
                        *image,
                        MazeCell::Start,
                        x2,
                        y2,
                    ) implies x1 == x2 && y1 == y2 by {
                    assert(scanned_before(0, hi, x1, y1));
                    assert(scanned_before(0, hi, x2, y2));
                }
            }
            assert(at_most_one_kind(*image, MazeCell::End)) by {
                assert forall|x1: int, y1: int, x2: int, y2: int|
                    #[trigger] kind_at(*image, MazeCell::End, x1, y1) && #[trigger] kind_at(
                        *image,
                        MazeCell::End,
                        x2,
                        y2,
                    ) implies x1 == x2 && y1 == y2 by {
                    assert(scanned_before(0, hi, x1, y1));
                    assert(scanned_before(0, hi, x2, y2));
                }
            }
            assert(m.spec_path() =~= seq![start]);
            assert(wi * hi == hi * wi) by (nonlinear_arith);
            assert forall|p: (usize, usize)| in_bounds(wi, hi, p) implies Some(
                #[trigger] m.cell(p),
            ) == pixel_cell(*image, p.0 as int, p.1 as int) by {
                assert(scanned_before(0, hi, p.0 as int, p.1 as int));
                assert(Some(cells@[flat(wi, p)]) == pixel_cell(*image, p.0 as int, p.1 as int));
            }
            assert(m.cell(start) is Start);
            assert(m.cell(end) is End);
            assert forall|p: (usize, usize)| in_bounds(wi, hi, p) implies ((#[trigger] m.cell(p))
                is End <==> p == end) by {
                if m.cell(p) is End {
                    assert(kind_at(*image, MazeCell::End, p.0 as int, p.1 as int));
                    assert(scanned_before(0, hi, p.0 as int, p.1 as int));
                    assert(p.0 as int == end.0 as int && p.1 as int == end.1 as int);
                }
            }
            assert forall|p: (usize, usize)| in_bounds(wi, hi, p) implies !((#[trigger] m.cell(p))
                is TraversedPath) by {
                assert(Some(m.cell(p)) == pixel_cell(*image, p.0 as int, p.1 as int));
            }
            assert(m.wf());
            assert(m.ready());
        }
        Ok(m)
    }

    /// Write the current path back into the raster: the `i`-th path cell
    /// is painted with the gradient color for position `i` of the path's
    /// length, and every other pixel keeps its color.
    #[verifier::loop_isolation(false)]
    #[verifier::rlimit(60)]
    pub fn print_over_image(&self, image: &mut Raster, gradient: &Gradient)
        requires
            self.wf(),
            raster_dims(*old(image)).0 == self.spec_width(),
            raster_dims(*old(image)).1 == self.spec_height(),
        ensures
            raster_dims(*final(image)) == raster_dims(*old(image)),
            forall|i: int|
                0 <= i < self.spec_path().len() ==> raster_pixels(*final(image))[pixel_key(
                    #[trigger] self.spec_path()[i],
                )] == color_triple(
                    color_at_spec(*gradient, i as usize, self.spec_path().len() as usize),
                ),
            forall|q: (int, int)|
                !path_covers(self.spec_path(), q) ==> raster_pixels(*final(image))[q]
                    == raster_pixels(*old(image))[q],
    {
        let w32 = image.width();
        let h32 = image.height();
        let len = self.path.len();
        let ghost pathv = self.spec_path();
        let mut i: usize = 0;
        while i < len
            invariant
                i <= len,
                raster_dims(*image) == raster_dims(*old(image)),
                forall|j: int|
                    0 <= j < i ==> raster_pixels(*image)[pixel_key(#[trigger] pathv[j])]
                        == color_triple(color_at_spec(*gradient, j as usize, len)),
                forall|q: (int, int)|
                    !path_covers(pathv.subrange(0, i as int), q) ==> raster_pixels(*image)[q]
                        == raster_pixels(*old(image))[q],
            decreases len - i,
        {
            let (x, y) = self.path[i];
            let color = gradient.color_at(i, len);
            image.put_pixel(x as u32, y as u32, color);
            proof {
                let pi = pathv[i as int];
                assert(pathv.subrange(0, i as int + 1)[i as int] == pi);
                assert(path_covers(pathv.subrange(0, i as int + 1), pixel_key(pi)));
                assert forall|q: (int, int)|
                    !path_covers(pathv.subrange(0, i as int + 1), q) implies raster_pixels(
                    *image,
                )[q] == raster_pixels(*old(image))[q] by {
                    if path_covers(pathv.subrange(0, i as int), q) {
                        let j = choose|j: int|
                            0 <= j < pathv.subrange(0, i as int).len() && pixel_key(
                                pathv.subrange(0, i as int)[j],
                            ) == q;
                        assert(pathv.subrange(0, i as int + 1)[j] == pathv.subrange(
                            0,
                            i as int,
                        )[j]);
                        assert(path_covers(pathv.subrange(0, i as int + 1), q));
                    }
                    assert(q != pixel_key(pi));
                }
                assert forall|j: int|
                    0 <= j < i + 1 implies raster_pixels(*image)[pixel_key(#[trigger] pathv[j])]
                        == color_triple(color_at_spec(*gradient, j as usize, len)) by {
                    if j < i {
                        assert(pathv[j] != pathv[i as int]);
                        assert(pixel_key(pathv[j]) != pixel_key(pi));
                    }
                }
            }
            i = i + 1;
        }
        proof {
            assert(pathv.subrange(0, len as int) =~= pathv);
        }
    }

    /// Whether this maze is in the freshly decoded state that `solve`
    /// requires; a caller that did not just decode can test before
    /// solving.
    #[verifier::loop_isolation(false)]
    #[verifier::rlimit(60)]
    pub fn is_ready(&self) -> (r: bool)
        ensures
            r == self.ready(),
    {
        if self.width == 0 || self.height == 0 {
            return false;
        }
        if self.is_solved {
            return false;
        }
        let len = self.maze.len();
        proof {
            assert(self.width as int <= u64::MAX as int);
            assert(self.height as int <= u64::MAX as int);
            assert((self.width as int) * (self.height as int) <= (u64::MAX as int) * (
            u64::MAX as int)) by (nonlinear_arith)
                requires
                    0 <= self.width as int <= u64::MAX as int,
                    0 <= self.height as int <= u64::MAX as int,
            ;
        }
        if self.width as u128 * self.height as u128 != len as u128 {
            return false;
        }
        if !(self.start.0 < self.width && self.start.1 < self.height) {
            return false;
        }
        if !(self.end.0 < self.width && self.end.1 < self.height) {
            return false;
        }
        if self.path.len() != 1 {
            return false;
        }
        let p0 = self.path[0];
        if !(p0.0 == self.start.0 && p0.1 == self.start.1) {
            return false;
        }
        proof {
            assert(self.spec_path() =~= seq![self.spec_start()]);
            assert(self.wf());
        }
        let cs = self.cell_at(self.start);
        if !cs.is_start() {
            return false;
        }
        let ce = self.cell_at(self.end);
        if !ce.is_end() {
            return false;
        }
        let w = self.width;
        let h = self.height;
        let mut y: usize = 0;
        while y < h
            invariant
                y <= h,
                forall|p: (usize, usize)|
                    p.0 < w && p.1 < h && scanned_before(0, y as int, p.0 as int, p.1 as int)
                        ==> !((#[trigger] self.cell(p)) is TraversedPath) && (self.cell(p) is End
                        ==> p == self.spec_end()),
            decreases h - y,
        {
            let mut x: usize = 0;
            while x < w
                invariant
                    x <= w,
                    forall|p: (usize, usize)|
                        p.0 < w && p.1 < h && scanned_before(
                            x as int,
                            y as int,
                            p.0 as int,
                            p.1 as int,
                        ) ==> !((#[trigger] self.cell(p)) is TraversedPath) && (self.cell(p)
                            is End ==> p == self.spec_end()),
                decreases w - x,
            {
                let c = self.cell_at((x, y));
                if c.is_wall() || c.is_path() {
                } else if c.is_start() {
                } else if c.is_end() {
                    if !(x == self.end.0 && y == self.end.1) {
                        return false;
                    }
                } else {
                    proof {
                        assert(self.cell((x, y)) is TraversedPath);
                    }
                    return false;
                }
                proof {
                    assert forall|p: (usize, usize)|
                        p.0 < w && p.1 < h && scanned_before(
                            x as int + 1,
                            y as int,
                            p.0 as int,
                            p.1 as int,
                        ) implies !((#[trigger] self.cell(p)) is TraversedPath) && (self.cell(p)
                        is End ==> p == self.spec_end()) by {
                        if !scanned_before(x as int, y as int, p.0 as int, p.1 as int) {
                            assert(p == (x, y));
                        }
                    }
                }
                x = x + 1;
            }
            y = y + 1;
        }
        proof {
            assert forall|p: (usize, usize)|
                in_bounds(self.spec_width(), self.spec_height(), p) implies ((
            #[trigger] self.cell(p)) is End <==> p == self.spec_end()) && !(self.cell(p)
                is TraversedPath) by {
                assert(scanned_before(0, h as int, p.0 as int, p.1 as int));
            }
            assert(self.ready());
        }
        true
    }

    /// The invariant of one step of the backtracking search at `pos`: the
    /// path stack holds the start seed followed by the marked trail, whose
    /// last cell is `pos` (the trail is empty when the step stands at the
    /// start itself), the traversed marks are exactly the trail cells, and
    /// the end cell is unreached, or is `pos` itself just after marking.
    pub open spec fn search_state(self, pos: (usize, usize)) -> bool {
        let w = self.spec_width();
        let h = self.spec_height();
        let path = self.spec_path();
        let trail = path.skip(1);
        &&& self.wf()
        &&& !self.spec_is_solved()
        &&& in_bounds(w, h, pos)
        &&& path.len() >= 1
        &&& path[0] == self.spec_start()
        &&& (path.len() == 1 ==> pos == self.spec_start())
        &&& (path.len() > 1 ==> path.last() == pos)
        &&& (forall|i: int| 0 <= i < path.len() - 1 ==> adjacent(#[trigger] path[i], path[i + 1]))
        &&& self.cell(self.spec_start()) is Start
        &&& (forall|p: (usize, usize)|
            in_bounds(w, h, p) ==> (((#[trigger] self.cell(p)) is TraversedPath)
                <==> trail.contains(p)))
        &&& (forall|p: (usize, usize)|
            in_bounds(w, h, p) && p != self.spec_end() ==> !((#[trigger] self.cell(p)) is End))
        &&& (self.cell(self.spec_end()) is End || pos == self.spec_end())
    }

    /// One step of the recursive backtracking search: try every free
    /// neighbor of `pos` in the fixed order until one leads to the end
    /// cell; mark a neighbor before descending into it, and unmark it
    /// again when the branch dead-ends.
    #[verifier::loop_isolation(false)]
    #[verifier::rlimit(60)]
    fn solve_internals(&mut self, pos: (usize, usize))
        requires
            old(self).search_state(pos),
        ensures
            final(self).spec_width() == old(self).spec_width(),
            final(self).spec_height() == old(self).spec_height(),
            final(self).spec_start() == old(self).spec_start(),
            final(self).spec_end() == old(self).spec_end(),
            final(self).wf(),
            !final(self).spec_is_solved() ==> final(self).grid() == old(self).grid()
                && final(self).spec_path() == old(self).spec_path(),
            final(self).spec_is_solved() ==> exists|ext: Seq<(usize, usize)>|
                success_post(*old(self), *final(self), pos, ext),
            pos == old(self).spec_end() ==> final(self).spec_is_solved(),
            !final(self).spec_is_solved() ==> !has_route(
                old(self).grid(),
                old(self).spec_width(),
                old(self).spec_height(),
                pos,
                old(self).spec_end(),
            ),
        decreases free_count(self.grid()),
    {
        if pos.0 == self.end.0 && pos.1 == self.end.1 {
            self.is_solved = true;
            let _ = self.path.remove(0);
            proof {
                assert(self.spec_path() =~= old(self).spec_path().skip(1));
                lemma_end_step(*old(self), *self, pos);
                assert(success_post(*old(self), *self, pos, Seq::<(usize, usize)>::empty()));
            }
            return;
        }
        let dirs = self.get_directions(pos);
        let mut open_dirs: Vec<(usize, usize)> = Vec::new();
        let mut k: usize = 0;
        while k < dirs.len()
            invariant
                k <= dirs@.len(),
                forall|j: int|
                    0 <= j < open_dirs@.len() ==> {
                        let q = #[trigger] open_dirs@[j];
                        in_bounds(old(self).spec_width(), old(self).spec_height(), q) && adjacent(
                            pos,
                            q,
                        ) && is_free(old(self).cell(q))
                    },
                forall|j: int|
                    0 <= j < k ==> (is_free(old(self).cell(#[trigger] dirs@[j]))
                        ==> open_dirs@.contains(dirs@[j])),
            decreases dirs@.len() - k,
        {
            let d = dirs[k];
            proof {
                lemma_directions_of(self.spec_width(), self.spec_height(), pos);
            }
            let c = self.cell_at(d);
            let ghost open0 = open_dirs@;
            if c.is_path() || c.is_end() {
                open_dirs.push(d);
            }
            proof {
                assert forall|j: int|
                    0 <= j < k + 1 && is_free(old(self).cell(#[trigger] dirs@[j]))
                    implies open_dirs@.contains(dirs@[j]) by {
                    if open_dirs@ == open0 {
                        assert(j < k);
                    } else {
                        lemma_push_contains(open0, d, dirs@[j]);
                    }
                }
            }
            k = k + 1;
        }
        let mut i: usize = 0;
        while i < open_dirs.len()
            invariant
                i <= open_dirs@.len(),
                !self.spec_is_solved(),
                self.grid() == old(self).grid(),
                self.spec_path() == old(self).spec_path(),
                self.spec_width() == old(self).spec_width(),
                self.spec_height() == old(self).spec_height(),
                self.spec_start() == old(self).spec_start(),
                self.spec_end() == old(self).spec_end(),
                forall|j: int| 0 <= j < i ==> #[trigger] open_dirs@[j] != old(self).spec_end(),
                forall|j: int|
                    0 <= j < i ==> !has_route(
                        old(self).grid().update(
                            flat(old(self).spec_width(), #[trigger] open_dirs@[j]),
                            MazeCell::TraversedPath,
                        ),
                        old(self).spec_width(),
                        old(self).spec_height(),
                        open_dirs@[j],
                        old(self).spec_end(),
                    ),
            decreases open_dirs@.len() - i,
        {
            let d = open_dirs[i];
            self.set_cell(d, MazeCell::TraversedPath);
            self.path.push(d);
            let ghost pre_child = *self;
            proof {
                lemma_flat_in_range(old(self).spec_width(), old(self).spec_height(), d);
                lemma_mark_step(*old(self), *self, pos, d);
                lemma_free_count_update(
                    old(self).grid(),
                    flat(old(self).spec_width(), d),
                    MazeCell::TraversedPath,
                );
            }
            self.solve_internals(d);
            if self.is_solved {
                proof {
                    let ext = choose|e: Seq<(usize, usize)>|
                        success_post(pre_child, *self, d, e);
                    lemma_success_compose(*old(self), pre_child, *self, pos, d, ext);
                    assert(success_post(*old(self), *self, pos, seq![d] + ext));
                }
                return;
            }
            proof {
                // the marked cell was Path, not End: stepping onto the end
                // cell always succeeds
                if old(self).cell(d) is End {
                    assert(d == old(self).spec_end());
                    assert(self.spec_is_solved());
                }
                assert(old(self).cell(d) is Path);
            }
            self.set_cell(d, MazeCell::Path);
            let _ = self.path.pop();
            proof {
                assert(self.grid() =~= old(self).grid());
                assert(self.spec_path() =~= old(self).spec_path());
                assert(d != old(self).spec_end());
                assert(!has_route(
                    old(self).grid().update(
                        flat(old(self).spec_width(), d),
                        MazeCell::TraversedPath,
                    ),
                    old(self).spec_width(),
                    old(self).spec_height(),
                    d,
                    old(self).spec_end(),
                ));
            }
            i = i + 1;
        }
        proof {
            let w = old(self).spec_width();
            let h = old(self).spec_height();
            let g = old(self).grid();
            lemma_directions_of(w, h, pos);
            assert forall|q: (usize, usize)|
                in_bounds(w, h, q) && adjacent(pos, q) && is_free(#[trigger] cell_of(g, w, q))
                implies open_dirs@.contains(q) by {
                assert(dirs@.contains(q));
                let j = choose|j: int| 0 <= j < dirs@.len() && dirs@[j] == q;
                assert(is_free(old(self).cell(dirs@[j])));
            }
            lemma_no_route(g, w, h, pos, old(self).spec_end(), open_dirs@);
        }
    }

    /// Run the backtracking search from the start cell.  It succeeds
    /// exactly when the end cell is reachable from the start through Path
    /// cells.  On success the path stack becomes the found route: it runs
    /// from the cell beside the start through the end cell, over cells
    /// that were Path or End before the search, and those cells now carry
    /// the traversed mark.  On failure the maze is left exactly as it
    /// was, the path stack still holding only the start seed.
    pub fn solve(&mut self)
        requires
            old(self).ready(),
        ensures
            final(self).spec_width() == old(self).spec_width(),
            final(self).spec_height() == old(self).spec_height(),
            final(self).spec_start() == old(self).spec_start(),
            final(self).spec_end() == old(self).spec_end(),
            final(self).wf(),
            final(self).spec_is_solved() ==> is_route(
                old(self).grid(),
                old(self).spec_width(),
                old(self).spec_height(),
                old(self).spec_start(),
                old(self).spec_end(),
                final(self).spec_path(),
            ),
            final(self).spec_is_solved() ==> forall|p: (usize, usize)|
                in_bounds(old(self).spec_width(), old(self).spec_height(), p)
                    ==> #[trigger] cell_of(final(self).grid(), old(self).spec_width(), p) == (
                    if final(self).spec_path().contains(p) {
                        MazeCell::TraversedPath
                    } else {
                        cell_of(old(self).grid(), old(self).spec_width(), p)
                    }),
            !final(self).spec_is_solved() ==> final(self).grid() == old(self).grid()
                && final(self).spec_path() == old(self).spec_path(),
            !has_route(
                old(self).grid(),
                old(self).spec_width(),
                old(self).spec_height(),
                old(self).spec_start(),
                old(self).spec_end(),
            ) ==> !final(self).spec_is_solved(),
            has_route(
                old(self).grid(),
                old(self).spec_width(),
                old(self).spec_height(),
                old(self).spec_start(),
                old(self).spec_end(),
            ) ==> final(self).spec_is_solved(),
    {
        let start = self.start;
        proof {
            assert(self.spec_path().skip(1) =~= Seq::<(usize, usize)>::empty());
            assert(self.search_state(start));
        }
        self.solve_internals(start);
        proof {
            if self.spec_is_solved() {
                let ext = choose|e: Seq<(usize, usize)>|
                    success_post(*old(self), *self, start, e);
                assert(old(self).cell(old(self).spec_end()) is End);
                assert(start != old(self).spec_end());
                assert(old(self).spec_path().skip(1) =~= Seq::<(usize, usize)>::empty());
                assert(self.spec_path() =~= ext);
                assert(is_route(
                    old(self).grid(),
                    old(self).spec_width(),
                    old(self).spec_height(),
                    old(self).spec_start(),
                    old(self).spec_end(),
                    self.spec_path(),
                ));
            }
        }
    }

    /// The current path stack: after a successful solve, the found route.
    pub fn path(&self) -> (r: Vec<(usize, usize)>)
        ensures
            r@ == self.spec_path(),
    {
        let mut r: Vec<(usize, usize)> = Vec::new();
        let mut i: usize = 0;
        while i < self.path.len()
            invariant
                i <= self.path@.len(),
                r@ == self.path@.subrange(0, i as int),
            decreases self.path@.len() - i,
        {
            let q = self.path[i];
            r.push(q);
            proof {
                assert(r@ =~= self.path@.subrange(0, i + 1));
            }
            i = i + 1;
        }
        proof {
            assert(r@ =~= self.path@);
        }
        r
    }

    /// The grid width in cells.
    pub fn width(&self) -> (r: usize)
        ensures
            r as int == self.spec_width(),
    {
        self.width
    }

    /// The grid height in cells.
    pub fn height(&self) -> (r: usize)
        ensures
            r as int == self.spec_height(),
    {
        self.height
    }

    /// Whether the search has reached the end cell.
    pub fn is_solved(&self) -> (r: bool)
        ensures
            r == self.spec_is_solved(),
    {
        self.is_solved
    }
}

/// What a successful step at `pos` leaves behind: the path stack has lost
/// the start seed and grown by `ext`, the freshly marked chain that runs
/// from beside `pos` through the end cell; the grid holds exactly the old
/// cells with the chain overwritten by traversed marks.
pub open spec fn success_post(
    pre: Maze,
    post: Maze,
    pos: (usize, usize),
    ext: Seq<(usize, usize)>,
) -> bool {
    let w = pre.spec_width();
    let h = pre.spec_height();
    &&& post.spec_path() == pre.spec_path().skip(1) + ext
    &&& (pos == pre.spec_end() ==> ext.len() == 0)
    &&& (pos != pre.spec_end() ==> ext.len() > 0 && ext.last() == pre.spec_end() && adjacent(
        pos,
        ext[0],
    ))
    &&& (forall|i: int| 0 <= i < ext.len() ==> in_bounds(w, h, #[trigger] ext[i]))
    &&& (forall|i: int| 0 <= i < ext.len() ==> is_free(cell_of(pre.grid(), w, #[trigger] ext[i])))
    &&& (forall|i: int| 0 <= i < ext.len() - 1 ==> adjacent(#[trigger] ext[i], ext[i + 1]))
    &&& (forall|p: (usize, usize)|
        in_bounds(w, h, p) ==> #[trigger] cell_of(post.grid(), w, p) == (if ext.contains(p) {
            MazeCell::TraversedPath
        } else {
            cell_of(pre.grid(), w, p)
        }))
}

/// Marking a free neighbor `d` of `pos` and pushing it re-establishes the
/// search invariant at `d`.
proof fn lemma_mark_step(pre: Maze, post: Maze, pos: (usize, usize), d: (usize, usize))
    requires
        pre.search_state(pos),
        pos != pre.spec_end(),
        in_bounds(pre.spec_width(), pre.spec_height(), d),
        adjacent(pos, d),
        is_free(pre.cell(d)),
        post.grid() == pre.grid().update(flat(pre.spec_width(), d), MazeCell::TraversedPath),
        post.spec_path() == pre.spec_path().push(d),
        post.spec_width() == pre.spec_width(),
        post.spec_height() == pre.spec_height(),
        post.spec_start() == pre.spec_start(),
        post.spec_end() == pre.spec_end(),
        post.spec_is_solved() == pre.spec_is_solved(),
    ensures
        post.search_state(d),
        !pre.spec_path().contains(d),
{
    let w = pre.spec_width();
    let h = pre.spec_height();
    let path0 = pre.spec_path();
    let path1 = post.spec_path();
    let trail0 = path0.skip(1);
    let trail1 = path1.skip(1);
    lemma_flat_in_range(w, h, d);
    // d is on neither the seed nor the trail: its cell is free, while the
    // start cell is Start and every trail cell is marked
    assert forall|i: int| 0 <= i < path0.len() implies path0[i] != d by {
        if path0[i] == d {
            if i == 0 {
                assert(pre.cell(d) is Start);
            } else {
                assert(trail0[i - 1] == d);
                assert(trail0.contains(d));
                assert(pre.cell(d) is TraversedPath);
            }
        }
    }
    assert(!path0.contains(d)) by {
        if path0.contains(d) {
            let i = choose|i: int| 0 <= i < path0.len() && path0[i] == d;
            assert(path0[i] != d);
        }
    }
    // cells other than d keep their kind
    assert forall|p: (usize, usize)| in_bounds(w, h, p) && p != d implies post.cell(p) == pre.cell(
        p,
    ) by {
        lemma_flat_in_range(w, h, p);
        lemma_flat_injective(w, h, p, d);
    }
    assert(post.cell(d) is TraversedPath);
    // the new path is still a pairwise distinct in-bounds chain
    assert forall|i: int, j: int| 0 <= i < j < path1.len() implies path1[i] != path1[j] by {
        if j == path1.len() - 1 {
            assert(path1[i] == path0[i] && path1[j] == d);
        } else {
            assert(path1[i] == path0[i] && path1[j] == path0[j]);
        }
    }
    assert forall|i: int| 0 <= i < path1.len() implies in_bounds(w, h, #[trigger] path1[i]) by {
        if i < path0.len() {
            assert(path1[i] == path0[i]);
        } else {
            assert(path1[i] == d);
        }
    }
    assert forall|i: int| 0 <= i < path1.len() - 1 implies adjacent(
        #[trigger] path1[i],
        path1[i + 1],
    ) by {
        if i == path1.len() - 2 {
            assert(path1[i] == path0[i] && path1[i + 1] == d);
            if path0.len() == 1 {
                assert(path0[i] == pre.spec_start() && pos == pre.spec_start());
            } else {
                assert(path0[i] == path0.last() && path0.last() == pos);
            }
        } else {
            assert(path1[i] == path0[i] && path1[i + 1] == path0[i + 1]);
        }
    }
    // the trail grew by exactly d
    assert(trail1 =~= trail0.push(d));
    assert forall|p: (usize, usize)| in_bounds(w, h, p) implies (((post.cell(p)) is TraversedPath)
        <==> trail1.contains(p)) by {
        if p == d {
            assert(trail1[trail1.len() - 1] == d);
            assert(trail1.contains(d));
        } else {
            if trail1.contains(p) {
                let k = choose|k: int| 0 <= k < trail1.len() && trail1[k] == p;
                assert(trail0[k] == p);
                assert(trail0.contains(p));
            }
            if trail0.contains(p) {
                let k = choose|k: int| 0 <= k < trail0.len() && trail0[k] == p;
                assert(trail1[k] == p);
                assert(trail1.contains(p));
            }
        }
    }
    // the end cell stays where it was
    if d != pre.spec_end() {
        lemma_flat_injective(w, h, pre.spec_end(), d);
    }
}

/// A successful deeper step through the marked neighbor `d` yields a
/// successful step at `pos` whose chain is `d` followed by the deeper
/// chain.
proof fn lemma_success_compose(
    pre: Maze,
    mid: Maze,
    post: Maze,
    pos: (usize, usize),
    d: (usize, usize),
    ext: Seq<(usize, usize)>,
)
    requires
        pre.search_state(pos),
        pos != pre.spec_end(),
        in_bounds(pre.spec_width(), pre.spec_height(), d),
        adjacent(pos, d),
        is_free(pre.cell(d)),
        mid.grid() == pre.grid().update(flat(pre.spec_width(), d), MazeCell::TraversedPath),
        mid.spec_path() == pre.spec_path().push(d),
        mid.spec_width() == pre.spec_width(),
        mid.spec_height() == pre.spec_height(),
        mid.spec_end() == pre.spec_end(),
        success_post(mid, post, d, ext),
    ensures
        success_post(pre, post, pos, seq![d] + ext),
{
    let w = pre.spec_width();
    let h = pre.spec_height();
    let full = seq![d] + ext;
    lemma_flat_in_range(w, h, d);
    assert(full[0] == d);
    assert(full.len() == 1 + ext.len());
    // the path stacks line up
    assert(mid.spec_path().skip(1) =~= pre.spec_path().skip(1).push(d));
    assert(pre.spec_path().skip(1).push(d) + ext =~= pre.spec_path().skip(1) + full);
    assert(post.spec_path() == pre.spec_path().skip(1) + full);
    // no chain cell is d itself except its head
    assert forall|i: int| 0 <= i < ext.len() implies ext[i] != d by {
        if ext[i] == d {
            assert(is_free(cell_of(mid.grid(), w, ext[i])));
            assert(cell_of(mid.grid(), w, d) is TraversedPath);
        }
    }
    // the chain runs through cells free before the marking
    assert forall|i: int| 0 <= i < full.len() implies is_free(
        cell_of(pre.grid(), w, #[trigger] full[i]),
    ) && in_bounds(w, h, full[i]) by {
        if i == 0 {
            assert(full[i] == d);
        } else {
            assert(full[i] == ext[i - 1]);
            assert(ext[i - 1] != d);
            lemma_flat_in_range(w, h, ext[i - 1]);
            lemma_flat_injective(w, h, ext[i - 1], d);
            assert(cell_of(pre.grid(), w, ext[i - 1]) == cell_of(mid.grid(), w, ext[i - 1]));
        }
    }
    // the chain is connected and ends at the end cell
    assert forall|i: int| 0 <= i < full.len() - 1 implies adjacent(
        #[trigger] full[i],
        full[i + 1],
    ) by {
        if i == 0 {
            assert(full[0] == d && full[1] == ext[0]);
        } else {
            assert(full[i] == ext[i - 1] && full[i + 1] == ext[i]);
        }
    }
    if d == pre.spec_end() {
        assert(full.last() == d);
    } else {
        assert(ext.len() > 0);
        assert(full.last() == ext.last());
    }
    // membership in the full chain
    assert forall|p: (usize, usize)| #[trigger] full.contains(p) implies p == d || ext.contains(
        p,
    ) by {
        let k = choose|k: int| 0 <= k < full.len() && full[k] == p;
        if k > 0 {
            assert(ext[k - 1] == p);
            assert(ext.contains(p));
        }
    }
    assert(full.contains(d)) by {
        assert(full[0] == d);
    }
    assert forall|p: (usize, usize)| ext.contains(p) implies full.contains(p) by {
        let k = choose|k: int| 0 <= k < ext.len() && ext[k] == p;
        assert(full[k + 1] == p);
    }
    // the final grid is the old grid with the full chain marked
    assert forall|p: (usize, usize)| in_bounds(w, h, p) implies #[trigger] cell_of(
        post.grid(),
        w,
        p,
    ) == (if full.contains(p) {
        MazeCell::TraversedPath
    } else {
        cell_of(pre.grid(), w, p)
    }) by {
        if ext.contains(p) {
        } else if p == d {
            assert(cell_of(post.grid(), w, d) == cell_of(mid.grid(), w, d));
        } else {
            assert(!full.contains(p));
            lemma_flat_in_range(w, h, p);
            lemma_flat_injective(w, h, p, d);
            assert(cell_of(mid.grid(), w, p) == cell_of(pre.grid(), w, p));
        }
    }
}

/// Reaching the end cell: dropping the start seed from the path stack
/// yields a successful step with an empty chain, and keeps the stack a
/// well-formed path.
proof fn lemma_end_step(pre: Maze, post: Maze, pos: (usize, usize))
    requires
        pre.search_state(pos),
        pos == pre.spec_end(),
        post.grid() == pre.grid(),
        post.spec_path() == pre.spec_path().skip(1),
        post.spec_width() == pre.spec_width(),
        post.spec_height() == pre.spec_height(),
        post.spec_start() == pre.spec_start(),
        post.spec_end() == pre.spec_end(),
    ensures
        success_post(pre, post, pos, Seq::<(usize, usize)>::empty()),
        post.wf(),
{
    let w = pre.spec_width();
    let h = pre.spec_height();
    let path0 = pre.spec_path();
    let path1 = post.spec_path();
    assert(path1 =~= path0.skip(1) + Seq::<(usize, usize)>::empty());
    assert forall|i: int| 0 <= i < path1.len() implies in_bounds(w, h, #[trigger] path1[i]) by {
        assert(path1[i] == path0[i + 1]);
    }
    assert forall|i: int, j: int| 0 <= i < j < path1.len() implies path1[i] != path1[j] by {
        assert(path1[i] == path0[i + 1] && path1[j] == path0[j + 1]);
    }
}

} // verus!
