use vstd::prelude::*;

use crate::grid::{filled3, get3, grid3, new_grid3, put3, set3, wf3};
use crate::plate_map::{cell, wf_map, PlateMap};

verus! {

/// Type of plate boundary interaction.
#[derive(Clone, Copy, Debug, PartialEq, Eq, Structural)]
pub enum BoundaryType {
    /// Plates colliding.
    Convergent,
    /// Plates spreading apart.
    Divergent,
    /// Plates sliding past each other.
    Transform,
}

/// The classification of each cell's four edges, `[face][y][x][d]`, for the
/// directions right, down, left, up (`d` = 0..3): where the neighbour across
/// edge `d` lies on the face and holds another plate, the interaction of the
/// two plates there, if both plates are known; `None` otherwise.
pub type EdgeClasses = Vec<Vec<Vec<[Option<BoundaryType>; 4]>>>;

/// Boundary information for the whole planet.
pub struct BoundaryData {
    /// Boundary type of each cell (`None` = interior).
    pub boundaries: Vec<Vec<Vec<Option<BoundaryType>>>>,
    /// Steps from the nearest boundary cell (0 on the boundary); `None` where
    /// the nearest one is farther than the boundary width.
    pub boundary_distances: Vec<Vec<Vec<Option<usize>>>>,
}

/// Horizontal step of edge direction `d`: right, down, left, up.
pub open spec fn edge_dx(d: int) -> int {
    if d == 0 { 1 } else if d == 2 { -1 } else { 0 }
}

/// Vertical step of edge direction `d`.
pub open spec fn edge_dy(d: int) -> int {
    if d == 1 { 1 } else if d == 3 { -1 } else { 0 }
}

pub type Marks = Seq<Seq<Seq<Option<BoundaryType>>>>;

/// Step `d` of the boundary marking at cell `(f, y, x)`: if the neighbour
/// across edge `d` holds another plate, the cell is still unmarked and the
/// edge is classified, both cells get that classification.
pub open spec fn mark_step(
    t: Marks,
    m: Seq<Seq<Seq<usize>>>,
    cls: Seq<Seq<Seq<[Option<BoundaryType>; 4]>>>,
    n: int,
    f: int,
    y: int,
    x: int,
    d: int,
) -> Marks {
    let nx = x + edge_dx(d);
    let ny = y + edge_dy(d);
    if 0 <= nx < n && 0 <= ny < n && m[f][ny][nx] != m[f][y][x] && t[f][y][x] is None
        && cls[f][y][x]@[d] is Some {
        set3(set3(t, f, y, x, cls[f][y][x]@[d]), f, ny, nx, cls[f][y][x]@[d])
    } else {
        t
    }
}

/// The first `d` marking steps at cell `(f, y, x)`.
pub open spec fn mark_dirs(
    t: Marks,
    m: Seq<Seq<Seq<usize>>>,
    cls: Seq<Seq<Seq<[Option<BoundaryType>; 4]>>>,
    n: int,
    f: int,
    y: int,
    x: int,
    d: int,
) -> Marks
    decreases d,
{
    if d <= 0 {
        t
    } else {
        mark_step(mark_dirs(t, m, cls, n, f, y, x, d - 1), m, cls, n, f, y, x, d - 1)
    }
}

/// The marks after every cell before `(f, y, x)` (face, row, column order)
/// has been marked, starting from an unmarked map.
pub open spec fn mark_before(
    m: Seq<Seq<Seq<usize>>>,
    cls: Seq<Seq<Seq<[Option<BoundaryType>; 4]>>>,
    n: int,
    f: int,
    y: int,
    x: int,
) -> Marks
    decreases f, y, x,
{
    if f < 0 || y < 0 || x < 0 {
        filled3(n, None)
    } else if x > 0 {
        mark_dirs(mark_before(m, cls, n, f, y, x - 1), m, cls, n, f, y, x - 1, 4)
    } else if y > 0 {
        mark_before(m, cls, n, f, y - 1, n)
    } else if f > 0 {
        mark_before(m, cls, n, f - 1, n, 0)
    } else {
        filled3(n, None)
    }
}

/// The cells marked before any spreading: the marks after all six faces.
pub open spec fn boundary_seeds(
    m: Seq<Seq<Seq<usize>>>,
    cls: Seq<Seq<Seq<[Option<BoundaryType>; 4]>>>,
    n: int,
) -> Marks {
    mark_before(m, cls, n, 6, 0, 0)
}

/// Cell `(f, y, x)` is within `k` steps (up, down, left, right on its face)
/// of a marked cell of `s`.
pub open spec fn within(s: Marks, n: int, f: int, y: int, x: int, k: int) -> bool
    decreases k,
{
    if k < 0 {
        false
    } else {
        ||| s[f][y][x] is Some
        ||| k > 0 && y > 0 && within(s, n, f, y - 1, x, k - 1)
        ||| k > 0 && x > 0 && within(s, n, f, y, x - 1, k - 1)
        ||| k > 0 && x + 1 < n && within(s, n, f, y, x + 1, k - 1)
        ||| k > 0 && y + 1 < n && within(s, n, f, y + 1, x, k - 1)
    }
}

/// Cell `(f, y, x)` is exactly `k` steps from the nearest marked cell.
pub open spec fn at_level(s: Marks, n: int, f: int, y: int, x: int, k: int) -> bool {
    within(s, n, f, y, x, k) && !within(s, n, f, y, x, k - 1)
}

/// The boundary type that spreading gives a cell `k` steps from the nearest
/// marked cell: a marked cell keeps its mark; otherwise the cell takes the
/// type of its first neighbour one step nearer, in the order up, left,
/// right, down.
pub open spec fn spread_type(s: Marks, n: int, f: int, y: int, x: int, k: int) -> Option<BoundaryType>
    decreases k,
{
    if k <= 0 {
        s[f][y][x]
    } else if y > 0 && at_level(s, n, f, y - 1, x, k - 1) {
        spread_type(s, n, f, y - 1, x, k - 1)
    } else if x > 0 && at_level(s, n, f, y, x - 1, k - 1) {
        spread_type(s, n, f, y, x - 1, k - 1)
    } else if x + 1 < n && at_level(s, n, f, y, x + 1, k - 1) {
        spread_type(s, n, f, y, x + 1, k - 1)
    } else {
        spread_type(s, n, f, y + 1, x, k - 1)
    }
}

/// Width of the band around boundaries: 5% of the grid size, at least 3.
pub open spec fn boundary_width_spec(n: int) -> int {
    if n / 20 > 3 { n / 20 } else { 3 }
}

/// Width of the band around boundaries in cells.
pub fn boundary_width(n: usize) -> (w: usize)
    ensures
        w == boundary_width_spec(n as int),
{
    if n / 20 > 3 {
        n / 20
    } else {
        3
    }
}

proof fn lemma_within_monotone(s: Marks, n: int, f: int, y: int, x: int, k: int)
    requires
        within(s, n, f, y, x, k),
    ensures
        within(s, n, f, y, x, k + 1),
    decreases k,
{
    if s[f][y][x] is Some {
    } else if k > 0 && y > 0 && within(s, n, f, y - 1, x, k - 1) {
        lemma_within_monotone(s, n, f, y - 1, x, k - 1);
    } else if k > 0 && x > 0 && within(s, n, f, y, x - 1, k - 1) {
        lemma_within_monotone(s, n, f, y, x - 1, k - 1);
    } else if k > 0 && x + 1 < n && within(s, n, f, y, x + 1, k - 1) {
        lemma_within_monotone(s, n, f, y, x + 1, k - 1);
    } else {
        lemma_within_monotone(s, n, f, y + 1, x, k - 1);
    }
}

proof fn lemma_within_monotone_to(s: Marks, n: int, f: int, y: int, x: int, j: int, k: int)
    requires
        within(s, n, f, y, x, j),
        j <= k,
    ensures
        within(s, n, f, y, x, k),
    decreases k - j,
{
    if j < k {
        lemma_within_monotone(s, n, f, y, x, j);
        lemma_within_monotone_to(s, n, f, y, x, j + 1, k);
    }
}


proof fn lemma_set3_wf<T>(g: Seq<Seq<Seq<T>>>, n: int, f: int, y: int, x: int, v: T)
    requires
        wf3(g, n),
        0 <= f < 6,
        0 <= y < n,
        0 <= x < n,
    ensures
        wf3(set3(g, f, y, x, v), n),
        forall|a: int, b: int, c: int| 0 <= a < 6 && 0 <= b < n && 0 <= c < n ==> #[trigger] set3(g, f, y, x, v)[a][b][c]
            == if a == f && b == y && c == x { v } else { g[a][b][c] },
{
}

/// The classification of edge `d` of cell `(f, y, x)`.
fn edge_class(classes: &EdgeClasses, f: usize, y: usize, x: usize, d: usize) -> (c: Option<BoundaryType>)
    requires
        f < grid3(classes).len(),
        y < grid3(classes)[f as int].len(),
        x < grid3(classes)[f as int][y as int].len(),
        d < 4,
    ensures
        c == grid3(classes)[f as int][y as int][x as int]@[d as int],
{
    let e = get3(classes, f, y, x);
    e[d]
}

/// The neighbour across edge `d` of cell `(x, y)`, if it lies on the face.
fn edge_neighbor(n: usize, x: usize, y: usize, d: usize) -> (r: Option<(usize, usize)>)
    requires
        x < n,
        y < n,
        d < 4,
    ensures
        r is Some <==> (0 <= x + edge_dx(d as int) < n && 0 <= y + edge_dy(d as int) < n),
        r matches Some((nx, ny)) ==> nx == x + edge_dx(d as int) && ny == y + edge_dy(d as int),
{
    if d == 0 {
        if x + 1 < n { Some((x + 1, y)) } else { None }
    } else if d == 1 {
        if y + 1 < n { Some((x, y + 1)) } else { None }
    } else if d == 2 {
        if x > 0 { Some((x - 1, y)) } else { None }
    } else {
        if y > 0 { Some((x, y - 1)) } else { None }
    }
}

/// Marks the cells on either side of every plate boundary edge with the
/// edge's classification (step 1), keeping the distances at zero on marked
/// cells.
fn mark_boundaries(face_grid_size: usize, plate_map: &PlateMap, classes: &EdgeClasses) -> (r: (
    Vec<Vec<Vec<Option<BoundaryType>>>>,
    Vec<Vec<Vec<Option<usize>>>>,
))
    requires
        wf_map(plate_map.deep_view(), face_grid_size as int),
        wf3(grid3(classes), face_grid_size as int),
    ensures
        grid3(&r.0) == boundary_seeds(plate_map.deep_view(), grid3(classes), face_grid_size as int),
        wf3(grid3(&r.0), face_grid_size as int),
        wf3(grid3(&r.1), face_grid_size as int),
        forall|f: int, y: int, x: int| 0 <= f < 6 && 0 <= y < face_grid_size && 0 <= x < face_grid_size
            ==> #[trigger] grid3(&r.1)[f][y][x] == if grid3(&r.0)[f][y][x] is Some { Some(0usize) } else { None },
{
    let n = face_grid_size;
    let ghost m = plate_map.deep_view();
    let ghost cls = grid3(classes);
    let mut marks: Vec<Vec<Vec<Option<BoundaryType>>>> = new_grid3(n, None);
    let mut dist: Vec<Vec<Vec<Option<usize>>>> = new_grid3(n, None);
    let mut f: usize = 0;
    while f < 6
        invariant
            f <= 6,
            m == plate_map.deep_view(),
            cls == grid3(classes),
            wf_map(m, n as int),
            wf3(cls, n as int),
            wf3(grid3(&marks), n as int),
            wf3(grid3(&dist), n as int),
            grid3(&marks) == mark_before(m, cls, n as int, f as int, 0, 0),
            forall|a: int, b: int, c: int| 0 <= a < 6 && 0 <= b < n && 0 <= c < n
                ==> #[trigger] grid3(&dist)[a][b][c] == if grid3(&marks)[a][b][c] is Some { Some(0usize) } else { None },
        decreases 6 - f,
    {
        let mut y: usize = 0;
        while y < n
            invariant
                f < 6,
                y <= n,
                m == plate_map.deep_view(),
                cls == grid3(classes),
                wf_map(m, n as int),
                wf3(cls, n as int),
                wf3(grid3(&marks), n as int),
                wf3(grid3(&dist), n as int),
                grid3(&marks) == mark_before(m, cls, n as int, f as int, y as int, 0),
                forall|a: int, b: int, c: int| 0 <= a < 6 && 0 <= b < n && 0 <= c < n
                    ==> #[trigger] grid3(&dist)[a][b][c] == if grid3(&marks)[a][b][c] is Some { Some(0usize) } else { None },
            decreases n - y,
        {
            let mut x: usize = 0;
            while x < n
                invariant
                    f < 6,
                    y < n,
                    x <= n,
                    m == plate_map.deep_view(),
                    cls == grid3(classes),
                    wf_map(m, n as int),
                    wf3(cls, n as int),
                    wf3(grid3(&marks), n as int),
                    wf3(grid3(&dist), n as int),
                    grid3(&marks) == mark_before(m, cls, n as int, f as int, y as int, x as int),
                    forall|a: int, b: int, c: int| 0 <= a < 6 && 0 <= b < n && 0 <= c < n
                        ==> #[trigger] grid3(&dist)[a][b][c] == if grid3(&marks)[a][b][c] is Some { Some(0usize) } else { None },
                decreases n - x,
            {
                let current = cell(plate_map, n, f, y, x);
                let ghost start = grid3(&marks);
                let mut d: usize = 0;
                while d < 4
                    invariant
                        f < 6,
                        y < n,
                        x < n,
                        d <= 4,
                        m == plate_map.deep_view(),
                        cls == grid3(classes),
                        wf_map(m, n as int),
                        wf3(cls, n as int),
                        current == m[f as int][y as int][x as int],
                        wf3(grid3(&marks), n as int),
                        wf3(grid3(&dist), n as int),
                        grid3(&marks) == mark_dirs(start, m, cls, n as int, f as int, y as int, x as int, d as int),
                        forall|a: int, b: int, c: int| 0 <= a < 6 && 0 <= b < n && 0 <= c < n
                            ==> #[trigger] grid3(&dist)[a][b][c] == if grid3(&marks)[a][b][c] is Some { Some(0usize) } else { None },
                    decreases 4 - d,
                {
                    let ghost before = grid3(&marks);
                    let ghost dbefore = grid3(&dist);
                    match edge_neighbor(n, x, y, d) {
                        Some((nx, ny)) => {
                            let neighbor = cell(plate_map, n, f, ny, nx);
                            if neighbor != current && get3(&marks, f, y, x).is_none() {
                                let c = edge_class(classes, f, y, x, d);
                                if c.is_some() {
                                    put3(&mut marks, f, y, x, c);
                                    proof { lemma_set3_wf(before, n as int, f as int, y as int, x as int, c); }
                                    put3(&mut marks, f, ny, nx, c);
                                    proof {
                                        lemma_set3_wf(set3(before, f as int, y as int, x as int, c), n as int, f as int, ny as int, nx as int, c);
                                    }
                                    put3(&mut dist, f, y, x, Some(0usize));
                                    proof { lemma_set3_wf(dbefore, n as int, f as int, y as int, x as int, Some(0usize)); }
                                    put3(&mut dist, f, ny, nx, Some(0usize));
                                    proof {
                                        lemma_set3_wf(set3(dbefore, f as int, y as int, x as int, Some(0usize)), n as int, f as int, ny as int, nx as int, Some(0usize));
                                    }
                                }
                            }
                        },
                        None => {},
                    }
                    d += 1;
                }
                x += 1;
            }
            y += 1;
        }
        f += 1;
    }
    (marks, dist)
}


/// The edge direction (right, down, left, up = 0..3) from `(y, x)` to
/// `(cy, cx)`, or 4 when they are not side neighbours.
pub open spec fn dir_to(y: int, x: int, cy: int, cx: int) -> int {
    if cy == y && cx == x + 1 { 0 } else if cy == y + 1 && cx == x { 1 } else if cy == y && cx == x - 1 { 2 } else if cy == y - 1 && cx == x { 3 } else { 4 }
}

/// Cell `(cf, cy, cx)` is one of the four side neighbours of `(f, y, x)`.
pub open spec fn side_neighbors(f: int, y: int, x: int, cf: int, cy: int, cx: int) -> bool {
    cf == f && ((cy == y && (cx == x + 1 || cx == x - 1)) || (cx == x && (cy == y + 1 || cy == y - 1)))
}

/// Some side neighbour of `(f, y, x)` lies exactly `lp` steps from the nearest
/// marked cell and is scanned before `(pf, py, px)`.
pub open spec fn parent_before(s: Marks, n: int, lp: int, f: int, y: int, x: int, pf: int, py: int, px: int) -> bool {
    ||| y > 0 && at_level(s, n, f, y - 1, x, lp) && crate::plate_map::scanned_before(f, y - 1, x, pf, py, px)
    ||| x > 0 && at_level(s, n, f, y, x - 1, lp) && crate::plate_map::scanned_before(f, y, x - 1, pf, py, px)
    ||| x + 1 < n && at_level(s, n, f, y, x + 1, lp) && crate::plate_map::scanned_before(f, y, x + 1, pf, py, px)
    ||| y + 1 < n && at_level(s, n, f, y + 1, x, lp) && crate::plate_map::scanned_before(f, y + 1, x, pf, py, px)
}

/// The state after spreading to distance `lp`: the distances and types of
/// every cell within `lp` steps of a mark, and nothing elsewhere.
pub open spec fn level_inv(
    s: Marks,
    n: int,
    lp: int,
    d: Seq<Seq<Seq<Option<usize>>>>,
    b: Marks,
) -> bool {
    &&& wf3(d, n)
    &&& wf3(b, n)
    &&& forall|f: int, y: int, x: int| 0 <= f < 6 && 0 <= y < n && 0 <= x < n ==> {
        &&& (#[trigger] d[f][y][x] is None <==> !within(s, n, f, y, x, lp))
        &&& (d[f][y][x] is Some ==> d[f][y][x]->0 <= lp && at_level(s, n, f, y, x, d[f][y][x]->0 as int))
        &&& b[f][y][x] == if d[f][y][x] is Some { spread_type(s, n, f, y, x, d[f][y][x]->0 as int) } else { None }
    }
}

/// The state while spreading from distance `lp` to `lp + 1`, once every cell
/// before `(pf, py, px)` has spread.
pub open spec fn pass_inv(
    s: Marks,
    n: int,
    lp: int,
    d: Seq<Seq<Seq<Option<usize>>>>,
    b: Marks,
    pf: int,
    py: int,
    px: int,
) -> bool {
    &&& wf3(d, n)
    &&& wf3(b, n)
    &&& forall|f: int, y: int, x: int| 0 <= f < 6 && 0 <= y < n && 0 <= x < n ==> if within(s, n, f, y, x, lp) {
        &&& #[trigger] d[f][y][x] is Some
        &&& d[f][y][x]->0 <= lp
        &&& at_level(s, n, f, y, x, d[f][y][x]->0 as int)
        &&& b[f][y][x] == spread_type(s, n, f, y, x, d[f][y][x]->0 as int)
    } else {
        &&& d[f][y][x] == if parent_before(s, n, lp, f, y, x, pf, py, px) { Some((lp + 1) as usize) } else { None }
        &&& b[f][y][x] == if parent_before(s, n, lp, f, y, x, pf, py, px) { spread_type(s, n, f, y, x, lp + 1) } else { None }
    }
}

proof fn lemma_at_level_unique(s: Marks, n: int, f: int, y: int, x: int, j: int, k: int)
    requires
        at_level(s, n, f, y, x, j),
        at_level(s, n, f, y, x, k),
    ensures
        j == k,
{
    if j < k {
        lemma_within_monotone_to(s, n, f, y, x, j, k - 1);
    } else if k < j {
        lemma_within_monotone_to(s, n, f, y, x, k, j - 1);
    }
}

proof fn lemma_step_in(s: Marks, n: int, f: int, y: int, x: int, lp: int)
    requires
        lp >= 0,
        !within(s, n, f, y, x, lp),
        0 <= y < n,
        0 <= x < n,
    ensures
        within(s, n, f, y, x, lp + 1) <==> (
            (y > 0 && at_level(s, n, f, y - 1, x, lp)) || (x > 0 && at_level(s, n, f, y, x - 1, lp))
                || (x + 1 < n && at_level(s, n, f, y, x + 1, lp)) || (y + 1 < n && at_level(s, n, f, y + 1, x, lp))),
{
    if within(s, n, f, y, x, lp + 1) {
        if y > 0 && within(s, n, f, y - 1, x, lp) {
            if within(s, n, f, y - 1, x, lp - 1) {
                assert(within(s, n, f, y, x, lp));
            }
        } else if x > 0 && within(s, n, f, y, x - 1, lp) {
            if within(s, n, f, y, x - 1, lp - 1) {
                assert(within(s, n, f, y, x, lp));
            }
        } else if x + 1 < n && within(s, n, f, y, x + 1, lp) {
            if within(s, n, f, y, x + 1, lp - 1) {
                assert(within(s, n, f, y, x, lp));
            }
        } else if y + 1 < n && within(s, n, f, y + 1, x, lp) {
            if within(s, n, f, y + 1, x, lp - 1) {
                assert(within(s, n, f, y, x, lp));
            }
        } else {
            assert(s[f][y][x] is Some);
            assert(within(s, n, f, y, x, lp));
        }
    }
}

proof fn lemma_spread_type_some(s: Marks, n: int, f: int, y: int, x: int, k: int)
    requires
        at_level(s, n, f, y, x, k),
        k >= 0,
        0 <= y < n,
        0 <= x < n,
    ensures
        spread_type(s, n, f, y, x, k) is Some,
    decreases k,
{
    if k > 0 {
        lemma_step_in(s, n, f, y, x, k - 1);
        if y > 0 && at_level(s, n, f, y - 1, x, k - 1) {
            lemma_spread_type_some(s, n, f, y - 1, x, k - 1);
        } else if x > 0 && at_level(s, n, f, y, x - 1, k - 1) {
            lemma_spread_type_some(s, n, f, y, x - 1, k - 1);
        } else if x + 1 < n && at_level(s, n, f, y, x + 1, k - 1) {
            lemma_spread_type_some(s, n, f, y, x + 1, k - 1);
        } else {
            lemma_spread_type_some(s, n, f, y + 1, x, k - 1);
        }
    } else {
        assert(within(s, n, f, y, x, 0));
    }
}

/// The effect of one cell spreading: if cell `(pf, py, px)` sits at distance
/// `lp`, each side neighbour without a distance gets distance `lp + 1` and the
/// cell's type.
pub open spec fn spread_effect_d(
    d: Seq<Seq<Seq<Option<usize>>>>,
    lp: int,
    pf: int, py: int, px: int,
    f: int, y: int, x: int,
) -> Option<usize> {
    if d[pf][py][px] == Some(lp as usize) && side_neighbors(pf, py, px, f, y, x) && d[f][y][x] is None {
        Some((lp + 1) as usize)
    } else {
        d[f][y][x]
    }
}

pub open spec fn spread_effect_b(
    d: Seq<Seq<Seq<Option<usize>>>>,
    b: Marks,
    lp: int,
    pf: int, py: int, px: int,
    f: int, y: int, x: int,
) -> Option<BoundaryType> {
    if d[pf][py][px] == Some(lp as usize) && side_neighbors(pf, py, px, f, y, x) && d[f][y][x] is None
        && b[pf][py][px] is Some && b[f][y][x] is None {
        b[pf][py][px]
    } else {
        b[f][y][x]
    }
}

proof fn lemma_pass_step(
    s: Marks,
    n: int,
    lp: int,
    d: Seq<Seq<Seq<Option<usize>>>>,
    b: Marks,
    d2: Seq<Seq<Seq<Option<usize>>>>,
    b2: Marks,
    pf: int, py: int, px: int,
)
    requires
        lp >= 0,
        lp + 1 <= usize::MAX,
        0 <= pf < 6,
        0 <= py < n,
        0 <= px < n,
        pass_inv(s, n, lp, d, b, pf, py, px),
        wf3(d2, n),
        wf3(b2, n),
        forall|f: int, y: int, x: int| 0 <= f < 6 && 0 <= y < n && 0 <= x < n ==> #[trigger] d2[f][y][x]
            == spread_effect_d(d, lp, pf, py, px, f, y, x),
        forall|f: int, y: int, x: int| 0 <= f < 6 && 0 <= y < n && 0 <= x < n ==> #[trigger] b2[f][y][x]
            == spread_effect_b(d, b, lp, pf, py, px, f, y, x),
    ensures
        pass_inv(s, n, lp, d2, b2, pf, py, px + 1),
{
    let par = d[pf][py][px] == Some(lp as usize);
    assert(par <==> at_level(s, n, pf, py, px, lp)) by {
        if within(s, n, pf, py, px, lp) {
            if at_level(s, n, pf, py, px, lp) {
                lemma_at_level_unique(s, n, pf, py, px, lp, d[pf][py][px]->0 as int);
            }
        } else {
            assert(!at_level(s, n, pf, py, px, lp));
        }
    }
    if par {
        lemma_spread_type_some(s, n, pf, py, px, lp);
        assert(b[pf][py][px] is Some);
    }
    assert forall|f: int, y: int, x: int| 0 <= f < 6 && 0 <= y < n && 0 <= x < n implies if within(s, n, f, y, x, lp) {
        &&& #[trigger] d2[f][y][x] is Some
        &&& d2[f][y][x]->0 <= lp
        &&& at_level(s, n, f, y, x, d2[f][y][x]->0 as int)
        &&& b2[f][y][x] == spread_type(s, n, f, y, x, d2[f][y][x]->0 as int)
    } else {
        &&& d2[f][y][x] == if parent_before(s, n, lp, f, y, x, pf, py, px + 1) { Some((lp + 1) as usize) } else { None }
        &&& b2[f][y][x] == if parent_before(s, n, lp, f, y, x, pf, py, px + 1) { spread_type(s, n, f, y, x, lp + 1) } else { None }
    } by {
        if !within(s, n, f, y, x, lp) {
            let hp = parent_before(s, n, lp, f, y, x, pf, py, px);
            let adj = side_neighbors(pf, py, px, f, y, x);
            if par && adj && !hp {
                // this cell is the first parent, in up-left-right-down order
                assert(spread_type(s, n, f, y, x, lp + 1) == spread_type(s, n, pf, py, px, lp));
            }
        }
    }
}

proof fn lemma_pass_same(
    s: Marks,
    n: int,
    lp: int,
    d: Seq<Seq<Seq<Option<usize>>>>,
    b: Marks,
    pf: int, py: int, px: int,
    qf: int, qy: int, qx: int,
)
    requires
        pass_inv(s, n, lp, d, b, pf, py, px),
        forall|f1: int, y1: int, x1: int| 0 <= f1 < 6 && 0 <= y1 < n && 0 <= x1 < n ==> (
            crate::plate_map::scanned_before(f1, y1, x1, pf, py, px) <==> crate::plate_map::scanned_before(f1, y1, x1, qf, qy, qx)),
    ensures
        pass_inv(s, n, lp, d, b, qf, qy, qx),
{
    assert forall|f: int, y: int, x: int| 0 <= f < 6 && 0 <= y < n && 0 <= x < n implies
        parent_before(s, n, lp, f, y, x, pf, py, px) == parent_before(s, n, lp, f, y, x, qf, qy, qx) by {
        if y > 0 {
            assert(crate::plate_map::scanned_before(f, y - 1, x, pf, py, px) == crate::plate_map::scanned_before(f, y - 1, x, qf, qy, qx));
        }
        if x > 0 {
            assert(crate::plate_map::scanned_before(f, y, x - 1, pf, py, px) == crate::plate_map::scanned_before(f, y, x - 1, qf, qy, qx));
        }
        if x + 1 < n {
            assert(crate::plate_map::scanned_before(f, y, x + 1, pf, py, px) == crate::plate_map::scanned_before(f, y, x + 1, qf, qy, qx));
        }
        if y + 1 < n {
            assert(crate::plate_map::scanned_before(f, y + 1, x, pf, py, px) == crate::plate_map::scanned_before(f, y + 1, x, qf, qy, qx));
        }
    }
}

proof fn lemma_level_to_pass(s: Marks, n: int, lp: int, d: Seq<Seq<Seq<Option<usize>>>>, b: Marks)
    requires
        level_inv(s, n, lp, d, b),
    ensures
        pass_inv(s, n, lp, d, b, 0, 0, 0),
{
    assert forall|f: int, y: int, x: int| 0 <= f < 6 && 0 <= y < n && 0 <= x < n && !within(s, n, f, y, x, lp)
        implies !parent_before(s, n, lp, f, y, x, 0, 0, 0) by {}
}

proof fn lemma_pass_to_level(s: Marks, n: int, lp: int, d: Seq<Seq<Seq<Option<usize>>>>, b: Marks)
    requires
        lp >= 0,
        lp + 1 <= usize::MAX,
        pass_inv(s, n, lp, d, b, 6, 0, 0),
    ensures
        level_inv(s, n, lp + 1, d, b),
{
    assert forall|f: int, y: int, x: int| 0 <= f < 6 && 0 <= y < n && 0 <= x < n implies {
        &&& (#[trigger] d[f][y][x] is None <==> !within(s, n, f, y, x, lp + 1))
        &&& (d[f][y][x] is Some ==> d[f][y][x]->0 <= lp + 1 && at_level(s, n, f, y, x, d[f][y][x]->0 as int))
        &&& b[f][y][x] == if d[f][y][x] is Some { spread_type(s, n, f, y, x, d[f][y][x]->0 as int) } else { None }
    } by {
        if within(s, n, f, y, x, lp) {
            lemma_within_monotone(s, n, f, y, x, lp);
        } else {
            lemma_step_in(s, n, f, y, x, lp);
            assert(crate::plate_map::scanned_before(f, y - 1, x, 6, 0, 0));
            assert(crate::plate_map::scanned_before(f, y + 1, x, 6, 0, 0));
            assert(crate::plate_map::scanned_before(f, y, x - 1, 6, 0, 0));
            assert(crate::plate_map::scanned_before(f, y, x + 1, 6, 0, 0));
            assert(((lp + 1) as usize) as int == lp + 1);
        }
    }
}

/// Spreads from cell `(f, y, x)` if it sits at distance `level - 1`.
fn spread_from(
    dist: &mut Vec<Vec<Vec<Option<usize>>>>,
    marks: &mut Vec<Vec<Vec<Option<BoundaryType>>>>,
    n: usize,
    level: usize,
    f: usize,
    y: usize,
    x: usize,
)
    requires
        level >= 1,
        f < 6,
        y < n,
        x < n,
        wf3(grid3(old(dist)), n as int),
        wf3(grid3(old(marks)), n as int),
    ensures
        wf3(grid3(final(dist)), n as int),
        wf3(grid3(final(marks)), n as int),
        forall|a: int, b: int, c: int| 0 <= a < 6 && 0 <= b < n && 0 <= c < n ==> #[trigger] grid3(final(dist))[a][b][c]
            == spread_effect_d(grid3(old(dist)), level - 1, f as int, y as int, x as int, a, b, c),
        forall|a: int, b: int, c: int| 0 <= a < 6 && 0 <= b < n && 0 <= c < n ==> #[trigger] grid3(final(marks))[a][b][c]
            == spread_effect_b(grid3(old(dist)), grid3(old(marks)), level - 1, f as int, y as int, x as int, a, b, c),
{
    let ghost d0 = grid3(dist);
    let ghost b0 = grid3(marks);
    let is_parent = match get3(dist, f, y, x) {
        Some(v) => v == level - 1,
        None => false,
    };
    if !is_parent {
        return;
    }
    let own = get3(marks, f, y, x);
    let mut k: usize = 0;
    while k < 4
        invariant
            k <= 4,
            f < 6,
            y < n,
            x < n,
            level >= 1,
            d0[f as int][y as int][x as int] == Some((level - 1) as usize),
            own == b0[f as int][y as int][x as int],
            wf3(d0, n as int),
            wf3(b0, n as int),
            wf3(grid3(dist), n as int),
            wf3(grid3(marks), n as int),
            forall|a: int, b: int, c: int| 0 <= a < 6 && 0 <= b < n && 0 <= c < n ==> #[trigger] grid3(dist)[a][b][c]
                == if side_neighbors(f as int, y as int, x as int, a, b, c) && d0[a][b][c] is None
                    && dir_to(y as int, x as int, b, c) < k {
                    Some(level)
                } else {
                    d0[a][b][c]
                },
            forall|a: int, b: int, c: int| 0 <= a < 6 && 0 <= b < n && 0 <= c < n ==> #[trigger] grid3(marks)[a][b][c]
                == if side_neighbors(f as int, y as int, x as int, a, b, c) && d0[a][b][c] is None
                    && own is Some && b0[a][b][c] is None
                    && dir_to(y as int, x as int, b, c) < k {
                    own
                } else {
                    b0[a][b][c]
                },
        decreases 4 - k,
    {
        let ghost dk = grid3(dist);
        let ghost bk = grid3(marks);
        match edge_neighbor(n, x, y, k) {
            Some((nx, ny)) => {
                if get3(dist, f, ny, nx).is_none() {
                    put3(dist, f, ny, nx, Some(level));
                    proof { lemma_set3_wf(dk, n as int, f as int, ny as int, nx as int, Some(level)); }
                    if own.is_some() && get3(marks, f, ny, nx).is_none() {
                        put3(marks, f, ny, nx, own);
                        proof { lemma_set3_wf(bk, n as int, f as int, ny as int, nx as int, own); }
                    }
                }
            },
            None => {},
        }
        k += 1;
    }
}

impl BoundaryData {
    /// Marks plate boundaries and spreads them into a band.
    ///
    /// Cells are scanned face by face, row by row; at each cell the edges
    /// right, down, left, up are tried in turn, and while the cell is still
    /// unmarked, an edge to another plate with a classification marks both
    /// cells with it (distance 0). Then, for distances 1 up to the band width
    /// (`max(3, n / 20)`), every cell at the previous distance passes the
    /// next distance to its side neighbours that have none yet, along with
    /// its type. So each cell's distance is its number of steps on its face
    /// to the nearest marked cell, when at most the width, and its type is
    /// that of its first neighbour one step nearer (up, left, right, down).
    pub fn calculate(face_grid_size: usize, plate_map: &PlateMap, edge_classes: &EdgeClasses) -> (data: Self)
        requires
            wf_map(plate_map.deep_view(), face_grid_size as int),
            wf3(grid3(edge_classes), face_grid_size as int),
        ensures
            wf3(grid3(&data.boundaries), face_grid_size as int),
            wf3(grid3(&data.boundary_distances), face_grid_size as int),
            forall|f: int, y: int, x: int| 0 <= f < 6 && 0 <= y < face_grid_size && 0 <= x < face_grid_size ==> {
                let s = boundary_seeds(plate_map.deep_view(), grid3(edge_classes), face_grid_size as int);
                let d = #[trigger] grid3(&data.boundary_distances)[f][y][x];
                let w = boundary_width_spec(face_grid_size as int);
                &&& (d is None <==> !within(s, face_grid_size as int, f, y, x, w))
                &&& (d is Some ==> d->0 <= w && at_level(s, face_grid_size as int, f, y, x, d->0 as int))
                &&& grid3(&data.boundaries)[f][y][x] == if d is Some {
                    spread_type(s, face_grid_size as int, f, y, x, d->0 as int)
                } else {
                    None
                }
            },
    {
        let n = face_grid_size;
        let (mut marks, mut dist) = mark_boundaries(n, plate_map, edge_classes);
        let ghost s = grid3(&marks);
        proof {
            assert forall|f: int, y: int, x: int| 0 <= f < 6 && 0 <= y < n && 0 <= x < n implies {
                &&& (#[trigger] grid3(&dist)[f][y][x] is None <==> !within(s, n as int, f, y, x, 0))
                &&& (grid3(&dist)[f][y][x] is Some ==> grid3(&dist)[f][y][x]->0 <= 0 && at_level(s, n as int, f, y, x, grid3(&dist)[f][y][x]->0 as int))
                &&& grid3(&marks)[f][y][x] == if grid3(&dist)[f][y][x] is Some { spread_type(s, n as int, f, y, x, grid3(&dist)[f][y][x]->0 as int) } else { None }
            } by {
                assert(!within(s, n as int, f, y, x, -1));
            }
        }
        let w = boundary_width(n);
        let mut level: usize = 1;
        while level <= w
            invariant
                1 <= level <= w + 1,
                w == boundary_width_spec(n as int),
                level_inv(s, n as int, level - 1, grid3(&dist), grid3(&marks)),
            decreases w + 1 - level,
        {
            proof {
                lemma_level_to_pass(s, n as int, level - 1, grid3(&dist), grid3(&marks));
            }
            let mut f: usize = 0;
            while f < 6
                invariant
                    1 <= level <= w,
                    f <= 6,
                    pass_inv(s, n as int, level - 1, grid3(&dist), grid3(&marks), f as int, 0, 0),
                decreases 6 - f,
            {
                let mut y: usize = 0;
                while y < n
                    invariant
                        1 <= level <= w,
                        f < 6,
                        y <= n,
                        pass_inv(s, n as int, level - 1, grid3(&dist), grid3(&marks), f as int, y as int, 0),
                    decreases n - y,
                {
                    let mut x: usize = 0;
                    while x < n
                        invariant
                            1 <= level <= w,
                            f < 6,
                            y < n,
                            x <= n,
                            pass_inv(s, n as int, level - 1, grid3(&dist), grid3(&marks), f as int, y as int, x as int),
                        decreases n - x,
                    {
                        let ghost d0 = grid3(&dist);
                        let ghost b0 = grid3(&marks);
                        spread_from(&mut dist, &mut marks, n, level, f, y, x);
                        proof {
                            lemma_pass_step(s, n as int, level - 1, d0, b0, grid3(&dist), grid3(&marks), f as int, y as int, x as int);
                        }
                        x += 1;
                    }
                    proof {
                        lemma_pass_same(s, n as int, level - 1, grid3(&dist), grid3(&marks), f as int, y as int, n as int, f as int, y + 1, 0);
                    }
                    y += 1;
                }
                proof {
                    lemma_pass_same(s, n as int, level - 1, grid3(&dist), grid3(&marks), f as int, n as int, 0, f + 1, 0, 0);
                }
                f += 1;
            }
            proof {
                lemma_pass_to_level(s, n as int, level - 1, grid3(&dist), grid3(&marks));
            }
            level += 1;
        }
        BoundaryData { boundaries: marks, boundary_distances: dist }
    }

    /// The boundary type of cell `(x, y)` of a face.
    pub fn get_boundary(&self, face: usize, x: usize, y: usize) -> (b: Option<BoundaryType>)
        requires
            face < grid3(&self.boundaries).len(),
            y < grid3(&self.boundaries)[face as int].len(),
            x < grid3(&self.boundaries)[face as int][y as int].len(),
        ensures
            b == grid3(&self.boundaries)[face as int][y as int][x as int],
    {
        get3(&self.boundaries, face, y, x)
    }
}


/// The neighbour across edge `d` of cell `(f, y, x)` lies on the face and
/// holds another plate.
pub open spec fn differs_across(m: Seq<Seq<Seq<usize>>>, n: int, f: int, y: int, x: int, d: int) -> bool {
    let nx = x + edge_dx(d);
    let ny = y + edge_dy(d);
    0 <= nx < n && 0 <= ny < n && m[f][ny][nx] != m[f][y][x]
}

/// Cell `(f, y, x)` has a side neighbour on its face holding another plate.
pub open spec fn on_plate_boundary(m: Seq<Seq<Seq<usize>>>, n: int, f: int, y: int, x: int) -> bool {
    differs_across(m, n, f, y, x, 0) || differs_across(m, n, f, y, x, 1) || differs_across(m, n, f, y, x, 2)
        || differs_across(m, n, f, y, x, 3)
}

/// Every edge between two plates is classified.
pub open spec fn classes_complete(m: Seq<Seq<Seq<usize>>>, cls: Seq<Seq<Seq<[Option<BoundaryType>; 4]>>>, n: int) -> bool {
    forall|f: int, y: int, x: int, d: int| 0 <= f < 6 && 0 <= y < n && 0 <= x < n && 0 <= d < 4
        && #[trigger] differs_across(m, n, f, y, x, d) ==> (#[trigger] cls[f][y][x])@[d] is Some
}

/// Only cells on a plate boundary are marked.
pub open spec fn marks_on_boundaries(t: Marks, m: Seq<Seq<Seq<usize>>>, n: int) -> bool {
    forall|f: int, y: int, x: int| 0 <= f < 6 && 0 <= y < n && 0 <= x < n && (#[trigger] t[f][y][x]) is Some
        ==> on_plate_boundary(m, n, f, y, x)
}

proof fn lemma_mark_dirs_props(
    t: Marks,
    m: Seq<Seq<Seq<usize>>>,
    cls: Seq<Seq<Seq<[Option<BoundaryType>; 4]>>>,
    n: int,
    f: int,
    y: int,
    x: int,
    d: int,
)
    requires
        wf_map(m, n),
        wf3(cls, n),
        wf3(t, n),
        0 <= f < 6,
        0 <= y < n,
        0 <= x < n,
        0 <= d <= 4,
        marks_on_boundaries(t, m, n),
    ensures
        wf3(mark_dirs(t, m, cls, n, f, y, x, d), n),
        marks_on_boundaries(mark_dirs(t, m, cls, n, f, y, x, d), m, n),
        forall|a: int, b: int, c: int| 0 <= a < 6 && 0 <= b < n && 0 <= c < n && t[a][b][c] is Some
            ==> (#[trigger] mark_dirs(t, m, cls, n, f, y, x, d)[a][b][c]) is Some,
        classes_complete(m, cls, n) && ((d > 0 && differs_across(m, n, f, y, x, 0)) || (d > 1 && differs_across(m, n, f, y, x, 1))
            || (d > 2 && differs_across(m, n, f, y, x, 2)) || (d > 3 && differs_across(m, n, f, y, x, 3)))
            ==> mark_dirs(t, m, cls, n, f, y, x, d)[f][y][x] is Some,
    decreases d,
{
    if d > 0 {
        lemma_mark_dirs_props(t, m, cls, n, f, y, x, d - 1);
        let p = mark_dirs(t, m, cls, n, f, y, x, d - 1);
        let e = d - 1;
        let nx = x + edge_dx(e);
        let ny = y + edge_dy(e);
        if 0 <= nx < n && 0 <= ny < n && m[f][ny][nx] != m[f][y][x] && p[f][y][x] is None && cls[f][y][x]@[e] is Some {
            let v = cls[f][y][x]@[e];
            lemma_set3_wf(p, n, f, y, x, v);
            lemma_set3_wf(set3(p, f, y, x, v), n, f, ny, nx, v);
            let r = mark_dirs(t, m, cls, n, f, y, x, d);
            assert(differs_across(m, n, f, y, x, e));
            assert(on_plate_boundary(m, n, f, y, x));
            let back = if e == 0 { 2int } else if e == 1 { 3int } else if e == 2 { 0int } else { 1int };
            assert(differs_across(m, n, f, ny, nx, back));
            assert(on_plate_boundary(m, n, f, ny, nx));
            assert(marks_on_boundaries(r, m, n));
        }
        if classes_complete(m, cls, n) && differs_across(m, n, f, y, x, e) {
            assert(cls[f][y][x]@[e] is Some);
        }
    }
}

proof fn lemma_mark_before_props(
    m: Seq<Seq<Seq<usize>>>,
    cls: Seq<Seq<Seq<[Option<BoundaryType>; 4]>>>,
    n: int,
    f: int,
    y: int,
    x: int,
)
    requires
        wf_map(m, n),
        wf3(cls, n),
        n >= 0,
        (0 <= f < 6 && 0 <= y < n && 0 <= x <= n) || (0 <= f <= 6 && y == 0 && x == 0) || (0 <= f < 6 && y == n && x == 0),
    ensures
        wf3(mark_before(m, cls, n, f, y, x), n),
        marks_on_boundaries(mark_before(m, cls, n, f, y, x), m, n),
        classes_complete(m, cls, n) ==> forall|a: int, b: int, c: int|
            0 <= a < 6 && 0 <= b < n && 0 <= c < n && crate::plate_map::scanned_before(a, b, c, f, y, x)
                && on_plate_boundary(m, n, a, b, c) ==> (#[trigger] mark_before(m, cls, n, f, y, x)[a][b][c]) is Some,
    decreases f, y, x,
{
    let t = mark_before(m, cls, n, f, y, x);
    if x > 0 {
        lemma_mark_before_props(m, cls, n, f, y, x - 1);
        let p = mark_before(m, cls, n, f, y, x - 1);
        lemma_mark_dirs_props(p, m, cls, n, f, y, x - 1, 4);
    } else if y > 0 {
        lemma_mark_before_props(m, cls, n, f, y - 1, n);
    } else if f > 0 {
        lemma_mark_before_props(m, cls, n, f - 1, n, 0);
        if classes_complete(m, cls, n) {
            assert forall|a: int, b: int, c: int|
                0 <= a < 6 && 0 <= b < n && 0 <= c < n && crate::plate_map::scanned_before(a, b, c, f, y, x)
                    && on_plate_boundary(m, n, a, b, c) implies (#[trigger] t[a][b][c]) is Some by {
                assert(crate::plate_map::scanned_before(a, b, c, f - 1, n, 0));
            }
        }
    } else {
        assert(wf3(filled3(n, None::<BoundaryType>), n));
    }
}

/// Only cells on a plate boundary are marked; and when every edge between
/// two plates is classified, every cell on a plate boundary is marked.
pub proof fn lemma_seeds_are_boundary_cells(
    m: Seq<Seq<Seq<usize>>>,
    cls: Seq<Seq<Seq<[Option<BoundaryType>; 4]>>>,
    n: int,
    f: int,
    y: int,
    x: int,
)
    requires
        wf_map(m, n),
        wf3(cls, n),
        0 <= f < 6,
        0 <= y < n,
        0 <= x < n,
    ensures
        boundary_seeds(m, cls, n)[f][y][x] is Some ==> on_plate_boundary(m, n, f, y, x),
        classes_complete(m, cls, n) && on_plate_boundary(m, n, f, y, x) ==> boundary_seeds(m, cls, n)[f][y][x] is Some,
{
    lemma_mark_before_props(m, cls, n, 6, 0, 0);
    assert(crate::plate_map::scanned_before(f, y, x, 6, 0, 0));
}

/// A cell `k > 0` steps from the nearest marked cell has a side neighbour
/// `k - 1` steps from it.
pub proof fn lemma_band_steps_down(s: Marks, n: int, f: int, y: int, x: int, k: int)
    requires
        k > 0,
        at_level(s, n, f, y, x, k),
        0 <= y < n,
        0 <= x < n,
    ensures
        (y > 0 && at_level(s, n, f, y - 1, x, k - 1)) || (x > 0 && at_level(s, n, f, y, x - 1, k - 1))
            || (x + 1 < n && at_level(s, n, f, y, x + 1, k - 1)) || (y + 1 < n && at_level(s, n, f, y + 1, x, k - 1)),
{
    lemma_step_in(s, n, f, y, x, k - 1);
}

} // verus!



