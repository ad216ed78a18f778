use std::collections::HashMap;
use vstd::prelude::*;

use crate::grid::{filled3, get3, grid3, new_grid3, put3, set3, wf3};
use crate::plate_map::{in_grid, scanned_before};

verus! {

broadcast use vstd::std_specs::hash::group_hash_axioms;

/// What the planet mesh is coloured by.
#[derive(Clone, Copy, Debug, PartialEq, Eq, Structural)]
pub enum ViewMode {
    Plates,
    Continents,
}

/// A vertex position quantised to integers on each axis.
pub type QuantKey = (i32, i32, i32);

/// The integer that `vertex_key` packs a quantised position into: each
/// coordinate shifted by 2^31 into 32 bits, the three side by side.
pub open spec fn vertex_key_spec(k: QuantKey) -> int {
    (k.0 + 0x8000_0000) * 0x1_0000_0000_0000_0000 + (k.1 + 0x8000_0000) * 0x1_0000_0000 + (k.2 + 0x8000_0000)
}

/// Packs a quantised position into one integer (one-to-one).
pub fn vertex_key(k: QuantKey) -> (r: u128)
    ensures
        r as int == vertex_key_spec(k),
{
    let a = (k.0 as i64 + 0x8000_0000i64) as u128;
    let b = (k.1 as i64 + 0x8000_0000i64) as u128;
    let c = (k.2 as i64 + 0x8000_0000i64) as u128;
    a * 0x1_0000_0000_0000_0000u128 + b * 0x1_0000_0000u128 + c
}

/// Distinct quantised positions get distinct keys.
pub proof fn lemma_vertex_key_injective(k1: QuantKey, k2: QuantKey)
    requires
        vertex_key_spec(k1) == vertex_key_spec(k2),
    ensures
        k1 == k2,
{
    let a1 = k1.0 + 0x8000_0000;
    let b1 = k1.1 + 0x8000_0000;
    let c1 = k1.2 + 0x8000_0000;
    let a2 = k2.0 + 0x8000_0000;
    let b2 = k2.1 + 0x8000_0000;
    let c2 = k2.2 + 0x8000_0000;
    assert(a1 == a2 && b1 == b2 && c1 == c2) by (nonlinear_arith)
        requires
            0 <= a1 < 0x1_0000_0000,
            0 <= b1 < 0x1_0000_0000,
            0 <= c1 < 0x1_0000_0000,
            0 <= a2 < 0x1_0000_0000,
            0 <= b2 < 0x1_0000_0000,
            0 <= c2 < 0x1_0000_0000,
            a1 * 0x1_0000_0000_0000_0000 + b1 * 0x1_0000_0000 + c1 == a2 * 0x1_0000_0000_0000_0000 + b2 * 0x1_0000_0000 + c2,
    ;
}


/// The cell `(f, y, x)` as a triple.
pub type CellPos = (usize, usize, usize);

/// The vertex numbering of `assign_vertex_indices`: cells with equal keys
/// share a vertex; vertices are numbered in the order their first cell is
/// scanned (face, row, column); `firsts[i]` is the first cell of vertex `i`.
pub open spec fn vertex_numbering(
    keys: Seq<Seq<Seq<QuantKey>>>,
    n: int,
    vi: Seq<Seq<Seq<u32>>>,
    firsts: Seq<CellPos>,
) -> bool {
    &&& forall|i: int| 0 <= i < firsts.len() ==> in_grid(n, (#[trigger] firsts[i]).0 as int, firsts[i].1 as int, firsts[i].2 as int)
    &&& forall|f: int, y: int, x: int| #![trigger vi[f][y][x]] in_grid(n, f, y, x) ==> {
        &&& vi[f][y][x] < firsts.len()
        &&& keys[firsts[vi[f][y][x] as int].0 as int][firsts[vi[f][y][x] as int].1 as int][firsts[vi[f][y][x] as int].2 as int]
            == keys[f][y][x]
    }
    &&& forall|i: int| 0 <= i < firsts.len() ==> vi[(#[trigger] firsts[i]).0 as int][firsts[i].1 as int][firsts[i].2 as int] == i
    &&& forall|i: int, j: int| 0 <= i < j < firsts.len() ==> scanned_before(
        (#[trigger] firsts[i]).0 as int, firsts[i].1 as int, firsts[i].2 as int,
        (#[trigger] firsts[j]).0 as int, firsts[j].1 as int, firsts[j].2 as int)
    &&& forall|i: int, f: int, y: int, x: int| 0 <= i < firsts.len() && in_grid(n, f, y, x) && scanned_before(
        f, y, x, (#[trigger] firsts[i]).0 as int, firsts[i].1 as int, firsts[i].2 as int)
        ==> #[trigger] keys[f][y][x] != keys[firsts[i].0 as int][firsts[i].1 as int][firsts[i].2 as int]
}

/// The numbering invariant while cells before `(pf, py, px)` are numbered.
pub open spec fn numbering_upto(
    keys: Seq<Seq<Seq<QuantKey>>>,
    n: int,
    vi: Seq<Seq<Seq<u32>>>,
    firsts: Seq<CellPos>,
    seen: Map<u128, u32>,
    pf: int,
    py: int,
    px: int,
) -> bool {
    &&& forall|i: int| 0 <= i < firsts.len() ==> in_grid(n, (#[trigger] firsts[i]).0 as int, firsts[i].1 as int, firsts[i].2 as int)
        && scanned_before(firsts[i].0 as int, firsts[i].1 as int, firsts[i].2 as int, pf, py, px)
    &&& forall|f: int, y: int, x: int| #![trigger vi[f][y][x]] in_grid(n, f, y, x) && scanned_before(f, y, x, pf, py, px) ==> {
        &&& vi[f][y][x] < firsts.len()
        &&& keys[firsts[vi[f][y][x] as int].0 as int][firsts[vi[f][y][x] as int].1 as int][firsts[vi[f][y][x] as int].2 as int]
            == keys[f][y][x]
        &&& seen.contains_key(vertex_key_spec(keys[f][y][x]) as u128)
    }
    &&& forall|i: int| 0 <= i < firsts.len() ==> vi[(#[trigger] firsts[i]).0 as int][firsts[i].1 as int][firsts[i].2 as int] == i
    &&& forall|i: int, j: int| 0 <= i < j < firsts.len() ==> scanned_before(
        (#[trigger] firsts[i]).0 as int, firsts[i].1 as int, firsts[i].2 as int,
        (#[trigger] firsts[j]).0 as int, firsts[j].1 as int, firsts[j].2 as int)
    &&& forall|i: int, f: int, y: int, x: int| 0 <= i < firsts.len() && in_grid(n, f, y, x) && scanned_before(
        f, y, x, (#[trigger] firsts[i]).0 as int, firsts[i].1 as int, firsts[i].2 as int)
        ==> #[trigger] keys[f][y][x] != keys[firsts[i].0 as int][firsts[i].1 as int][firsts[i].2 as int]
    &&& forall|k: u128| #[trigger] seen.contains_key(k) ==> seen[k] < firsts.len()
        && vertex_key_spec(keys[firsts[seen[k] as int].0 as int][firsts[seen[k] as int].1 as int][firsts[seen[k] as int].2 as int]) == k
}

/// Numbers the vertices of the cube-sphere mesh: cells whose quantised
/// positions coincide (along shared cube edges) share one vertex, and
/// vertices are numbered by first occurrence in face-row-column order.
/// Returns the vertex of every cell and the first cell `(face, y, x)` of
/// every vertex.
pub fn assign_vertex_indices(keys: &Vec<Vec<Vec<QuantKey>>>, face_grid_size: usize) -> (r: (Vec<Vec<Vec<u32>>>, Vec<CellPos>))
    requires
        wf3(grid3(keys), face_grid_size as int),
        6 * face_grid_size * face_grid_size <= u32::MAX,
    ensures
        wf3(grid3(&r.0), face_grid_size as int),
        vertex_numbering(grid3(keys), face_grid_size as int, grid3(&r.0), r.1@),
{
    let n = face_grid_size;
    let ghost kg = grid3(keys);
    proof {
        assert(n * n <= 6 * n * n) by (nonlinear_arith);
        assert(6 * n * n == 6 * (n * n)) by (nonlinear_arith);
    }
    let nn = n * n;
    let mut vi: Vec<Vec<Vec<u32>>> = new_grid3(n, 0u32);
    let mut firsts: Vec<CellPos> = Vec::new();
    let mut seen: HashMap<u128, u32> = HashMap::new();
    let mut scanned: usize = 0;
    let mut f: usize = 0;
    while f < 6
        invariant
            f <= 6,
            kg == grid3(keys),
            wf3(kg, n as int),
            wf3(grid3(&vi), n as int),
            nn == n * n,
            6 * nn <= u32::MAX,
            scanned == f * nn,
            firsts@.len() <= scanned,
            numbering_upto(kg, n as int, grid3(&vi), firsts@, seen@, f as int, 0, 0),
        decreases 6 - f,
    {
        let mut y: usize = 0;
        while y < n
            invariant
                f < 6,
                y <= n,
                kg == grid3(keys),
                wf3(kg, n as int),
                wf3(grid3(&vi), n as int),
                nn == n * n,
                6 * nn <= u32::MAX,
                scanned == f * nn + y * n,
                firsts@.len() <= scanned,
                numbering_upto(kg, n as int, grid3(&vi), firsts@, seen@, f as int, y as int, 0),
            decreases n - y,
        {
            let mut x: usize = 0;
            while x < n
                invariant
                    f < 6,
                    y < n,
                    x <= n,
                    kg == grid3(keys),
                    wf3(kg, n as int),
                    wf3(grid3(&vi), n as int),
                    nn == n * n,
                    6 * nn <= u32::MAX,
                    scanned == f * nn + y * n + x,
                    firsts@.len() <= scanned,
                    numbering_upto(kg, n as int, grid3(&vi), firsts@, seen@, f as int, y as int, x as int),
                decreases n - x,
            {
                proof {
                    assert(f * nn + y * n + x < 6 * nn) by (nonlinear_arith)
                        requires
                            f < 6,
                            y < n,
                            x < n,
                            nn == n * n,
                    ;
                }
                let ghost vg = grid3(&vi);
                let ghost fs = firsts@;
                let ghost sm = seen@;
                let qk = get3(keys, f, y, x);
                let key = vertex_key(qk);
                match seen.get(&key) {
                    Some(i) => {
                        let i = *i;
                        put3(&mut vi, f, y, x, i);
                        proof {
                            let fi = fs[i as int];
                            lemma_vertex_key_injective(kg[fi.0 as int][fi.1 as int][fi.2 as int], qk);
                        }
                    },
                    None => {
                        let i = firsts.len() as u32;
                        put3(&mut vi, f, y, x, i);
                        firsts.push((f, y, x));
                        seen.insert(key, i);
                        proof {
                            assert forall|c: int, b: int, a: int| in_grid(n as int, c, b, a) && scanned_before(c, b, a, f as int, y as int, x as int)
                                implies kg[c][b][a] != qk by {
                                if kg[c][b][a] == qk {
                                    assert(vg[c][b][a] < fs.len());
                                    assert(sm.contains_key(vertex_key_spec(kg[c][b][a]) as u128));
                                    assert(key == vertex_key_spec(qk) as u128);
                                }
                            }
                        }
                    },
                }
                proof {
                    let vg2 = grid3(&vi);
                    assert(wf3(vg2, n as int));
                }
                scanned = scanned + 1;
                x += 1;
            }
            proof {
                assert(scanned == f * nn + (y + 1) * n) by (nonlinear_arith)
                    requires scanned == f * nn + y * n + n;
            }
            y += 1;
        }
        proof {
            assert(scanned == (f + 1) * nn) by (nonlinear_arith)
                requires scanned == f * nn + n * n, nn == n * n;
        }
        f += 1;
    }
    (vi, firsts)
}


/// Two cells share a vertex exactly when their quantised positions coincide.
pub proof fn lemma_shared_vertex_iff_same_key(
    keys: Seq<Seq<Seq<QuantKey>>>,
    n: int,
    vi: Seq<Seq<Seq<u32>>>,
    firsts: Seq<CellPos>,
    f1: int, y1: int, x1: int,
    f2: int, y2: int, x2: int,
)
    requires
        vertex_numbering(keys, n, vi, firsts),
        in_grid(n, f1, y1, x1),
        in_grid(n, f2, y2, x2),
    ensures
        vi[f1][y1][x1] == vi[f2][y2][x2] <==> keys[f1][y1][x1] == keys[f2][y2][x2],
{
    let i = vi[f1][y1][x1] as int;
    let j = vi[f2][y2][x2] as int;
    let a = firsts[i];
    let b = firsts[j];
    if keys[f1][y1][x1] == keys[f2][y2][x2] && i != j {
        if i < j {
            assert(scanned_before(a.0 as int, a.1 as int, a.2 as int, b.0 as int, b.1 as int, b.2 as int));
            assert(keys[a.0 as int][a.1 as int][a.2 as int] != keys[b.0 as int][b.1 as int][b.2 as int]);
        } else {
            assert(scanned_before(b.0 as int, b.1 as int, b.2 as int, a.0 as int, a.1 as int, a.2 as int));
            assert(keys[b.0 as int][b.1 as int][b.2 as int] != keys[a.0 as int][a.1 as int][a.2 as int]);
        }
    }
}

/// The two triangles of the grid quad whose top-left cell is `(f, y, x)`:
/// `[i0, i1, i2, i1, i3, i2]` for the corners top-left, top-right,
/// bottom-left, bottom-right.
pub open spec fn quad_triangles(vi: Seq<Seq<Seq<u32>>>, f: int, y: int, x: int) -> Seq<u32> {
    let i0 = vi[f][y][x];
    let i1 = vi[f][y][x + 1];
    let i2 = vi[f][y + 1][x];
    let i3 = vi[f][y + 1][x + 1];
    seq![i0, i1, i2, i1, i3, i2]
}

/// The triangles of every quad before `(f, y, x)` in face-row-column order,
/// on faces of `q` by `q` quads.
pub open spec fn triangles_before(vi: Seq<Seq<Seq<u32>>>, q: int, f: int, y: int, x: int) -> Seq<u32>
    decreases f, y, x,
{
    if f < 0 || y < 0 || x < 0 {
        Seq::empty()
    } else if x > 0 {
        triangles_before(vi, q, f, y, x - 1) + quad_triangles(vi, f, y, x - 1)
    } else if y > 0 {
        triangles_before(vi, q, f, y - 1, q)
    } else if f > 0 {
        triangles_before(vi, q, f - 1, q, 0)
    } else {
        Seq::empty()
    }
}

/// Position of quad `(f, y, x)` in face-row-column order on faces of `q` by
/// `q` quads.
pub open spec fn quad_pos(q: int, f: int, y: int, x: int) -> int {
    (f * q + y) * q + x
}

/// The scan positions that `triangles_before` is taken at: within a row of
/// quads, the start of a row past the last one, or the end of all faces.
spec fn scan_point(q: int, f: int, y: int, x: int) -> bool {
    ||| 0 <= f < 6 && 0 <= y < q && 0 <= x <= q
    ||| 0 <= f < 6 && y == q && x == 0
    ||| f == 6 && y == 0 && x == 0
}

proof fn lemma_quad_pos_unique(q: int, f: int, y: int, x: int, f2: int, y2: int, x2: int)
    requires
        q >= 1,
        0 <= y < q,
        0 <= x < q,
        0 <= y2 < q,
        0 <= x2 < q,
        quad_pos(q, f, y, x) == quad_pos(q, f2, y2, x2),
    ensures
        f == f2 && y == y2 && x == x2,
{
    let a = f * q + y;
    let b = f2 * q + y2;
    assert(a == b && x == x2) by (nonlinear_arith)
        requires
            a * q + x == b * q + x2,
            0 <= x < q,
            0 <= x2 < q,
    ;
    assert(f == f2 && y == y2) by (nonlinear_arith)
        requires
            f * q + y == f2 * q + y2,
            0 <= y < q,
            0 <= y2 < q,
    ;
}

proof fn lemma_triangles_before_layout(vi: Seq<Seq<Seq<u32>>>, q: int, f: int, y: int, x: int)
    requires
        q >= 1,
        scan_point(q, f, y, x),
    ensures
        triangles_before(vi, q, f, y, x).len() == 6 * quad_pos(q, f, y, x),
        forall|f2: int, y2: int, x2: int, k: int|
            0 <= f2 < 6 && 0 <= y2 < q && 0 <= x2 < q && 0 <= k < 6 && quad_pos(q, f2, y2, x2) < quad_pos(q, f, y, x)
                ==> #[trigger] triangles_before(vi, q, f, y, x)[6 * quad_pos(q, f2, y2, x2) + k]
                    == (#[trigger] quad_triangles(vi, f2, y2, x2))[k],
    decreases f, y, x,
{
    if x > 0 {
        lemma_triangles_before_layout(vi, q, f, y, x - 1);
        let prev = triangles_before(vi, q, f, y, x - 1);
        let t = quad_triangles(vi, f, y, x - 1);
        assert(quad_pos(q, f, y, x) == quad_pos(q, f, y, x - 1) + 1);
        assert forall|f2: int, y2: int, x2: int, k: int|
            0 <= f2 < 6 && 0 <= y2 < q && 0 <= x2 < q && 0 <= k < 6 && quad_pos(q, f2, y2, x2) < quad_pos(q, f, y, x)
                implies #[trigger] triangles_before(vi, q, f, y, x)[6 * quad_pos(q, f2, y2, x2) + k]
                    == (#[trigger] quad_triangles(vi, f2, y2, x2))[k] by {
            if quad_pos(q, f2, y2, x2) < quad_pos(q, f, y, x - 1) {
                assert((prev + t)[6 * quad_pos(q, f2, y2, x2) + k] == prev[6 * quad_pos(q, f2, y2, x2) + k]);
            } else {
                lemma_quad_pos_unique(q, f2, y2, x2, f, y, x - 1);
            }
        }
    } else if y > 0 {
        lemma_triangles_before_layout(vi, q, f, y - 1, q);
        assert(quad_pos(q, f, y - 1, q) == quad_pos(q, f, y, 0)) by (nonlinear_arith);
    } else if f > 0 {
        lemma_triangles_before_layout(vi, q, f - 1, q, 0);
        assert(quad_pos(q, f - 1, q, 0) == quad_pos(q, f, 0, 0)) by (nonlinear_arith);
    } else {
        assert(quad_pos(q, f, y, x) == 0) by (nonlinear_arith)
            requires
                f == 0,
                y == 0,
                x == 0,
        ;
        assert forall|f2: int, y2: int, x2: int| 0 <= f2 < 6 && 0 <= y2 < q && 0 <= x2 < q
            implies quad_pos(q, f2, y2, x2) >= 0 by {
            assert(quad_pos(q, f2, y2, x2) >= 0) by (nonlinear_arith)
                requires
                    0 <= f2,
                    0 <= y2,
                    0 <= x2,
                    q >= 1,
            ;
        }
    }
}

/// The index buffer holds, for every quad `(f, y, x)` of every face, at six
/// times its face-row-column position, the triangles (top-left, top-right,
/// bottom-left) and (top-right, bottom-right, bottom-left) of its corners, and
/// nothing else.
pub proof fn lemma_triangle_buffer_layout(vi: Seq<Seq<Seq<u32>>>, q: int, f: int, y: int, x: int)
    requires
        q >= 1,
        0 <= f < 6,
        0 <= y < q,
        0 <= x < q,
    ensures
        triangles_before(vi, q, 6, 0, 0).len() == 36 * q * q,
        triangles_before(vi, q, 6, 0, 0).subrange(6 * quad_pos(q, f, y, x), 6 * quad_pos(q, f, y, x) + 6)
            == seq![vi[f][y][x], vi[f][y][x + 1], vi[f][y + 1][x], vi[f][y][x + 1], vi[f][y + 1][x + 1], vi[f][y + 1][x]],
{
    lemma_triangles_before_layout(vi, q, 6, 0, 0);
    assert(quad_pos(q, 6, 0, 0) == 6 * q * q) by (nonlinear_arith);
    assert(6 * quad_pos(q, 6, 0, 0) == 36 * q * q) by (nonlinear_arith)
        requires
            quad_pos(q, 6, 0, 0) == 6 * q * q,
    ;
    assert(quad_pos(q, f, y, x) < quad_pos(q, 6, 0, 0)) by (nonlinear_arith)
        requires
            0 <= f < 6,
            0 <= y < q,
            0 <= x < q,
    ;
    let all = triangles_before(vi, q, 6, 0, 0);
    let p = 6 * quad_pos(q, f, y, x);
    assert forall|k: int| 0 <= k < 6 implies #[trigger] all.subrange(p, p + 6)[k] == quad_triangles(vi, f, y, x)[k] by {
        assert(all[p + k] == quad_triangles(vi, f, y, x)[k]);
    }
    assert(all.subrange(p, p + 6) =~= quad_triangles(vi, f, y, x));
}

/// The index buffer of the cube-sphere mesh: two triangles for every quad of
/// every face, quads in face-row-column order.
pub fn grid_triangle_indices(vertex_indices: &Vec<Vec<Vec<u32>>>, face_grid_size: usize) -> (indices: Vec<u32>)
    requires
        wf3(grid3(vertex_indices), face_grid_size as int),
        face_grid_size >= 1,
    ensures
        indices@ == triangles_before(grid3(vertex_indices), face_grid_size - 1, 6, 0, 0),
        indices@.len() == 36 * (face_grid_size - 1) * (face_grid_size - 1),
        forall|f: int, y: int, x: int| 0 <= f < 6 && 0 <= y < face_grid_size - 1 && 0 <= x < face_grid_size - 1
            ==> #[trigger] indices@.subrange(
                6 * quad_pos(face_grid_size - 1, f, y, x),
                6 * quad_pos(face_grid_size - 1, f, y, x) + 6,
            ) == seq![
                grid3(vertex_indices)[f][y][x],
                grid3(vertex_indices)[f][y][x + 1],
                grid3(vertex_indices)[f][y + 1][x],
                grid3(vertex_indices)[f][y][x + 1],
                grid3(vertex_indices)[f][y + 1][x + 1],
                grid3(vertex_indices)[f][y + 1][x],
            ],
{
    let ghost vg = grid3(vertex_indices);
    let q = face_grid_size - 1;
    let mut indices: Vec<u32> = Vec::new();
    let mut f: usize = 0;
    while f < 6
        invariant
            f <= 6,
            q + 1 == face_grid_size,
            vg == grid3(vertex_indices),
            wf3(vg, face_grid_size as int),
            indices@ == triangles_before(vg, q as int, f as int, 0, 0),
        decreases 6 - f,
    {
        let mut y: usize = 0;
        while y < q
            invariant
                f < 6,
                y <= q,
                q + 1 == face_grid_size,
                vg == grid3(vertex_indices),
                wf3(vg, face_grid_size as int),
                indices@ == triangles_before(vg, q as int, f as int, y as int, 0),
            decreases q - y,
        {
            let mut x: usize = 0;
            while x < q
                invariant
                    f < 6,
                    y < q,
                    x <= q,
                    q + 1 == face_grid_size,
                    vg == grid3(vertex_indices),
                    wf3(vg, face_grid_size as int),
                    indices@ == triangles_before(vg, q as int, f as int, y as int, x as int),
                decreases q - x,
            {
                let i0 = get3(vertex_indices, f, y, x);
                let i1 = get3(vertex_indices, f, y, x + 1);
                let i2 = get3(vertex_indices, f, y + 1, x);
                let i3 = get3(vertex_indices, f, y + 1, x + 1);
                let ghost before = indices@;
                indices.push(i0);
                indices.push(i1);
                indices.push(i2);
                indices.push(i1);
                indices.push(i3);
                indices.push(i2);
                x += 1;
                assert(indices@ =~= before + quad_triangles(vg, f as int, y as int, x - 1));
            }
            y += 1;
        }
        f += 1;
    }
    proof {
        let qq = q as int;
        if qq == 0 {
            reveal_with_fuel(triangles_before, 8);
            assert(triangles_before(vg, 0, 6, 0, 0).len() == 0);
        } else {
            lemma_triangle_buffer_layout(vg, qq, 0, 0, 0);
            assert forall|f: int, y: int, x: int| 0 <= f < 6 && 0 <= y < qq && 0 <= x < qq implies #[trigger] indices@.subrange(
                6 * quad_pos(qq, f, y, x),
                6 * quad_pos(qq, f, y, x) + 6,
            ) == seq![vg[f][y][x], vg[f][y][x + 1], vg[f][y + 1][x], vg[f][y][x + 1], vg[f][y + 1][x + 1], vg[f][y + 1][x]] by {
                lemma_triangle_buffer_layout(vg, qq, f, y, x);
            }
        }
    }
    indices
}

} // verus!


