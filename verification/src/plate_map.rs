use std::collections::{HashMap, HashSet};
use vstd::prelude::*;

verus! {

broadcast use vstd::std_specs::hash::group_hash_axioms;

/// One row of plate ids on a cube face.
pub type FaceRow = Vec<usize>;

/// The rows of one cube face.
pub type FaceGrid = Vec<FaceRow>;

/// Plate ids for the six cube faces, indexed `[face][y][x]`.
pub type PlateMap = Vec<FaceGrid>;

/// A face grid of `n` rows of `n` cells.
pub open spec fn wf_face(g: Seq<Seq<usize>>, n: int) -> bool {
    &&& g.len() == n
    &&& forall|y: int| 0 <= y < n ==> (#[trigger] g[y]).len() == n
}

/// Six face grids of `n` by `n` cells.
pub open spec fn wf_map(m: Seq<Seq<Seq<usize>>>, n: int) -> bool {
    &&& m.len() == 6
    &&& forall|f: int| 0 <= f < 6 ==> wf_face(#[trigger] m[f], n)
}

/// Number of occurrences of `v` in `s`.
pub open spec fn count_in(s: Seq<usize>, v: usize) -> nat
    decreases s.len(),
{
    if s.len() == 0 {
        0
    } else {
        count_in(s.drop_last(), v) + if s.last() == v { 1nat } else { 0nat }
    }
}

/// Horizontal offset of the `k`-th neighbour in the smoothing scan:
/// left, right, up, down, then the four diagonals.
pub open spec fn scan_dx(k: int) -> int {
    if k == 0 || k == 4 || k == 5 { -1 } else if k == 1 || k == 6 || k == 7 { 1 } else { 0 }
}

/// Vertical offset of the `k`-th neighbour in the smoothing scan.
pub open spec fn scan_dy(k: int) -> int {
    if k == 2 || k == 4 || k == 6 { -1 } else if k == 3 || k == 5 || k == 7 { 1 } else { 0 }
}

/// The ids of the in-bounds neighbours `0..k` of cell `(x, y)`, in scan order.
pub open spec fn scan_neighbors(g: Seq<Seq<usize>>, n: int, x: int, y: int, k: int) -> Seq<usize>
    decreases k,
{
    if k <= 0 {
        Seq::empty()
    } else {
        let prev = scan_neighbors(g, n, x, y, k - 1);
        let nx = x + scan_dx(k - 1);
        let ny = y + scan_dy(k - 1);
        if 0 <= nx < n && 0 <= ny < n {
            prev.push(g[ny][nx])
        } else {
            prev
        }
    }
}

/// The votes cast for cell `(x, y)`: its own id twice (self weight 2), then the
/// ids of its in-bounds 8-neighbours in scan order.
pub open spec fn votes(g: Seq<Seq<usize>>, n: int, x: int, y: int) -> Seq<usize> {
    seq![g[y][x], g[y][x]] + scan_neighbors(g, n, x, y, 8)
}

/// Reading the votes in order and counting as it goes, the id whose running
/// count first exceeds every count seen before, with that count.
pub open spec fn scan_best(s: Seq<usize>) -> (usize, nat)
    decreases s.len(),
{
    if s.len() == 0 {
        (0, 0)
    } else {
        let (b, v) = scan_best(s.drop_last());
        let c = count_in(s, s.last());
        if c > v { (s.last(), c) } else { (b, v) }
    }
}

/// The id that majority smoothing gives cell `(x, y)` of face `g`.
pub open spec fn smoothed(g: Seq<Seq<usize>>, n: int, x: int, y: int) -> usize {
    scan_best(votes(g, n, x, y)).0
}

proof fn lemma_count_take_step(s: Seq<usize>, i: int, v: usize)
    requires
        0 <= i < s.len(),
    ensures
        count_in(s.take(i + 1), v) == count_in(s.take(i), v) + if s[i] == v { 1nat } else { 0nat },
{
    assert(s.take(i + 1).drop_last() =~= s.take(i));
}

/// The scan winner holds the largest count of all ids, occurs in the votes and
/// holds exactly that count.
pub proof fn lemma_scan_best_is_majority(s: Seq<usize>)
    requires
        s.len() > 0,
    ensures
        s.contains(scan_best(s).0),
        count_in(s, scan_best(s).0) == scan_best(s).1,
        forall|v: usize| count_in(s, v) <= scan_best(s).1,
    decreases s.len(),
{
    let p = s.drop_last();
    let c = s.last();
    assert(s[s.len() - 1] == c);
    assert(s.contains(c));
    assert(count_in(s, c) == count_in(p, c) + 1);
    if p.len() == 0 {
        assert(count_in(p, c) == 0);
        assert forall|v: usize| count_in(s, v) <= scan_best(s).1 by {
            assert(count_in(p, v) == 0);
        }
    } else {
        lemma_scan_best_is_majority(p);
        let (b, v) = scan_best(p);
        assert forall|w: usize| count_in(s, w) <= scan_best(s).1 by {
            assert(count_in(p, w) <= v);
        }
        if count_in(s, c) > v {
        } else {
            assert(b != c);
            assert(count_in(s, b) == count_in(p, b));
            assert(p.contains(b));
            let j = choose|j: int| 0 <= j < p.len() && p[j] == b;
            assert(s[j] == b);
        }
    }
}

/// Every vote from the scan names a cell of the 3x3 neighbourhood other than
/// the cell itself.
proof fn lemma_scan_neighbors_not_self(g: Seq<Seq<usize>>, n: int, x: int, y: int, k: int)
    requires
        wf_face(g, n),
        0 <= x < n,
        0 <= y < n,
        0 <= k <= 8,
    ensures
        forall|i: int| 0 <= i < scan_neighbors(g, n, x, y, k).len() ==> exists|nx: int, ny: int|
            0 <= nx < n && 0 <= ny < n && x - 1 <= nx <= x + 1 && y - 1 <= ny <= y + 1 && (nx != x || ny != y)
                && #[trigger] scan_neighbors(g, n, x, y, k)[i] == g[ny][nx],
    decreases k,
{
    if k > 0 {
        lemma_scan_neighbors_not_self(g, n, x, y, k - 1);
        let prev = scan_neighbors(g, n, x, y, k - 1);
        let nx = x + scan_dx(k - 1);
        let ny = y + scan_dy(k - 1);
        assert forall|i: int| 0 <= i < scan_neighbors(g, n, x, y, k).len() implies exists|ax: int, ay: int|
            0 <= ax < n && 0 <= ay < n && x - 1 <= ax <= x + 1 && y - 1 <= ay <= y + 1 && (ax != x || ay != y)
                && #[trigger] scan_neighbors(g, n, x, y, k)[i] == g[ay][ax] by {
            if i < prev.len() {
                assert(scan_neighbors(g, n, x, y, k)[i] == prev[i]);
            } else {
                assert(scan_neighbors(g, n, x, y, k)[i] == g[ny][nx]);
            }
        }
    }
}

/// Majority smoothing gives a cell an id that some cell of its 3x3
/// neighbourhood holds, and no id of the neighbourhood has more votes (self
/// counted twice).
pub proof fn lemma_smoothing_picks_majority(g: Seq<Seq<usize>>, n: int, x: int, y: int)
    requires
        wf_face(g, n),
        0 <= x < n,
        0 <= y < n,
    ensures
        votes(g, n, x, y).contains(smoothed(g, n, x, y)),
        exists|nx: int, ny: int| 0 <= nx < n && 0 <= ny < n && x - 1 <= nx <= x + 1 && y - 1 <= ny <= y + 1
            && g[ny][nx] == smoothed(g, n, x, y),
        forall|v: usize| #[trigger] count_in(votes(g, n, x, y), v) <= count_in(votes(g, n, x, y), smoothed(g, n, x, y)),
{
    let s = votes(g, n, x, y);
    lemma_scan_best_is_majority(s);
    lemma_scan_neighbors_not_self(g, n, x, y, 8);
    let w = smoothed(g, n, x, y);
    let i = choose|i: int| 0 <= i < s.len() && s[i] == w;
    if i >= 2 {
        let t = scan_neighbors(g, n, x, y, 8);
        assert(s[i] == t[i - 2]);
    } else {
        assert(g[y][x] == w);
    }
}

proof fn lemma_count_concat(a: Seq<usize>, b: Seq<usize>, v: usize)
    ensures
        count_in(a + b, v) == count_in(a, v) + count_in(b, v),
    decreases b.len(),
{
    if b.len() > 0 {
        assert((a + b).drop_last() =~= a + b.drop_last());
        lemma_count_concat(a, b.drop_last(), v);
    } else {
        assert(a + b =~= a);
    }
}

proof fn lemma_count_uniform(s: Seq<usize>, q: usize, v: usize)
    requires
        forall|i: int| 0 <= i < s.len() ==> #[trigger] s[i] == q,
    ensures
        count_in(s, v) == if v == q { s.len() } else { 0 },
    decreases s.len(),
{
    if s.len() > 0 {
        lemma_count_uniform(s.drop_last(), q, v);
    }
}

proof fn lemma_scan_neighbors_len(g: Seq<Seq<usize>>, n: int, x: int, y: int)
    requires
        n >= 2,
        0 <= x < n,
        0 <= y < n,
    ensures
        scan_neighbors(g, n, x, y, 8).len() >= 3,
{
    reveal_with_fuel(scan_neighbors, 9);
}

/// Smoothing removes one-cell cracks: a cell whose in-bounds 8-neighbours
/// all hold one plate takes that plate (on faces of at least 2 by 2 cells).
pub proof fn lemma_smoothing_fills_isolated_cell(g: Seq<Seq<usize>>, n: int, q: usize, x: int, y: int)
    requires
        wf_face(g, n),
        n >= 2,
        0 <= x < n,
        0 <= y < n,
        forall|a: int, b: int| 0 <= a < n && 0 <= b < n && x - 1 <= a <= x + 1 && y - 1 <= b <= y + 1
            && (a != x || b != y) ==> #[trigger] g[b][a] == q,
    ensures
        smoothed(g, n, x, y) == q,
{
    let p = g[y][x];
    let s = scan_neighbors(g, n, x, y, 8);
    lemma_scan_neighbors_not_self(g, n, x, y, 8);
    assert forall|i: int| 0 <= i < s.len() implies #[trigger] s[i] == q by {
        let (a, b) = choose|a: int, b: int| 0 <= a < n && 0 <= b < n && x - 1 <= a <= x + 1 && y - 1 <= b <= y + 1
            && (a != x || b != y) && s[i] == g[b][a];
    }
    lemma_scan_neighbors_len(g, n, x, y);
    let vs = votes(g, n, x, y);
    let w = smoothed(g, n, x, y);
    lemma_smoothing_picks_majority(g, n, x, y);
    lemma_count_concat(seq![p, p], s, q);
    lemma_count_concat(seq![p, p], s, w);
    lemma_count_uniform(s, q, q);
    lemma_count_uniform(s, q, w);
    reveal_with_fuel(count_in, 3);
    assert(count_in(vs, w) >= count_in(vs, q));
    if w != q {
        assert(count_in(s, w) == 0);
        assert(count_in(seq![p, p], w) <= 2);
        assert(count_in(vs, q) >= 3);
    }
}

/// Face `g` of `n` by `n` cells with rows and columns exchanged.
pub open spec fn transpose_face(g: Seq<Seq<usize>>, n: int) -> Seq<Seq<usize>> {
    Seq::new(n as nat, |y: int| Seq::new(n as nat, |x: int| g[x][y]))
}

/// Of the votes for cell `(x, y)`, `w` has more than every other id.
pub open spec fn wins_clearly(g: Seq<Seq<usize>>, n: int, x: int, y: int, w: usize) -> bool {
    forall|v: usize| v != w ==> #[trigger] count_in(votes(g, n, x, y), v) < count_in(votes(g, n, x, y), w)
}

/// Of the votes for cell `(x, y)`, one id has more than every other.
pub open spec fn clear_majority(g: Seq<Seq<usize>>, n: int, x: int, y: int) -> bool {
    exists|w: usize| #[trigger] wins_clearly(g, n, x, y, w)
}

/// Whether scan neighbour `k` of `(x, y)` lies on the face and holds `v`, as 0 or 1.
spec fn neighbor_vote(g: Seq<Seq<usize>>, n: int, x: int, y: int, k: int, v: usize) -> nat {
    let nx = x + scan_dx(k);
    let ny = y + scan_dy(k);
    if 0 <= nx < n && 0 <= ny < n && g[ny][nx] == v { 1 } else { 0 }
}

/// How many of the scan neighbours `0..k` of `(x, y)` hold `v`.
spec fn neighbor_votes(g: Seq<Seq<usize>>, n: int, x: int, y: int, k: int, v: usize) -> nat
    decreases k,
{
    if k <= 0 {
        0
    } else {
        neighbor_votes(g, n, x, y, k - 1, v) + neighbor_vote(g, n, x, y, k - 1, v)
    }
}

proof fn lemma_neighbor_votes(g: Seq<Seq<usize>>, n: int, x: int, y: int, k: int, v: usize)
    requires
        0 <= k <= 8,
    ensures
        count_in(scan_neighbors(g, n, x, y, k), v) == neighbor_votes(g, n, x, y, k, v),
    decreases k,
{
    if k > 0 {
        lemma_neighbor_votes(g, n, x, y, k - 1, v);
        let prev = scan_neighbors(g, n, x, y, k - 1);
        let nx = x + scan_dx(k - 1);
        let ny = y + scan_dy(k - 1);
        if 0 <= nx < n && 0 <= ny < n {
            assert(prev.push(g[ny][nx]).drop_last() =~= prev);
        }
    }
}

proof fn lemma_transpose_votes(g: Seq<Seq<usize>>, n: int, x: int, y: int, v: usize)
    requires
        wf_face(g, n),
        0 <= x < n,
        0 <= y < n,
    ensures
        count_in(votes(transpose_face(g, n), n, y, x), v) == count_in(votes(g, n, x, y), v),
{
    let t = transpose_face(g, n);
    assert forall|a: int, b: int| 0 <= a < n && 0 <= b < n implies #[trigger] t[b][a] == g[a][b] by {}
    lemma_neighbor_votes(g, n, x, y, 8, v);
    lemma_neighbor_votes(t, n, y, x, 8, v);
    // transposing swaps the horizontal and vertical offsets of the scan
    assert(neighbor_vote(t, n, y, x, 0, v) == neighbor_vote(g, n, x, y, 2, v));
    assert(neighbor_vote(t, n, y, x, 1, v) == neighbor_vote(g, n, x, y, 3, v));
    assert(neighbor_vote(t, n, y, x, 2, v) == neighbor_vote(g, n, x, y, 0, v));
    assert(neighbor_vote(t, n, y, x, 3, v) == neighbor_vote(g, n, x, y, 1, v));
    assert(neighbor_vote(t, n, y, x, 4, v) == neighbor_vote(g, n, x, y, 4, v));
    assert(neighbor_vote(t, n, y, x, 5, v) == neighbor_vote(g, n, x, y, 6, v));
    assert(neighbor_vote(t, n, y, x, 6, v) == neighbor_vote(g, n, x, y, 5, v));
    assert(neighbor_vote(t, n, y, x, 7, v) == neighbor_vote(g, n, x, y, 7, v));
    assert(neighbor_votes(t, n, y, x, 8, v) == neighbor_votes(g, n, x, y, 8, v)) by {
        reveal_with_fuel(neighbor_votes, 9);
    }
    assert(t[x][y] == g[y][x]);
    lemma_count_concat(seq![g[y][x], g[y][x]], scan_neighbors(g, n, x, y, 8), v);
    lemma_count_concat(seq![t[x][y], t[x][y]], scan_neighbors(t, n, y, x, 8), v);
    assert(count_in(seq![g[y][x], g[y][x]], v) == count_in(seq![t[x][y], t[x][y]], v));
}

/// Smoothing commutes with transposing a face: where the votes for a cell
/// have one clear winner, the transposed face smooths the transposed cell to
/// the same plate. (The neighbourhood and the self weight are symmetric; only
/// ties depend on the scan order.)
pub proof fn lemma_smoothing_commutes_with_transpose(g: Seq<Seq<usize>>, n: int, x: int, y: int)
    requires
        wf_face(g, n),
        0 <= x < n,
        0 <= y < n,
        clear_majority(g, n, x, y),
    ensures
        smoothed(transpose_face(g, n), n, y, x) == smoothed(g, n, x, y),
{
    let t = transpose_face(g, n);
    let w = choose|w: usize| #[trigger] wins_clearly(g, n, x, y, w);
    let s1 = votes(g, n, x, y);
    let s2 = votes(t, n, y, x);
    lemma_scan_best_is_majority(s1);
    lemma_scan_best_is_majority(s2);
    let w1 = scan_best(s1).0;
    let w2 = scan_best(s2).0;
    lemma_transpose_votes(g, n, x, y, w);
    lemma_transpose_votes(g, n, x, y, w1);
    lemma_transpose_votes(g, n, x, y, w2);
    assert(count_in(s1, w1) >= count_in(s1, w));
    assert(count_in(s2, w2) >= count_in(s2, w));
    if w1 != w {
        assert(count_in(s1, w1) < count_in(s1, w));
    }
    if w2 != w {
        assert(count_in(s1, w2) < count_in(s1, w));
    }
}

/// A face held entirely by one plate is left unchanged by smoothing.
pub proof fn lemma_smoothing_keeps_uniform_face(g: Seq<Seq<usize>>, n: int, p: usize, x: int, y: int)
    requires
        wf_face(g, n),
        forall|a: int, b: int| 0 <= a < n && 0 <= b < n ==> #[trigger] g[b][a] == p,
        0 <= x < n,
        0 <= y < n,
    ensures
        smoothed(g, n, x, y) == p,
{
    lemma_smoothing_picks_majority(g, n, x, y);
}

/// Scan-order neighbour `k` of cell `(x, y)`, if it lies on the face.
fn scan_neighbor(g: &Vec<Vec<usize>>, n: usize, x: usize, y: usize, k: usize) -> (r: Option<usize>)
    requires
        wf_face(g.deep_view(), n as int),
        x < n,
        y < n,
        k < 8,
    ensures
        r is Some <==> (0 <= x + scan_dx(k as int) < n && 0 <= y + scan_dy(k as int) < n),
        r is Some ==> r->0 == g.deep_view()[y + scan_dy(k as int)][x + scan_dx(k as int)],
{
    let ghost gv = g.deep_view();
    let nx: usize;
    if k == 0 || k == 4 || k == 5 {
        if x == 0 {
            return None;
        }
        nx = x - 1;
    } else if k == 1 || k == 6 || k == 7 {
        if x + 1 >= n {
            return None;
        }
        nx = x + 1;
    } else {
        nx = x;
    }
    let ny: usize;
    if k == 2 || k == 4 || k == 6 {
        if y == 0 {
            return None;
        }
        ny = y - 1;
    } else if k == 3 || k == 5 || k == 7 {
        if y + 1 >= n {
            return None;
        }
        ny = y + 1;
    } else {
        ny = y;
    }
    assert(gv[ny as int].len() == n);
    assert(g[ny as int]@.len() == n) by {
        assert(gv[ny as int] == g@[ny as int].deep_view());
    }
    let v = g[ny][nx];
    assert(v == gv[ny as int][nx as int]) by {
        assert(gv[ny as int] == g@[ny as int].deep_view());
    }
    Some(v)
}

/// The votes for cell `(x, y)`, as a vector.
fn collect_votes(g: &Vec<Vec<usize>>, n: usize, x: usize, y: usize) -> (s: Vec<usize>)
    requires
        wf_face(g.deep_view(), n as int),
        x < n,
        y < n,
    ensures
        s@ == votes(g.deep_view(), n as int, x as int, y as int),
{
    let ghost gv = g.deep_view();
    assert(gv[y as int] == g@[y as int].deep_view());
    assert(gv[y as int].len() == n);
    let me = g[y][x];
    let mut s: Vec<usize> = Vec::new();
    s.push(me);
    s.push(me);
    let mut k: usize = 0;
    while k < 8
        invariant
            k <= 8,
            x < n,
            y < n,
            gv == g.deep_view(),
            wf_face(gv, n as int),
            s@ == seq![gv[y as int][x as int], gv[y as int][x as int]] + scan_neighbors(gv, n as int, x as int, y as int, k as int),
        decreases 8 - k,
    {
        let r = scan_neighbor(g, n, x, y, k);
        let ghost before = s@;
        match r {
            Some(v) => {
                s.push(v);
            },
            None => {},
        }
        k += 1;
        assert(s@ =~= seq![gv[y as int][x as int], gv[y as int][x as int]] + scan_neighbors(gv, n as int, x as int, y as int, k as int));
    }
    s
}

/// Counts occurrences of `s[i]` among `s[0..=i]`.
fn running_count(s: &Vec<usize>, i: usize) -> (c: usize)
    requires
        i < s@.len(),
    ensures
        c == count_in(s@.take(i + 1), s@[i as int]),
{
    let len = s.len();
    let t = s[i];
    let mut c: usize = 0;
    let mut j: usize = 0;
    while j <= i
        invariant
            j <= i + 1,
            i < len,
            len == s@.len(),
            t == s@[i as int],
            c == count_in(s@.take(j as int), t),
            c <= j,
        decreases i + 1 - j,
    {
        proof {
            lemma_count_take_step(s@, j as int, t);
        }
        if s[j] == t {
            c += 1;
        }
        j += 1;
    }
    c
}

/// The id with the first running count to top all counts before it.
fn scan_winner(s: &Vec<usize>) -> (w: usize)
    requires
        s@.len() > 0,
    ensures
        w == scan_best(s@).0,
{
    let mut best: usize = s[0];
    let mut best_v: usize = 0;
    let mut i: usize = 0;
    assert(s@.take(0) =~= Seq::<usize>::empty());
    while i < s.len()
        invariant
            i <= s@.len(),
            s@.len() > 0,
            i > 0 ==> best == scan_best(s@.take(i as int)).0,
            best_v == scan_best(s@.take(i as int)).1,
        decreases s@.len() - i,
    {
        let c = running_count(s, i);
        proof {
            let t = s@.take(i + 1);
            assert(t.drop_last() =~= s@.take(i as int));
            assert(t.last() == s@[i as int]);
        }
        if c > best_v {
            best = s[i];
            best_v = c;
        }
        i += 1;
    }
    assert(s@.take(i as int) =~= s@);
    best
}

/// Smooths thin, noisy seams in the plate map by a single-pass majority vote.
///
/// Each cell on every face gets the id with the most votes among itself
/// (which votes twice) and its in-bounds 8-neighbours on the same face. The
/// votes are read in the order self, left, right, up, down, up-left,
/// down-left, up-right, down-right; of ids tied for the most votes, the one
/// whose running count reached that number first wins. All cells of a face
/// are decided from the face as it was before smoothing.
pub fn majority_smooth(face_n: usize, map: &mut PlateMap)
    requires
        wf_map(old(map).deep_view(), face_n as int),
    ensures
        wf_map(final(map).deep_view(), face_n as int),
        forall|f: int, y: int, x: int|
            0 <= f < 6 && 0 <= y < face_n && 0 <= x < face_n ==> #[trigger] final(map).deep_view()[f][y][x]
                == smoothed(old(map).deep_view()[f], face_n as int, x, y),
{
    let ghost m0 = map.deep_view();
    let mut out_map: PlateMap = Vec::new();
    let mut f: usize = 0;
    while f < 6
        invariant
            f <= 6,
            map.deep_view() == m0,
            wf_map(m0, face_n as int),
            out_map@.len() == f,
            forall|g: int| 0 <= g < f ==> wf_face(#[trigger] out_map.deep_view()[g], face_n as int),
            forall|g: int, y: int, x: int|
                0 <= g < f && 0 <= y < face_n && 0 <= x < face_n ==> #[trigger] out_map.deep_view()[g][y][x]
                    == smoothed(m0[g], face_n as int, x, y),
        decreases 6 - f,
    {
        let face = &map[f];
        assert(face.deep_view() == m0[f as int]);
        let mut out_face: FaceGrid = Vec::new();
        let mut y: usize = 0;
        while y < face_n
            invariant
                f < 6,
                y <= face_n,
                face.deep_view() == m0[f as int],
                wf_face(m0[f as int], face_n as int),
                out_face@.len() == y,
                forall|r: int| 0 <= r < y ==> (#[trigger] out_face.deep_view()[r]).len() == face_n,
                forall|r: int, x: int|
                    0 <= r < y && 0 <= x < face_n ==> #[trigger] out_face.deep_view()[r][x]
                        == smoothed(m0[f as int], face_n as int, x, r),
            decreases face_n - y,
        {
            let mut row: FaceRow = Vec::new();
            let mut x: usize = 0;
            while x < face_n
                invariant
                    f < 6,
                    y < face_n,
                    x <= face_n,
                    face.deep_view() == m0[f as int],
                    wf_face(m0[f as int], face_n as int),
                    row@.len() == x,
                    forall|c: int| 0 <= c < x ==> #[trigger] row@[c] == smoothed(m0[f as int], face_n as int, c, y as int),
                decreases face_n - x,
            {
                let v = collect_votes(face, face_n, x, y);
                let w = scan_winner(&v);
                row.push(w);
                x += 1;
            }
            let ghost prev = out_face.deep_view();
            proof {
                assert(row.deep_view() =~= row@);
            }
            out_face.push(row);
            proof {
                assert(out_face.deep_view() =~= prev.push(row@));
            }
            y += 1;
        }
        let ghost prevm = out_map.deep_view();
        out_map.push(out_face);
        proof {
            assert(out_map.deep_view() =~= prevm.push(out_face.deep_view()));
        }
        f += 1;
    }
    *map = out_map;
}


/// The id of cell `(f, y, x)` of a well-formed plate map.
pub fn cell(map: &PlateMap, face_n: usize, f: usize, y: usize, x: usize) -> (v: usize)
    requires
        wf_map(map.deep_view(), face_n as int),
        f < 6,
        y < face_n,
        x < face_n,
    ensures
        v == map.deep_view()[f as int][y as int][x as int],
{
    let ghost m = map.deep_view();
    assert(m[f as int] == map@[f as int].deep_view());
    let face = &map[f];
    assert(m[f as int][y as int] == face@[y as int].deep_view());
    let row = &face[y];
    assert(row.deep_view() =~= row@);
    row[x]
}

/// Number of cells of face `g` that hold `p`.
pub open spec fn count_face(g: Seq<Seq<usize>>, p: usize) -> nat
    decreases g.len(),
{
    if g.len() == 0 {
        0
    } else {
        count_face(g.drop_last(), p) + count_in(g.last(), p)
    }
}

/// Number of cells of the map that hold `p`.
pub open spec fn count_map(m: Seq<Seq<Seq<usize>>>, p: usize) -> nat
    decreases m.len(),
{
    if m.len() == 0 {
        0
    } else {
        count_map(m.drop_last(), p) + count_face(m.last(), p)
    }
}

/// The area recorded for `p`, zero where the map has no entry.
pub open spec fn area_of(areas: Map<usize, usize>, p: usize) -> nat {
    if areas.contains_key(p) {
        areas[p] as nat
    } else {
        0
    }
}

/// The cells of the map scanned before `(f, y, x)` hold `p` this many times.
pub open spec fn count_before(m: Seq<Seq<Seq<usize>>>, f: int, y: int, x: int, p: usize) -> nat {
    count_map(m.take(f), p) + count_face(m[f].take(y), p) + count_in(m[f][y].take(x), p)
}

proof fn lemma_count_before_row_end(m: Seq<Seq<Seq<usize>>>, n: int, f: int, y: int, p: usize)
    requires
        wf_map(m, n),
        0 <= f < 6,
        0 <= y < n,
    ensures
        count_map(m.take(f), p) + count_face(m[f].take(y + 1), p) == count_before(m, f, y, n, p),
{
    assert(m[f].take(y + 1).drop_last() =~= m[f].take(y));
    assert(m[f][y].take(n) =~= m[f][y]);
}

proof fn lemma_count_face_end(m: Seq<Seq<Seq<usize>>>, n: int, f: int, p: usize)
    requires
        wf_map(m, n),
        0 <= f < 6,
    ensures
        count_map(m.take(f + 1), p) == count_map(m.take(f), p) + count_face(m[f].take(n), p),
{
    assert(m.take(f + 1).drop_last() =~= m.take(f));
    assert(m[f].take(n) =~= m[f]);
}

/// Counts the cells held by each plate: the map has an entry for exactly the
/// ids that occur, and each entry is that id's number of cells.
pub fn count_plate_areas(face_grid_size: usize, plate_map: &PlateMap) -> (areas: HashMap<usize, usize>)
    requires
        wf_map(plate_map.deep_view(), face_grid_size as int),
        6 * face_grid_size * face_grid_size <= usize::MAX,
    ensures
        forall|p: usize| #[trigger] area_of(areas@, p) == count_map(plate_map.deep_view(), p),
        forall|p: usize| #[trigger] areas@.contains_key(p) ==> areas@[p] > 0,
{
    let ghost m = plate_map.deep_view();
    let n = face_grid_size;
    proof {
        assert(n * n <= 6 * n * n) by (nonlinear_arith);
        assert(6 * n * n == 6 * (n * n)) by (nonlinear_arith);
    }
    let nn = n * n;
    let mut areas: HashMap<usize, usize> = HashMap::new();
    let mut scanned: usize = 0;
    let mut f: usize = 0;
    assert(m.take(0) =~= Seq::<Seq<Seq<usize>>>::empty());
    while f < 6
        invariant
            f <= 6,
            m == plate_map.deep_view(),
            wf_map(m, n as int),
            nn == n * n,
            6 * nn <= usize::MAX,
            scanned == f * nn,
            forall|p: usize| #[trigger] area_of(areas@, p) == count_map(m.take(f as int), p),
            forall|p: usize| #[trigger] area_of(areas@, p) <= scanned,
            forall|p: usize| #[trigger] areas@.contains_key(p) ==> areas@[p] > 0,
        decreases 6 - f,
    {
        let mut y: usize = 0;
        assert forall|p: usize| #[trigger] area_of(areas@, p) == count_before(m, f as int, 0, 0, p) by {
            assert(m[f as int].take(0) =~= Seq::<Seq<usize>>::empty());
            if n > 0 {
                assert(m[f as int][0].take(0) =~= Seq::<usize>::empty());
            }
        }
        while y < n
            invariant
                f < 6,
                y <= n,
                m == plate_map.deep_view(),
                wf_map(m, n as int),
                nn == n * n,
                6 * nn <= usize::MAX,
                scanned == f * nn + y * n,
                forall|p: usize| #[trigger] area_of(areas@, p)
                    == count_map(m.take(f as int), p) + count_face(m[f as int].take(y as int), p),
                forall|p: usize| #[trigger] area_of(areas@, p) <= scanned,
                forall|p: usize| #[trigger] areas@.contains_key(p) ==> areas@[p] > 0,
            decreases n - y,
        {
            let mut x: usize = 0;
            assert forall|p: usize| #[trigger] area_of(areas@, p) == count_before(m, f as int, y as int, x as int, p) by {
                assert(m[f as int][y as int].take(0) =~= Seq::<usize>::empty());
            }
            while x < n
                invariant
                    f < 6,
                    y < n,
                    x <= n,
                    m == plate_map.deep_view(),
                    wf_map(m, n as int),
                    nn == n * n,
                    6 * nn <= usize::MAX,
                    scanned == f * nn + y * n + x,
                    forall|p: usize| #[trigger] area_of(areas@, p) == count_before(m, f as int, y as int, x as int, p),
                    forall|p: usize| #[trigger] area_of(areas@, p) <= scanned,
                    forall|p: usize| #[trigger] areas@.contains_key(p) ==> areas@[p] > 0,
                decreases n - x,
            {
                proof {
                    assert(f * nn + y * n + x < 6 * nn) by (nonlinear_arith)
                        requires
                            f < 6,
                            y < n,
                            x < n,
                            nn == n * n,
                    ;
                }
                let pid = cell(plate_map, n, f, y, x);
                let ghost before = areas@;
                match areas.get(&pid) {
                    Some(c) => {
                        let c = *c;
                        assert(area_of(before, pid) == c);
                        assert(c <= scanned);
                        areas.insert(pid, c + 1);
                    },
                    None => {
                        areas.insert(pid, 1);
                    },
                }
                proof {
                    assert(m[f as int][y as int].take(x + 1).drop_last() =~= m[f as int][y as int].take(x as int));
                    assert forall|p: usize| #[trigger] area_of(areas@, p) == count_before(m, f as int, y as int, x + 1, p) by {
                        assert(area_of(before, p) == count_before(m, f as int, y as int, x as int, p));
                    }
                    assert forall|p: usize| #[trigger] area_of(areas@, p) <= scanned + 1 by {
                        assert(area_of(before, p) <= scanned);
                    }
                }
                scanned = scanned + 1;
                x += 1;
            }
            proof {
                assert forall|p: usize| #[trigger] area_of(areas@, p)
                    == count_map(m.take(f as int), p) + count_face(m[f as int].take(y + 1), p) by {
                    lemma_count_before_row_end(m, n as int, f as int, y as int, p);
                }
                assert(scanned == f * nn + (y + 1) * n) by (nonlinear_arith)
                    requires scanned == f * nn + y * n + n;
            }
            y += 1;
        }
        proof {
            assert forall|p: usize| #[trigger] area_of(areas@, p) == count_map(m.take(f + 1), p) by {
                lemma_count_face_end(m, n as int, f as int, p);
            }
            assert(scanned == (f + 1) * nn) by (nonlinear_arith)
                requires scanned == f * nn + n * n, nn == n * n;
        }
        f += 1;
    }
    assert(m.take(6) =~= m);
    areas
}

/// The id that a cell of plate `id` carries after merging: the primary it is
/// merged into, or itself.
pub open spec fn remap(merge: Map<usize, usize>, id: usize) -> usize {
    if merge.contains_key(id) {
        merge[id]
    } else {
        id
    }
}

/// Rewrites every cell whose plate has an entry in `merge_map` to that entry's
/// primary plate; other cells keep their id.
pub fn apply_plate_merges(face_grid_size: usize, plate_map: &mut PlateMap, merge_map: &HashMap<usize, usize>)
    requires
        wf_map(old(plate_map).deep_view(), face_grid_size as int),
    ensures
        wf_map(final(plate_map).deep_view(), face_grid_size as int),
        forall|f: int, y: int, x: int|
            0 <= f < 6 && 0 <= y < face_grid_size && 0 <= x < face_grid_size ==> #[trigger] final(plate_map).deep_view()[f][y][x]
                == remap(merge_map@, old(plate_map).deep_view()[f][y][x]),
{
    let ghost m0 = plate_map.deep_view();
    let n = face_grid_size;
    let mut out_map: PlateMap = Vec::new();
    let mut f: usize = 0;
    while f < 6
        invariant
            f <= 6,
            plate_map.deep_view() == m0,
            wf_map(m0, n as int),
            out_map@.len() == f,
            forall|g: int| 0 <= g < f ==> wf_face(#[trigger] out_map.deep_view()[g], n as int),
            forall|g: int, y: int, x: int|
                0 <= g < f && 0 <= y < n && 0 <= x < n ==> #[trigger] out_map.deep_view()[g][y][x]
                    == remap(merge_map@, m0[g][y][x]),
        decreases 6 - f,
    {
        let mut out_face: FaceGrid = Vec::new();
        let mut y: usize = 0;
        while y < n
            invariant
                f < 6,
                y <= n,
                plate_map.deep_view() == m0,
                wf_map(m0, n as int),
                out_face@.len() == y,
                forall|r: int| 0 <= r < y ==> (#[trigger] out_face.deep_view()[r]).len() == n,
                forall|r: int, x: int|
                    0 <= r < y && 0 <= x < n ==> #[trigger] out_face.deep_view()[r][x]
                        == remap(merge_map@, m0[f as int][r][x]),
            decreases n - y,
        {
            let mut row: FaceRow = Vec::new();
            let mut x: usize = 0;
            while x < n
                invariant
                    f < 6,
                    y < n,
                    x <= n,
                    plate_map.deep_view() == m0,
                    wf_map(m0, n as int),
                    row@.len() == x,
                    forall|c: int| 0 <= c < x ==> #[trigger] row@[c] == remap(merge_map@, m0[f as int][y as int][c]),
                decreases n - x,
            {
                let pid = cell(plate_map, n, f, y, x);
                let v = match merge_map.get(&pid) {
                    Some(primary) => *primary,
                    None => pid,
                };
                row.push(v);
                x += 1;
            }
            let ghost prev = out_face.deep_view();
            proof {
                assert(row.deep_view() =~= row@);
            }
            out_face.push(row);
            proof {
                assert(out_face.deep_view() =~= prev.push(row@));
            }
            y += 1;
        }
        let ghost prevm = out_map.deep_view();
        out_map.push(out_face);
        proof {
            assert(out_map.deep_view() =~= prevm.push(out_face.deep_view()));
        }
        f += 1;
    }
    *plate_map = out_map;
}


/// `{a, b}` is the unordered pair `{p, q}`.
pub open spec fn pair_is(a: usize, b: usize, p: usize, q: usize) -> bool {
    (a == p && b == q) || (a == q && b == p)
}

/// Cell `(f, y, x)` lies on the map.
pub open spec fn in_grid(n: int, f: int, y: int, x: int) -> bool {
    0 <= f < 6 && 0 <= y < n && 0 <= x < n
}

/// Cell `(f, y, x)` and its right or lower neighbour on the same face hold
/// plates `p` and `q`.
pub open spec fn edge_at(m: Seq<Seq<Seq<usize>>>, n: int, f: int, y: int, x: int, p: usize, q: usize) -> bool {
    ||| x + 1 < n && pair_is(m[f][y][x], m[f][y][x + 1], p, q)
    ||| y + 1 < n && pair_is(m[f][y][x], m[f][y + 1][x], p, q)
}

/// Plates `p` and `q` are distinct and touch: two side-by-side or stacked
/// cells of one face hold them.
pub open spec fn plates_adjacent(m: Seq<Seq<Seq<usize>>>, n: int, p: usize, q: usize) -> bool {
    &&& p != q
    &&& exists|f: int, y: int, x: int| in_grid(n, f, y, x) && #[trigger] edge_at(m, n, f, y, x, p, q)
}

/// `(f1, y1, x1)` comes before `(f, y, x)` in face-row-column order.
pub open spec fn scanned_before(f1: int, y1: int, x1: int, f: int, y: int, x: int) -> bool {
    f1 < f || (f1 == f && (y1 < y || (y1 == y && x1 < x)))
}

/// `p` and `q` touch at some cell scanned before `(f, y, x)`.
pub open spec fn adjacent_before(m: Seq<Seq<Seq<usize>>>, n: int, p: usize, q: usize, f: int, y: int, x: int) -> bool {
    &&& p != q
    &&& exists|f1: int, y1: int, x1: int|
        in_grid(n, f1, y1, x1) && scanned_before(f1, y1, x1, f, y, x) && #[trigger] edge_at(m, n, f1, y1, x1, p, q)
}

/// The neighbour set recorded for `k`, empty where there is no entry.
pub open spec fn nbrs(adj: Map<usize, HashSet<usize>>, k: usize) -> Set<usize> {
    if adj.contains_key(k) {
        adj[k]@
    } else {
        Set::empty()
    }
}

proof fn lemma_adjacent_before_same(
    m: Seq<Seq<Seq<usize>>>,
    n: int,
    p: usize,
    q: usize,
    fa: int, ya: int, xa: int,
    fb: int, yb: int, xb: int,
)
    requires
        forall|f1: int, y1: int, x1: int| in_grid(n, f1, y1, x1) ==> (scanned_before(f1, y1, x1, fa, ya, xa)
            <==> scanned_before(f1, y1, x1, fb, yb, xb)),
    ensures
        adjacent_before(m, n, p, q, fa, ya, xa) <==> adjacent_before(m, n, p, q, fb, yb, xb),
{
    if adjacent_before(m, n, p, q, fa, ya, xa) {
        let (f1, y1, x1) = choose|f1: int, y1: int, x1: int|
            in_grid(n, f1, y1, x1) && scanned_before(f1, y1, x1, fa, ya, xa) && #[trigger] edge_at(m, n, f1, y1, x1, p, q);
        assert(scanned_before(f1, y1, x1, fb, yb, xb));
    }
    if adjacent_before(m, n, p, q, fb, yb, xb) {
        let (f1, y1, x1) = choose|f1: int, y1: int, x1: int|
            in_grid(n, f1, y1, x1) && scanned_before(f1, y1, x1, fb, yb, xb) && #[trigger] edge_at(m, n, f1, y1, x1, p, q);
        assert(scanned_before(f1, y1, x1, fa, ya, xa));
    }
}

/// Records `q` as a neighbour of `p`.
fn add_neighbor(adj: &mut HashMap<usize, HashSet<usize>>, p: usize, q: usize)
    ensures
        final(adj)@.dom() == old(adj)@.dom().insert(p),
        forall|k: usize| #[trigger] nbrs(final(adj)@, k) == if k == p {
            nbrs(old(adj)@, p).insert(q)
        } else {
            nbrs(old(adj)@, k)
        },
{
    let ghost before = adj@;
    let mut set = match adj.remove(&p) {
        Some(s) => s,
        None => HashSet::new(),
    };
    assert(set@ == nbrs(before, p));
    set.insert(q);
    adj.insert(p, set);
    assert(adj@.dom() =~= before.dom().insert(p));
    assert forall|k: usize| #[trigger] nbrs(adj@, k) == if k == p {
        nbrs(before, p).insert(q)
    } else {
        nbrs(before, k)
    } by {
        if k != p {
            assert(adj@.contains_key(k) == before.contains_key(k));
        }
    }
}

/// Records that `p` and `q` touch.
fn add_edge(adj: &mut HashMap<usize, HashSet<usize>>, p: usize, q: usize)
    ensures
        final(adj)@.dom() == old(adj)@.dom().insert(p).insert(q),
        forall|k: usize| #[trigger] nbrs(final(adj)@, k) == if k == p && k == q {
            nbrs(old(adj)@, k).insert(q).insert(p)
        } else if k == p {
            nbrs(old(adj)@, p).insert(q)
        } else if k == q {
            nbrs(old(adj)@, q).insert(p)
        } else {
            nbrs(old(adj)@, k)
        },
{
    let ghost before = adj@;
    add_neighbor(adj, p, q);
    let ghost mid = adj@;
    add_neighbor(adj, q, p);
    assert forall|k: usize| #[trigger] nbrs(adj@, k) == if k == p && k == q {
        nbrs(before, k).insert(q).insert(p)
    } else if k == p {
        nbrs(before, p).insert(q)
    } else if k == q {
        nbrs(before, q).insert(p)
    } else {
        nbrs(before, k)
    } by {
        assert(nbrs(mid, k) == if k == p { nbrs(before, p).insert(q) } else { nbrs(before, k) });
    }
}

/// The adjacency invariant after scanning every cell before `(f, y, x)`.
pub open spec fn adjacency_upto(
    adj: Map<usize, HashSet<usize>>,
    m: Seq<Seq<Seq<usize>>>,
    n: int,
    f: int,
    y: int,
    x: int,
) -> bool {
    &&& forall|p: usize, q: usize| #[trigger] nbrs(adj, p).contains(q) <==> adjacent_before(m, n, p, q, f, y, x)
    &&& forall|k: usize| #[trigger] adj.contains_key(k) ==> exists|q: usize| adj[k]@.contains(q)
}

/// Finds which plates touch which: for every plate that touches another, the
/// set of plates it touches, where two plates touch when two side-by-side or
/// stacked cells of one face hold them.
pub fn build_plate_adjacency(face_grid_size: usize, plate_map: &PlateMap) -> (adjacency: HashMap<
    usize,
    HashSet<usize>,
>)
    requires
        wf_map(plate_map.deep_view(), face_grid_size as int),
    ensures
        forall|p: usize, q: usize| #[trigger] nbrs(adjacency@, p).contains(q)
            <==> plates_adjacent(plate_map.deep_view(), face_grid_size as int, p, q),
        forall|p: usize| #[trigger] adjacency@.contains_key(p)
            ==> exists|q: usize| plates_adjacent(plate_map.deep_view(), face_grid_size as int, p, q),
{
    let ghost m = plate_map.deep_view();
    let n = face_grid_size;
    let mut adj: HashMap<usize, HashSet<usize>> = HashMap::new();
    let mut f: usize = 0;
    while f < 6
        invariant
            f <= 6,
            m == plate_map.deep_view(),
            wf_map(m, n as int),
            adjacency_upto(adj@, m, n as int, f as int, 0, 0),
        decreases 6 - f,
    {
        let mut y: usize = 0;
        while y < n
            invariant
                f < 6,
                y <= n,
                m == plate_map.deep_view(),
                wf_map(m, n as int),
                adjacency_upto(adj@, m, n as int, f as int, y as int, 0),
            decreases n - y,
        {
            let mut x: usize = 0;
            while x < n
                invariant
                    f < 6,
                    y < n,
                    x <= n,
                    m == plate_map.deep_view(),
                    wf_map(m, n as int),
                    adjacency_upto(adj@, m, n as int, f as int, y as int, x as int),
                decreases n - x,
            {
                let ghost before = adj@;
                let current = cell(plate_map, n, f, y, x);
                let mut right = current;
                if x + 1 < n {
                    right = cell(plate_map, n, f, y, x + 1);
                    if right != current {
                        add_edge(&mut adj, current, right);
                    }
                }
                let ghost mid = adj@;
                let mut down = current;
                if y + 1 < n {
                    down = cell(plate_map, n, f, y + 1, x);
                    if down != current {
                        add_edge(&mut adj, current, down);
                    }
                }
                proof {
                    let (fi, yi, xi) = (f as int, y as int, x as int);
                    assert forall|p: usize, q: usize| #[trigger] nbrs(adj@, p).contains(q)
                        <==> adjacent_before(m, n as int, p, q, fi, yi, xi + 1) by {
                        let here = p != q && edge_at(m, n as int, fi, yi, xi, p, q);
                        assert(nbrs(adj@, p).contains(q) <==> (nbrs(before, p).contains(q) || here));
                        if adjacent_before(m, n as int, p, q, fi, yi, xi + 1) {
                            let (f1, y1, x1) = choose|f1: int, y1: int, x1: int|
                                in_grid(n as int, f1, y1, x1) && scanned_before(f1, y1, x1, fi, yi, xi + 1)
                                    && #[trigger] edge_at(m, n as int, f1, y1, x1, p, q);
                            if !(f1 == fi && y1 == yi && x1 == xi) {
                                assert(scanned_before(f1, y1, x1, fi, yi, xi));
                                assert(adjacent_before(m, n as int, p, q, fi, yi, xi));
                            }
                        }
                        if nbrs(before, p).contains(q) {
                            assert(adjacent_before(m, n as int, p, q, fi, yi, xi));
                            let (f1, y1, x1) = choose|f1: int, y1: int, x1: int|
                                in_grid(n as int, f1, y1, x1) && scanned_before(f1, y1, x1, fi, yi, xi)
                                    && #[trigger] edge_at(m, n as int, f1, y1, x1, p, q);
                            assert(scanned_before(f1, y1, x1, fi, yi, xi + 1));
                        }
                        if here {
                            assert(in_grid(n as int, fi, yi, xi));
                            assert(scanned_before(fi, yi, xi, fi, yi, xi + 1));
                        }
                    }
                    assert forall|k: usize| #[trigger] adj@.contains_key(k) implies exists|q: usize| adj@[k]@.contains(q) by {
                        if before.contains_key(k) {
                            let q0 = choose|q: usize| before[k]@.contains(q);
                            assert(nbrs(before, k).contains(q0));
                            assert(nbrs(adj@, k).contains(q0));
                        } else if mid.contains_key(k) {
                            if k == current {
                                assert(nbrs(adj@, k).contains(right));
                            } else {
                                assert(nbrs(adj@, k).contains(current));
                            }
                        } else {
                            if k == current {
                                assert(nbrs(adj@, k).contains(down));
                            } else {
                                assert(nbrs(adj@, k).contains(current));
                            }
                        }
                    }
                }
                x += 1;
            }
            proof {
                assert forall|p: usize, q: usize| #[trigger] nbrs(adj@, p).contains(q)
                    <==> adjacent_before(m, n as int, p, q, f as int, y + 1, 0) by {
                    lemma_adjacent_before_same(m, n as int, p, q, f as int, y as int, n as int, f as int, y + 1, 0);
                }
            }
            y += 1;
        }
        proof {
            assert forall|p: usize, q: usize| #[trigger] nbrs(adj@, p).contains(q)
                <==> adjacent_before(m, n as int, p, q, f + 1, 0, 0) by {
                lemma_adjacent_before_same(m, n as int, p, q, f as int, n as int, 0, f + 1, 0, 0);
            }
        }
        f += 1;
    }
    proof {
        assert forall|p: usize, q: usize| #[trigger] nbrs(adj@, p).contains(q)
            <==> plates_adjacent(m, n as int, p, q) by {
            if adjacent_before(m, n as int, p, q, 6, 0, 0) {
                let (f1, y1, x1) = choose|f1: int, y1: int, x1: int|
                    in_grid(n as int, f1, y1, x1) && scanned_before(f1, y1, x1, 6, 0, 0)
                        && #[trigger] edge_at(m, n as int, f1, y1, x1, p, q);
            }
            if plates_adjacent(m, n as int, p, q) {
                let (f1, y1, x1) = choose|f1: int, y1: int, x1: int|
                    in_grid(n as int, f1, y1, x1) && #[trigger] edge_at(m, n as int, f1, y1, x1, p, q);
                assert(scanned_before(f1, y1, x1, 6, 0, 0));
            }
        }
        assert forall|p: usize| #[trigger] adj@.contains_key(p)
            implies exists|q: usize| plates_adjacent(m, n as int, p, q) by {
            let q0 = choose|q: usize| adj@[p]@.contains(q);
            assert(nbrs(adj@, p).contains(q0));
        }
    }
    adj
}


/// Touching is symmetric, so the adjacency that `build_plate_adjacency`
/// records lists `q` under `p` exactly when it lists `p` under `q`.
pub proof fn lemma_adjacency_symmetric(m: Seq<Seq<Seq<usize>>>, n: int, p: usize, q: usize)
    ensures
        plates_adjacent(m, n, p, q) <==> plates_adjacent(m, n, q, p),
{
    if plates_adjacent(m, n, p, q) {
        let (f, y, x) = choose|f: int, y: int, x: int| in_grid(n, f, y, x) && #[trigger] edge_at(m, n, f, y, x, p, q);
        assert(edge_at(m, n, f, y, x, q, p));
    }
    if plates_adjacent(m, n, q, p) {
        let (f, y, x) = choose|f: int, y: int, x: int| in_grid(n, f, y, x) && #[trigger] edge_at(m, n, f, y, x, q, p);
        assert(edge_at(m, n, f, y, x, p, q));
    }
}

proof fn lemma_count_in_at(s: Seq<usize>, i: int)
    requires
        0 <= i < s.len(),
    ensures
        count_in(s, s[i]) >= 1,
    decreases s.len(),
{
    if i < s.len() - 1 {
        assert(s.drop_last()[i] == s[i]);
        lemma_count_in_at(s.drop_last(), i);
    }
}

proof fn lemma_count_face_at(g: Seq<Seq<usize>>, y: int, x: int)
    requires
        0 <= y < g.len(),
        0 <= x < g[y].len(),
    ensures
        count_face(g, g[y][x]) >= 1,
    decreases g.len(),
{
    if y < g.len() - 1 {
        assert(g.drop_last()[y] == g[y]);
        lemma_count_face_at(g.drop_last(), y, x);
    } else {
        lemma_count_in_at(g[y], x);
    }
}

proof fn lemma_count_map_at(m: Seq<Seq<Seq<usize>>>, f: int, y: int, x: int)
    requires
        0 <= f < m.len(),
        0 <= y < m[f].len(),
        0 <= x < m[f][y].len(),
    ensures
        count_map(m, m[f][y][x]) >= 1,
    decreases m.len(),
{
    if f < m.len() - 1 {
        assert(m.drop_last()[f] == m[f]);
        lemma_count_map_at(m.drop_last(), f, y, x);
    } else {
        lemma_count_face_at(m[f], y, x);
    }
}

/// Plates that touch hold cells: every plate that `build_plate_adjacency`
/// lists, and every plate it lists as a neighbour, has a positive area in
/// `count_plate_areas`.
pub proof fn lemma_adjacent_plates_have_area(m: Seq<Seq<Seq<usize>>>, n: int, p: usize, q: usize)
    requires
        wf_map(m, n),
        plates_adjacent(m, n, p, q),
    ensures
        count_map(m, p) > 0,
        count_map(m, q) > 0,
{
    let (f, y, x) = choose|f: int, y: int, x: int| in_grid(n, f, y, x) && #[trigger] edge_at(m, n, f, y, x, p, q);
    lemma_count_map_at(m, f, y, x);
    if x + 1 < n && pair_is(m[f][y][x], m[f][y][x + 1], p, q) {
        lemma_count_map_at(m, f, y, x + 1);
    } else {
        lemma_count_map_at(m, f, y + 1, x);
    }
}

/// Merging is idempotent when no primary is itself merged away: a second pass
/// with the same merge map changes nothing.
pub proof fn lemma_remap_idempotent(merge: Map<usize, usize>, id: usize)
    requires
        forall|q: usize| #[trigger] merge.contains_key(q) ==> !merge.contains_key(merge[q]),
    ensures
        remap(merge, remap(merge, id)) == remap(merge, id),
{
}

/// Every id of a merged map already held cells before merging: cells keep
/// their plate or take that of a plate they touched.
pub proof fn lemma_merged_ids_existed(
    before: Seq<Seq<Seq<usize>>>,
    n: int,
    merge: Map<usize, usize>,
    f: int,
    y: int,
    x: int,
)
    requires
        wf_map(before, n),
        in_grid(n, f, y, x),
        forall|q: usize| #[trigger] merge.contains_key(q) ==> plates_adjacent(before, n, merge[q], q),
    ensures
        exists|a: int, b: int, c: int| in_grid(n, a, b, c) && before[a][b][c] == remap(merge, before[f][y][x]),
{
    let id = before[f][y][x];
    if merge.contains_key(id) {
        let p = merge[id];
        assert(plates_adjacent(before, n, p, id));
        let (a, b, c) = choose|a: int, b: int, c: int| in_grid(n, a, b, c) && #[trigger] edge_at(before, n, a, b, c, p, id);
        if before[a][b][c] != p {
            if c + 1 < n && pair_is(before[a][b][c], before[a][b][c + 1], p, id) {
                assert(before[a][b][c + 1] == p);
                assert(in_grid(n, a, b, c + 1));
            } else {
                assert(before[a][b + 1][c] == p);
                assert(in_grid(n, a, b + 1, c));
            }
        }
    } else {
        assert(in_grid(n, f, y, x));
    }
}

} // verus!



