use vstd::prelude::*;

verus! {

/// A six-face grid `[face][y][x]` viewed as nested sequences.
pub open spec fn grid3<T>(g: &Vec<Vec<Vec<T>>>) -> Seq<Seq<Seq<T>>> {
    Seq::new(g@.len(), |f: int| Seq::new(g@[f]@.len(), |y: int| g@[f]@[y]@))
}

/// Six faces of `n` rows of `n` cells.
pub open spec fn wf3<T>(g: Seq<Seq<Seq<T>>>, n: int) -> bool {
    &&& g.len() == 6
    &&& forall|f: int| 0 <= f < 6 ==> (#[trigger] g[f]).len() == n
    &&& forall|f: int, y: int| 0 <= f < 6 && 0 <= y < n ==> (#[trigger] g[f][y]).len() == n
}

/// `g` with cell `(f, y, x)` set to `v`.
pub open spec fn set3<T>(g: Seq<Seq<Seq<T>>>, f: int, y: int, x: int, v: T) -> Seq<Seq<Seq<T>>> {
    g.update(f, g[f].update(y, g[f][y].update(x, v)))
}

/// Six faces of `n` by `n` cells, each holding `v`.
pub open spec fn filled3<T>(n: int, v: T) -> Seq<Seq<Seq<T>>> {
    Seq::new(6, |f: int| Seq::new(n as nat, |y: int| Seq::new(n as nat, |x: int| v)))
}

/// Reads cell `(f, y, x)`.
pub fn get3<T: Copy>(g: &Vec<Vec<Vec<T>>>, f: usize, y: usize, x: usize) -> (v: T)
    requires
        f < grid3(g).len(),
        y < grid3(g)[f as int].len(),
        x < grid3(g)[f as int][y as int].len(),
    ensures
        v == grid3(g)[f as int][y as int][x as int],
{
    g[f][y][x]
}

/// Writes cell `(f, y, x)`.
pub fn put3<T>(g: &mut Vec<Vec<Vec<T>>>, f: usize, y: usize, x: usize, v: T)
    requires
        f < grid3(old(g)).len(),
        y < grid3(old(g))[f as int].len(),
        x < grid3(old(g))[f as int][y as int].len(),
    ensures
        grid3(final(g)) == set3(grid3(old(g)), f as int, y as int, x as int, v),
{
    let ghost g0 = grid3(g);
    g[f][y][x] = v;
    assert(grid3(g) =~= set3(g0, f as int, y as int, x as int, v)) by {
        assert forall|a: int| 0 <= a < g@.len() implies #[trigger] grid3(g)[a] =~= set3(g0, f as int, y as int, x as int, v)[a] by {
            if a == f as int {
                assert forall|b: int| 0 <= b < g@[a]@.len() implies #[trigger] grid3(g)[a][b] =~= set3(g0, f as int, y as int, x as int, v)[a][b] by {
                }
            }
        }
    }
}

/// A grid of six faces of `n` by `n` cells, each holding `v`.
pub fn new_grid3<T: Copy>(n: usize, v: T) -> (g: Vec<Vec<Vec<T>>>)
    ensures
        grid3(&g) == filled3(n as int, v),
{
    let mut g: Vec<Vec<Vec<T>>> = Vec::new();
    let mut f: usize = 0;
    while f < 6
        invariant
            f <= 6,
            g@.len() == f,
            forall|a: int| 0 <= a < f ==> (#[trigger] g@[a])@.len() == n,
            forall|a: int, b: int| 0 <= a < f && 0 <= b < n ==> #[trigger] g@[a]@[b]@ == Seq::new(n as nat, |x: int| v),
        decreases 6 - f,
    {
        let mut face: Vec<Vec<T>> = Vec::new();
        let mut y: usize = 0;
        while y < n
            invariant
                y <= n,
                face@.len() == y,
                forall|b: int| 0 <= b < y ==> #[trigger] face@[b]@ == Seq::new(n as nat, |x: int| v),
            decreases n - y,
        {
            let mut row: Vec<T> = Vec::new();
            let mut x: usize = 0;
            while x < n
                invariant
                    x <= n,
                    row@ == Seq::new(x as nat, |c: int| v),
                decreases n - x,
            {
                row.push(v);
                x += 1;
                assert(row@ =~= Seq::new(x as nat, |c: int| v));
            }
            face.push(row);
            y += 1;
        }
        g.push(face);
        f += 1;
    }
    assert(grid3(&g) =~= filled3(n as int, v)) by {
        assert forall|a: int| 0 <= a < 6 implies #[trigger] grid3(&g)[a] =~= filled3(n as int, v)[a] by {
            assert forall|b: int| 0 <= b < n implies #[trigger] grid3(&g)[a][b] =~= filled3(n as int, v)[a][b] by {}
        }
    }
    g
}

} // verus!
