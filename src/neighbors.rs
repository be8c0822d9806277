use vstd::arithmetic::div_mod::lemma_fundamental_div_mod_converse;
use vstd::prelude::*;

use crate::settings::ParticleWrapping;

verus! {

/// A cell to visit around another, with the multiple of the world's size to
/// add on each axis to the positions of the particles in it.
#[derive(Clone, Copy, Debug, PartialEq, Eq, Structural)]
pub struct Neighbor {
    pub cell: usize,
    pub offset_x: i8,
    pub offset_y: i8,
}

/// The `k`-th of the nine steps visited around a cell, the cell itself first.
pub open spec fn direction(k: int) -> (int, int) {
    if k == 0 {
        (0, 0)
    } else if k == 1 {
        (-1, 0)
    } else if k == 2 {
        (-1, -1)
    } else if k == 3 {
        (-1, 1)
    } else if k == 4 {
        (1, 0)
    } else if k == 5 {
        (1, -1)
    } else if k == 6 {
        (1, 1)
    } else if k == 7 {
        (0, -1)
    } else {
        (0, 1)
    }
}

/// Index `i + d` on an axis of `n` cells whose ends are joined.
pub open spec fn wrap_axis(i: int, d: int, n: int) -> int {
    if i + d < 0 {
        i + d + n
    } else if i + d >= n {
        i + d - n
    } else {
        i + d
    }
}

/// The multiple of the world's size that a step `d` from index `i` crosses
/// on an axis of `n` cells: `d` where it leaves the axis, else 0.
pub open spec fn wrap_offset(i: int, d: int, n: int) -> int {
    if 0 <= i + d < n {
        0
    } else {
        d
    }
}

/// The neighbour one step `d` from cell `(x, y)` of an `n` by `n` grid: under
/// `Barrier` only where it lies in the grid, with no offset; under `Wrap`
/// always, through the opposite edge where the step leaves the grid.
pub open spec fn neighbor_at(
    x: int,
    y: int,
    n: int,
    wrapping: ParticleWrapping,
    d: (int, int),
) -> Option<Neighbor> {
    match wrapping {
        ParticleWrapping::Barrier => {
            if 0 <= x + d.0 < n && 0 <= y + d.1 < n {
                Some(Neighbor { cell: ((y + d.1) * n + (x + d.0)) as usize, offset_x: 0, offset_y: 0 })
            } else {
                None
            }
        },
        ParticleWrapping::Wrap => Some(
            Neighbor {
                cell: (wrap_axis(y, d.1, n) * n + wrap_axis(x, d.0, n)) as usize,
                offset_x: wrap_offset(x, d.0, n) as i8,
                offset_y: wrap_offset(y, d.1, n) as i8,
            },
        ),
    }
}

/// The neighbours of cell `(x, y)` reached by the first `k` steps.
pub open spec fn neighbor_list(
    x: int,
    y: int,
    n: int,
    wrapping: ParticleWrapping,
    k: int,
) -> Seq<Neighbor>
    decreases k,
{
    if k <= 0 {
        Seq::empty()
    } else {
        let prev = neighbor_list(x, y, n, wrapping, k - 1);
        match neighbor_at(x, y, n, wrapping, direction(k - 1)) {
            Some(e) => prev.push(e),
            None => prev,
        }
    }
}

/// The cells whose particles a particle of cell `id` may interact with.
pub open spec fn neighbors_of(id: int, n: int, wrapping: ParticleWrapping) -> Seq<Neighbor> {
    neighbor_list(id % n, id / n, n, wrapping, 9)
}

fn step_of(k: usize) -> (r: (i8, i8))
    requires
        k < 9,
    ensures
        r.0 as int == direction(k as int).0,
        r.1 as int == direction(k as int).1,
{
    if k == 0 {
        (0, 0)
    } else if k == 1 {
        (-1, 0)
    } else if k == 2 {
        (-1, -1)
    } else if k == 3 {
        (-1, 1)
    } else if k == 4 {
        (1, 0)
    } else if k == 5 {
        (1, -1)
    } else if k == 6 {
        (1, 1)
    } else if k == 7 {
        (0, -1)
    } else {
        (0, 1)
    }
}

/// Index `i + d` on an axis of `n` cells, where it lies on the axis.
fn bounded_step(i: usize, d: i8, n: usize) -> (r: Option<usize>)
    requires
        i < n,
        -1 <= d <= 1,
    ensures
        r == (if 0 <= i + d < n { Some((i + d) as usize) } else { None::<usize> }),
{
    if d < 0 {
        if i >= 1 { Some(i - 1) } else { None }
    } else if d > 0 {
        if i + 1 < n { Some(i + 1) } else { None }
    } else {
        Some(i)
    }
}

/// Index `i + d` on an axis of `n` cells whose ends are joined, and the
/// multiple of the world's size crossed.
fn wrapped_step(i: usize, d: i8, n: usize) -> (r: (usize, i8))
    requires
        i < n,
        -1 <= d <= 1,
    ensures
        r.0 as int == wrap_axis(i as int, d as int, n as int),
        r.0 < n,
        r.1 as int == wrap_offset(i as int, d as int, n as int),
{
    if d < 0 {
        if i >= 1 { (i - 1, 0) } else { (n - 1, -1) }
    } else if d > 0 {
        if i + 1 < n { (i + 1, 0) } else { (i + 1 - n, 1) }
    } else {
        (i, 0)
    }
}

/// The cells to visit for the particles of cell `id` of an `n` by `n` grid,
/// the cell itself first, under the given topology.
pub fn neighbor_cells(id: usize, n: usize, wrapping: ParticleWrapping) -> (r: Vec<Neighbor>)
    requires
        n > 0,
        n * n <= usize::MAX,
        id < n * n,
    ensures
        r@ == neighbors_of(id as int, n as int, wrapping),
{
    let x = id % n;
    let y = id / n;
    proof {
        assert(x < n && y < n) by (nonlinear_arith)
            requires
                x == id % n,
                y == id / n,
                id < n * n,
                n > 0,
        ;
    }
    let mut r: Vec<Neighbor> = Vec::new();
    let mut k: usize = 0;
    while k < 9
        invariant
            k <= 9,
            n * n <= usize::MAX,
            x < n,
            y < n,
            r@ == neighbor_list(x as int, y as int, n as int, wrapping, k as int),
        decreases 9 - k,
    {
        let (dx, dy) = step_of(k);
        match wrapping {
            ParticleWrapping::Barrier => {
                match (bounded_step(x, dx, n), bounded_step(y, dy, n)) {
                    (Some(nx), Some(ny)) => {
                        proof {
                            lemma_cell_in_grid(nx as int, ny as int, n as int);
                        }
                        r.push(Neighbor { cell: ny * n + nx, offset_x: 0, offset_y: 0 });
                    },
                    _ => {},
                }
            },
            ParticleWrapping::Wrap => {
                let (nx, ox) = wrapped_step(x, dx, n);
                let (ny, oy) = wrapped_step(y, dy, n);
                proof {
                    lemma_cell_in_grid(nx as int, ny as int, n as int);
                }
                r.push(Neighbor { cell: ny * n + nx, offset_x: ox, offset_y: oy });
            },
        }
        k += 1;
    }
    r
}

/// Under `Wrap` a cell has nine neighbours, one for each step, each reached
/// through the opposite edge where the step leaves the grid.
pub proof fn lemma_wrap_neighbors(id: int, n: int)
    requires
        n > 0,
        0 <= id < n * n,
    ensures
        neighbors_of(id, n, ParticleWrapping::Wrap).len() == 9,
        forall|k: int|
            0 <= k < 9 ==> Some(#[trigger] neighbors_of(id, n, ParticleWrapping::Wrap)[k]) == neighbor_at(
                id % n,
                id / n,
                n,
                ParticleWrapping::Wrap,
                direction(k),
            ),
{
    let (x, y) = (id % n, id / n);
    let w = ParticleWrapping::Wrap;
    reveal_with_fuel(neighbor_list, 10);
    assert forall|k: int| 0 <= k <= 9 implies #[trigger] neighbor_list(x, y, n, w, k).len() == k && forall|j: int|
        0 <= j < k ==> Some(neighbor_list(x, y, n, w, k)[j]) == neighbor_at(x, y, n, w, direction(j)) by {
        lemma_wrap_prefix(x, y, n, k);
    }
    assert(neighbor_list(x, y, n, w, 9).len() == 9);
}

proof fn lemma_wrap_prefix(x: int, y: int, n: int, k: int)
    requires
        0 <= k,
    ensures
        neighbor_list(x, y, n, ParticleWrapping::Wrap, k).len() == k,
        forall|j: int|
            0 <= j < k ==> Some(#[trigger] neighbor_list(x, y, n, ParticleWrapping::Wrap, k)[j]) == neighbor_at(
                x,
                y,
                n,
                ParticleWrapping::Wrap,
                direction(j),
            ),
    decreases k,
{
    if k > 0 {
        lemma_wrap_prefix(x, y, n, k - 1);
        let prev = neighbor_list(x, y, n, ParticleWrapping::Wrap, k - 1);
        let cur = neighbor_list(x, y, n, ParticleWrapping::Wrap, k);
        assert forall|j: int| 0 <= j < k implies Some(#[trigger] cur[j]) == neighbor_at(
            x,
            y,
            n,
            ParticleWrapping::Wrap,
            direction(j),
        ) by {
            if j < k - 1 {
                assert(cur[j] == prev[j]);
            }
        }
    }
}

/// Under `Wrap` the two ends of every row and of every column see each other
/// across the seam, shifted by one world size: the left end's cell reaches
/// the right end's moved left by the world's size, and the other way round;
/// the same of the bottom and top ends of a column.
pub proof fn lemma_wrap_seams(i: int, n: int)
    requires
        n > 0,
        0 <= i < n,
    ensures
        neighbors_of(i * n, n, ParticleWrapping::Wrap)[1] == (Neighbor {
            cell: (i * n + (n - 1)) as usize,
            offset_x: -1i8,
            offset_y: 0,
        }),
        neighbors_of(i * n + (n - 1), n, ParticleWrapping::Wrap)[4] == (Neighbor {
            cell: (i * n) as usize,
            offset_x: 1,
            offset_y: 0,
        }),
        neighbors_of(i, n, ParticleWrapping::Wrap)[7] == (Neighbor {
            cell: ((n - 1) * n + i) as usize,
            offset_x: 0,
            offset_y: -1i8,
        }),
        neighbors_of((n - 1) * n + i, n, ParticleWrapping::Wrap)[8] == (Neighbor {
            cell: i as usize,
            offset_x: 0,
            offset_y: 1,
        }),
{
    lemma_cell_in_grid(0, i, n);
    lemma_cell_in_grid(n - 1, i, n);
    lemma_cell_in_grid(i, 0, n);
    lemma_cell_in_grid(i, n - 1, n);
    lemma_fundamental_div_mod_converse(i * n, n, i, 0);
    lemma_fundamental_div_mod_converse(i * n + (n - 1), n, i, n - 1);
    lemma_fundamental_div_mod_converse(0 * n + i, n, 0, i);
    lemma_fundamental_div_mod_converse((n - 1) * n + i, n, n - 1, i);
    lemma_wrap_neighbors(i * n, n);
    lemma_wrap_neighbors(i * n + (n - 1), n);
    lemma_wrap_neighbors(i, n);
    lemma_wrap_neighbors((n - 1) * n + i, n);
    assert(0 * n == 0);
    assert((0 - 1 + n) * n + i == (n - 1) * n + i);
}

/// Under `Barrier` no neighbour carries an offset, and each lies at most one
/// column and one row away without crossing an edge: nothing on the far side
/// of the world is ever visited.
pub proof fn lemma_barrier_no_wrap(id: int, n: int)
    requires
        n > 0,
        n * n <= usize::MAX,
        0 <= id < n * n,
    ensures
        forall|j: int|
            0 <= j < neighbors_of(id, n, ParticleWrapping::Barrier).len() ==> {
                let e = #[trigger] neighbors_of(id, n, ParticleWrapping::Barrier)[j];
                &&& e.offset_x == 0
                &&& e.offset_y == 0
                &&& e.cell < n * n
                &&& -1 <= (e.cell as int) % n - id % n <= 1
                &&& -1 <= (e.cell as int) / n - id / n <= 1
            },
{
    lemma_barrier_prefix(id % n, id / n, n, 9);
}

proof fn lemma_barrier_prefix(x: int, y: int, n: int, k: int)
    requires
        n > 0,
        n * n <= usize::MAX,
        0 <= k,
    ensures
        forall|j: int|
            0 <= j < neighbor_list(x, y, n, ParticleWrapping::Barrier, k).len() ==> {
                let e = #[trigger] neighbor_list(x, y, n, ParticleWrapping::Barrier, k)[j];
                &&& e.offset_x == 0
                &&& e.offset_y == 0
                &&& e.cell < n * n
                &&& -1 <= (e.cell as int) % n - x <= 1
                &&& -1 <= (e.cell as int) / n - y <= 1
            },
    decreases k,
{
    if k > 0 {
        lemma_barrier_prefix(x, y, n, k - 1);
        let prev = neighbor_list(x, y, n, ParticleWrapping::Barrier, k - 1);
        let cur = neighbor_list(x, y, n, ParticleWrapping::Barrier, k);
        let d = direction(k - 1);
        if 0 <= x + d.0 < n && 0 <= y + d.1 < n {
            lemma_cell_in_grid(x + d.0, y + d.1, n);
            lemma_fundamental_div_mod_converse((y + d.1) * n + (x + d.0), n, y + d.1, x + d.0);
            assert(cur.last().cell as int == (y + d.1) * n + (x + d.0));
            assert forall|j: int| 0 <= j < cur.len() implies {
                let e = #[trigger] cur[j];
                &&& e.offset_x == 0
                &&& e.offset_y == 0
                &&& e.cell < n * n
                &&& -1 <= (e.cell as int) % n - x <= 1
                &&& -1 <= (e.cell as int) / n - y <= 1
            } by {
                if j < prev.len() {
                    assert(cur[j] == prev[j]);
                }
            }
        }
    }
}

/// Every neighbour of a cell of the grid is a cell of the grid.
pub(crate) proof fn lemma_neighbor_cells(id: int, n: int, wrapping: ParticleWrapping)
    requires
        n > 0,
        0 <= id < n * n,
        n * n <= usize::MAX,
    ensures
        forall|t: int|
            0 <= t < neighbors_of(id, n, wrapping).len() ==> (#[trigger] neighbors_of(id, n, wrapping)[t]).cell < n
                * n,
{
    match wrapping {
        ParticleWrapping::Barrier => lemma_barrier_no_wrap(id, n),
        ParticleWrapping::Wrap => {
            lemma_wrap_neighbors(id, n);
            assert forall|t: int| 0 <= t < 9 implies (#[trigger] neighbors_of(id, n, wrapping)[t]).cell < n * n by {
                let x = id % n;
                let y = id / n;
                assert(0 <= x < n && 0 <= y < n) by (nonlinear_arith)
                    requires
                        x == id % n,
                        y == id / n,
                        0 <= id < n * n,
                        n > 0,
                ;
                let d = direction(t);
                lemma_cell_in_grid(wrap_axis(x, d.0, n), wrap_axis(y, d.1, n), n);
            }
        },
    }
}

pub(crate) proof fn lemma_cell_in_grid(x: int, y: int, n: int)
    requires
        0 <= x < n,
        0 <= y < n,
    ensures
        0 <= y * n + x < n * n,
{
    assert(y * n + x < n * n) by (nonlinear_arith)
        requires
            0 <= x < n,
            0 <= y < n,
    ;
    assert(0 <= y * n) by (nonlinear_arith)
        requires
            0 <= y,
            0 <= n,
    ;
}

} // verus!
