use vstd::prelude::*;

use crate::neighbors::{
    lemma_barrier_no_wrap, lemma_cell_in_grid, lemma_neighbor_cells, lemma_wrap_neighbors, lemma_wrap_seams,
    neighbor_cells, neighbors_of, Neighbor,
};
use crate::settings::ParticleWrapping;

verus! {

/// Capacity reserved for the particle list of a fresh cell.
pub const DEFAULT_NUM_PARTICLES_PER_CELL: usize = 256;

/// One square region of the world: the indices of the particles inside it.
#[derive(Clone, Debug, PartialEq, Eq, Default)]
pub struct PartitionCell {
    pub particles: Vec<usize>,
}

impl PartitionCell {
    /// An empty cell.
    pub fn new() -> (r: Self)
        ensures
            r.particles@ == Seq::<usize>::empty(),
    {
        PartitionCell { particles: Vec::with_capacity(DEFAULT_NUM_PARTICLES_PER_CELL) }
    }
}

/// The indices `i < k` with `ids[i] == c`, in increasing order: the list of
/// cell `c` when particle `i` lies in cell `ids[i]`.
pub open spec fn members(ids: Seq<usize>, c: int, k: int) -> Seq<usize>
    decreases k,
{
    if k <= 0 {
        Seq::empty()
    } else if ids[k - 1] as int == c {
        members(ids, c, k - 1).push((k - 1) as usize)
    } else {
        members(ids, c, k - 1)
    }
}

/// The cell lists of a grid of `n_cells` cells in which particle `i` lies in
/// cell `ids[i]`.
pub open spec fn partition_of(ids: Seq<usize>, n_cells: nat) -> Seq<Seq<usize>> {
    Seq::new(n_cells, |c: int| members(ids, c, ids.len() as int))
}

/// A particle to visit, with the multiple of the world's size to add on each
/// axis to its position.
#[derive(Clone, Copy, Debug, PartialEq, Eq, Structural)]
pub struct Candidate {
    pub particle: usize,
    pub offset_x: i8,
    pub offset_y: i8,
}

/// The particles of the neighbour `e`, given the cell lists, each carrying
/// the neighbour's offset.
pub open spec fn visits_of(lists: Seq<Seq<usize>>, e: Neighbor) -> Seq<Candidate> {
    lists[e.cell as int].map_values(|q: usize| Candidate { particle: q, offset_x: e.offset_x, offset_y: e.offset_y })
}

/// The particles of the neighbours `nbrs`, in order, given the cell lists.
pub open spec fn candidate_list(lists: Seq<Seq<usize>>, nbrs: Seq<Neighbor>) -> Seq<Candidate>
    decreases nbrs.len(),
{
    if nbrs.len() == 0 {
        Seq::empty()
    } else {
        candidate_list(lists, nbrs.drop_last()) + visits_of(lists, nbrs.last())
    }
}

/// A square grid of `cell_count * cell_count` cells, stored row by row, each
/// listing the particles inside it.
pub struct PartitionGrid {
    cells: Vec<PartitionCell>,
    cell_count: usize,
    particle_count: usize,
    /// The cell of each particle at the last rebuild.
    assignment: Ghost<Seq<usize>>,
}

impl PartitionGrid {
    /// The particle list of each cell.
    pub closed spec fn lists(&self) -> Seq<Seq<usize>> {
        Seq::new(self.cells@.len(), |c: int| self.cells@[c].particles@)
    }

    /// The number of cells along each axis.
    pub closed spec fn side(&self) -> nat {
        self.cell_count as nat
    }

    /// The cell of each particle at the last rebuild.
    pub closed spec fn assignment(&self) -> Seq<usize> {
        self.assignment@
    }

    /// The number of particles at the last rebuild.
    pub open spec fn particle_count(&self) -> nat {
        self.assignment().len()
    }

    /// The number of cells.
    pub open spec fn num_cells(&self) -> nat {
        self.side() * self.side()
    }

    pub closed spec fn wf(&self) -> bool {
        &&& self.cell_count > 0
        &&& self.cells@.len() == self.cell_count * self.cell_count
        &&& self.assignment@.len() == self.particle_count
        &&& forall|i: int| 0 <= i < self.assignment@.len() ==> self.assignment@[i] < self.cells@.len()
        &&& self.lists() == partition_of(self.assignment@, self.cells@.len())
    }

    /// A grid of `cell_count` by `cell_count` empty cells.
    pub fn new(cell_count: usize) -> (r: Self)
        requires
            cell_count > 0,
            cell_count * cell_count <= usize::MAX,
        ensures
            r.wf(),
            r.side() == cell_count,
            r.particle_count() == 0,
            r.lists() == Seq::new(r.num_cells(), |c: int| Seq::<usize>::empty()),
    {
        let n = cell_count * cell_count;
        let mut cells: Vec<PartitionCell> = Vec::new();
        let mut c: usize = 0;
        while c < n
            invariant
                c <= n,
                cells@.len() == c,
                forall|j: int| 0 <= j < c ==> (#[trigger] cells@[j]).particles@ == Seq::<usize>::empty(),
            decreases n - c,
        {
            cells.push(PartitionCell::new());
            c += 1;
        }
        let r = PartitionGrid { cells, cell_count, particle_count: 0, assignment: Ghost(Seq::empty()) };
        assert(r.lists() =~= partition_of(Seq::empty(), n as nat));
        assert(r.lists() =~= Seq::new(r.num_cells(), |c: int| Seq::<usize>::empty()));
        r
    }

    /// The number of cells along each axis.
    pub fn cell_count(&self) -> (r: usize)
        ensures
            r == self.side(),
    {
        self.cell_count
    }

    /// The number of cells.
    pub fn cell_total(&self) -> (r: usize)
        requires
            self.wf(),
        ensures
            r == self.num_cells(),
    {
        self.cells.len()
    }

    /// The number of particles at the last rebuild.
    pub fn particle_total(&self) -> (r: usize)
        requires
            self.wf(),
        ensures
            r == self.particle_count(),
    {
        self.particle_count
    }

    /// The cell at column `x` and row `y`.
    pub fn cell_id(&self, x: usize, y: usize) -> (r: usize)
        requires
            self.wf(),
            x < self.side(),
            y < self.side(),
        ensures
            r == y * self.side() + x,
            r < self.num_cells(),
    {
        proof {
            self.lemma_fits();
            lemma_cell_in_grid(x as int, y as int, self.cell_count as int);
        }
        y * self.cell_count + x
    }

    /// The cell with index `id`.
    pub fn cell(&self, id: usize) -> (r: &PartitionCell)
        requires
            self.wf(),
            id < self.num_cells(),
        ensures
            r.particles@ == self.lists()[id as int],
    {
        &self.cells[id]
    }

    /// The cells to visit for the particles of cell `id`, the cell itself
    /// first, under the given topology.
    pub fn neighbors(&self, id: usize, wrapping: ParticleWrapping) -> (r: Vec<Neighbor>)
        requires
            self.wf(),
            id < self.num_cells(),
        ensures
            r@ == neighbors_of(id as int, self.side() as int, wrapping),
    {
        proof {
            self.lemma_fits();
        }
        neighbor_cells(id, self.cell_count, wrapping)
    }

    /// Writes `per_cell[c][k]` to the slot of the `k`-th particle of each
    /// cell `c`: the merge after work done cell by cell, sound because each
    /// particle lies in one cell alone.
    pub fn scatter<T: Copy>(&self, values: &mut Vec<T>, per_cell: &Vec<Vec<T>>)
        requires
            self.wf(),
            old(values)@.len() == self.particle_count(),
            per_cell@.len() == self.num_cells(),
            forall|c: int| 0 <= c < per_cell@.len() ==> (#[trigger] per_cell@[c])@.len() == self.lists()[c].len(),
        ensures
            final(values)@.len() == old(values)@.len(),
            forall|c: int, k: int|
                0 <= c < self.num_cells() && 0 <= k < self.lists()[c].len() ==> final(values)@[#[trigger] self.lists()[c][k] as int]
                    == per_cell@[c]@[k],
    {
        let n = self.cells.len();
        let mut c: usize = 0;
        while c < n
            invariant
                self.wf(),
                c <= n,
                n == self.num_cells(),
                values@.len() == self.particle_count(),
                per_cell@.len() == n,
                forall|d: int| 0 <= d < per_cell@.len() ==> (#[trigger] per_cell@[d])@.len() == self.lists()[d].len(),
                forall|d: int, k: int|
                    0 <= d < c && 0 <= k < self.lists()[d].len() ==> values@[#[trigger] self.lists()[d][k] as int]
                        == per_cell@[d]@[k],
            decreases n - c,
        {
            let list = &self.cells[c].particles;
            let row = &per_cell[c];
            assert(list@ == self.lists()[c as int]);
            let mut k: usize = 0;
            while k < list.len()
                invariant
                    self.wf(),
                    c < n,
                    n == self.num_cells(),
                    k <= list@.len(),
                    list@ == self.lists()[c as int],
                    row@ == per_cell@[c as int]@,
                    row@.len() == list@.len(),
                    values@.len() == self.particle_count(),
                    forall|d: int, j: int|
                        0 <= d < c && 0 <= j < self.lists()[d].len() ==> values@[#[trigger] self.lists()[d][j] as int]
                            == per_cell@[d]@[j],
                    forall|j: int| 0 <= j < k ==> values@[#[trigger] self.lists()[c as int][j] as int] == row@[j],
                decreases list@.len() - k,
            {
                let slot = list[k];
                proof {
                    self.lemma_slots_distinct();
                    assert(slot == self.lists()[c as int][k as int]);
                }
                values[slot] = row[k];
                k += 1;
            }
            c += 1;
        }
    }

    /// The grid's cells can be counted in a `usize`.
    proof fn lemma_fits(&self)
        requires
            self.wf(),
        ensures
            self.num_cells() <= usize::MAX,
            self.num_cells() == self.lists().len(),
            self.side() > 0,
    {
        assert(self.cells.len() == self.cells@.len());
    }

    /// The slots of the grid's lists are distinct, and each names a particle
    /// of the last rebuild.
    proof fn lemma_slots_distinct(&self)
        requires
            self.wf(),
        ensures
            forall|c: int, k: int|
                0 <= c < self.num_cells() && 0 <= k < self.lists()[c].len() ==> #[trigger] self.lists()[c][k]
                    < self.particle_count(),
            forall|c1: int, k1: int, c2: int, k2: int|
                0 <= c1 < self.num_cells() && 0 <= k1 < self.lists()[c1].len() && 0 <= c2 < self.num_cells() && 0
                    <= k2 < self.lists()[c2].len() && #[trigger] self.lists()[c1][k1] == #[trigger] self.lists()[c2][k2]
                    ==> c1 == c2 && k1 == k2,
    {
        let ids = self.assignment@;
        let n = self.cells@.len();
        lemma_partition_exact(ids, n);
        assert forall|c: int, k: int|
            0 <= c < self.num_cells() && 0 <= k < self.lists()[c].len() implies #[trigger] self.lists()[c][k]
                < self.particle_count() by {
            assert(self.lists()[c].contains(self.lists()[c][k]));
        }
        assert forall|c1: int, k1: int, c2: int, k2: int|
            0 <= c1 < self.num_cells() && 0 <= k1 < self.lists()[c1].len() && 0 <= c2 < self.num_cells() && 0
                <= k2 < self.lists()[c2].len() && #[trigger] self.lists()[c1][k1] == #[trigger] self.lists()[c2][k2]
                implies c1 == c2 && k1 == k2 by {
            let e = self.lists()[c1][k1];
            assert(self.lists()[c1].contains(e));
            assert(self.lists()[c2].contains(e));
            assert(self.lists()[c1].no_duplicates());
        }
    }

    /// The particles that a particle of cell `id` interacts with, each with
    /// the offset of the cell it was found in: the particles of each
    /// neighbour of `id` in turn, each cell's in the order of its list.
    pub fn candidates(&self, id: usize, wrapping: ParticleWrapping) -> (r: Vec<Candidate>)
        requires
            self.wf(),
            id < self.num_cells(),
        ensures
            r@ == candidate_list(self.lists(), neighbors_of(id as int, self.side() as int, wrapping)),
    {
        let nbrs = self.neighbors(id, wrapping);
        proof {
            self.lemma_fits();
            lemma_neighbor_cells(id as int, self.side() as int, wrapping);
        }
        let mut r: Vec<Candidate> = Vec::new();
        let mut j: usize = 0;
        while j < nbrs.len()
            invariant
                self.wf(),
                j <= nbrs@.len(),
                nbrs@ == neighbors_of(id as int, self.side() as int, wrapping),
                forall|t: int| 0 <= t < nbrs@.len() ==> (#[trigger] nbrs@[t]).cell < self.num_cells(),
                r@ == candidate_list(self.lists(), nbrs@.take(j as int)),
            decreases nbrs@.len() - j,
        {
            let e = nbrs[j];
            let list = &self.cells[e.cell].particles;
            assert(list@ == self.lists()[e.cell as int]);
            let ghost base = r@;
            let mut k: usize = 0;
            while k < list.len()
                invariant
                    k <= list@.len(),
                    r@ == base + visits_of(self.lists(), e).take(k as int),
                    list@ == self.lists()[e.cell as int],
                decreases list@.len() - k,
            {
                r.push(Candidate { particle: list[k], offset_x: e.offset_x, offset_y: e.offset_y });
                k += 1;
                assert(r@ =~= base + visits_of(self.lists(), e).take(k as int));
            }
            assert(nbrs@.take(j + 1).drop_last() =~= nbrs@.take(j as int));
            assert(visits_of(self.lists(), e).take(k as int) =~= visits_of(self.lists(), e));
            j += 1;
        }
        assert(nbrs@.take(j as int) =~= nbrs@);
        r
    }

    /// Empties every cell, then appends each particle `i` to cell `ids[i]`,
    /// in increasing order of `i`.
    pub fn update(&mut self, ids: &Vec<usize>)
        requires
            old(self).wf(),
            forall|i: int| 0 <= i < ids@.len() ==> ids@[i] < old(self).num_cells(),
        ensures
            final(self).wf(),
            final(self).side() == old(self).side(),
            final(self).assignment() == ids@,
            final(self).lists() == partition_of(ids@, final(self).num_cells()),
    {
        let n = self.cells.len();
        let mut c: usize = 0;
        while c < n
            invariant
                c <= n,
                n == self.cells@.len(),
                self.cells@.len() == old(self).cells@.len(),
                self.cell_count == old(self).cell_count,
                forall|j: int| 0 <= j < c ==> (#[trigger] self.cells@[j]).particles@ == Seq::<usize>::empty(),
            decreases n - c,
        {
            self.cells[c].particles.clear();
            c += 1;
        }
        let mut i: usize = 0;
        while i < ids.len()
            invariant
                i <= ids@.len(),
                n == self.cells@.len(),
                self.cells@.len() == old(self).cells@.len(),
                self.cell_count == old(self).cell_count,
                forall|j: int| 0 <= j < ids@.len() ==> ids@[j] < n,
                self.lists() == Seq::new(n as nat, |c: int| members(ids@, c, i as int)),
            decreases ids@.len() - i,
        {
            let c = ids[i];
            let ghost before = self.lists();
            self.cells[c].particles.push(i);
            assert(self.lists() =~= Seq::new(n as nat, |d: int| members(ids@, d, i + 1))) by {
                assert forall|d: int| 0 <= d < n implies #[trigger] self.lists()[d] == members(ids@, d, i + 1) by {
                    assert(before[d] == members(ids@, d, i as int));
                }
            }
            i += 1;
        }
        self.particle_count = ids.len();
        self.assignment = Ghost(ids@);
        assert(self.lists() =~= partition_of(ids@, n as nat));
    }
}

/// What a cell list built from `ids` holds: the indices below `k` that `ids`
/// sends to `c`, each once, in increasing order.
proof fn lemma_members(ids: Seq<usize>, c: int, k: int)
    requires
        0 <= k <= ids.len(),
        ids.len() <= usize::MAX,
    ensures
        forall|j: int|
            0 <= j < members(ids, c, k).len() ==> {
                let e = #[trigger] members(ids, c, k)[j];
                &&& e < k
                &&& ids[e as int] == c
            },
        forall|j1: int, j2: int|
            0 <= j1 < j2 < members(ids, c, k).len() ==> #[trigger] members(ids, c, k)[j1]
                < #[trigger] members(ids, c, k)[j2],
        forall|e: usize|
            #[trigger] members(ids, c, k).contains(e) <==> (e < k && ids[e as int] == c),
    decreases k,
{
    if k > 0 {
        lemma_members(ids, c, k - 1);
        let prev = members(ids, c, k - 1);
        let cur = members(ids, c, k);
        if ids[k - 1] as int == c {
            let last = (k - 1) as usize;
            assert(cur == prev.push(last));
            assert forall|j: int| 0 <= j < cur.len() implies {
                let e = #[trigger] cur[j];
                &&& e < k
                &&& ids[e as int] == c
            } by {
                if j < prev.len() {
                    assert(cur[j] == prev[j]);
                } else {
                    assert(cur[j] == last);
                }
            }
            assert forall|j1: int, j2: int| 0 <= j1 < j2 < cur.len() implies #[trigger] cur[j1]
                < #[trigger] cur[j2] by {
                assert(cur[j1] == prev[j1]);
                if j2 < prev.len() {
                    assert(cur[j2] == prev[j2]);
                } else {
                    assert(cur[j2] == last);
                }
            }
            assert forall|e: usize| #[trigger] cur.contains(e) <==> (e < k && ids[e as int] == c) by {
                if e < k && ids[e as int] == c {
                    if e == last {
                        assert(cur[prev.len() as int] == e);
                    } else {
                        assert(prev.contains(e));
                        let j = choose|j: int| 0 <= j < prev.len() && prev[j] == e;
                        assert(cur[j] == e);
                    }
                }
                if cur.contains(e) {
                    let j = choose|j: int| 0 <= j < cur.len() && cur[j] == e;
                    if j < prev.len() {
                        assert(cur[j] == prev[j]);
                        assert(prev.contains(e));
                    }
                }
            }
        } else {
            assert(cur == prev);
            assert forall|e: usize| #[trigger] cur.contains(e) <==> (e < k && ids[e as int] == c) by {
                if e < k && ids[e as int] == c {
                    assert(e != k - 1);
                    assert(prev.contains(e));
                }
            }
        }
    }
}

/// Every particle of `ids` lies in exactly one list of `partition_of(ids, n)`,
/// the one of its own cell, and no list holds an index twice or one past the
/// particles.
pub proof fn lemma_partition_exact(ids: Seq<usize>, n_cells: nat)
    requires
        ids.len() <= usize::MAX,
        forall|i: int| 0 <= i < ids.len() ==> ids[i] < n_cells,
    ensures
        forall|c: int, e: usize|
            0 <= c < n_cells ==> (#[trigger] partition_of(ids, n_cells)[c].contains(e) <==> (
            e < ids.len() && ids[e as int] == c)),
        forall|c: int| 0 <= c < n_cells ==> (#[trigger] partition_of(ids, n_cells)[c]).no_duplicates(),
        forall|e: usize|
            e < ids.len() ==> #[trigger] partition_of(ids, n_cells)[ids[e as int] as int].contains(e),
{
    assert forall|c: int| 0 <= c < n_cells implies {
        let l = #[trigger] partition_of(ids, n_cells)[c];
        &&& l.no_duplicates()
        &&& forall|e: usize| #[trigger] l.contains(e) <==> (e < ids.len() && ids[e as int] == c)
    } by {
        lemma_members(ids, c, ids.len() as int);
        let l = partition_of(ids, n_cells)[c];
        assert(l == members(ids, c, ids.len() as int));
        assert forall|j1: int, j2: int| 0 <= j1 < l.len() && 0 <= j2 < l.len() && j1 != j2 implies l[j1]
            != l[j2] by {
            if j1 < j2 {
                assert(l[j1] < l[j2]);
            } else {
                assert(l[j2] < l[j1]);
            }
        }
    }
    assert forall|e: usize| e < ids.len() implies #[trigger] partition_of(ids, n_cells)[ids[e as int] as int].contains(e) by {
        let c = ids[e as int] as int;
        assert(partition_of(ids, n_cells)[c].contains(e) <==> (e < ids.len() && ids[e as int] == c));
    }
}

/// Rebuilding twice from the same particle cells gives the same lists both
/// times: `update` does not depend on what the grid held before.
pub proof fn lemma_update_idempotent(first: PartitionGrid, second: PartitionGrid, ids: Seq<usize>)
    requires
        first.lists() == partition_of(ids, first.num_cells()),
        second.side() == first.side(),
        second.lists() == partition_of(ids, second.num_cells()),
    ensures
        second.lists() == first.lists(),
        second.side() == first.side(),
{
}

/// The `k`-th particle of the `j`-th neighbour is among the candidates.
proof fn lemma_candidate_in(lists: Seq<Seq<usize>>, nbrs: Seq<Neighbor>, j: int, k: int)
    requires
        0 <= j < nbrs.len(),
        0 <= k < lists[nbrs[j].cell as int].len(),
    ensures
        candidate_list(lists, nbrs).contains(visits_of(lists, nbrs[j])[k]),
    decreases nbrs.len(),
{
    let prev = candidate_list(lists, nbrs.drop_last());
    let cur = candidate_list(lists, nbrs);
    let v = visits_of(lists, nbrs.last());
    if j < nbrs.len() - 1 {
        assert(nbrs.drop_last()[j] == nbrs[j]);
        lemma_candidate_in(lists, nbrs.drop_last(), j, k);
        let i = choose|i: int| 0 <= i < prev.len() && prev[i] == visits_of(lists, nbrs[j])[k];
        assert(cur[i] == prev[i]);
    } else {
        assert(cur[prev.len() + k] == v[k]);
    }
}

/// Candidates drawn from neighbours without offsets carry no offset.
proof fn lemma_candidates_unshifted(lists: Seq<Seq<usize>>, nbrs: Seq<Neighbor>)
    requires
        forall|j: int| 0 <= j < nbrs.len() ==> (#[trigger] nbrs[j]).offset_x == 0 && nbrs[j].offset_y == 0,
    ensures
        forall|i: int|
            0 <= i < candidate_list(lists, nbrs).len() ==> (#[trigger] candidate_list(lists, nbrs)[i]).offset_x == 0
                && candidate_list(lists, nbrs)[i].offset_y == 0,
    decreases nbrs.len(),
{
    if nbrs.len() > 0 {
        let rest = nbrs.drop_last();
        assert forall|j: int| 0 <= j < rest.len() implies (#[trigger] rest[j]).offset_x == 0 && rest[j].offset_y
            == 0 by {
            assert(rest[j] == nbrs[j]);
        }
        lemma_candidates_unshifted(lists, rest);
        let prev = candidate_list(lists, rest);
        let cur = candidate_list(lists, nbrs);
        assert forall|i: int| 0 <= i < cur.len() implies (#[trigger] cur[i]).offset_x == 0 && cur[i].offset_y
            == 0 by {
            if i < prev.len() {
                assert(cur[i] == prev[i]);
            } else {
                assert(nbrs.last() == nbrs[nbrs.len() - 1]);
            }
        }
    }
}

/// Under `Wrap` a particle at the right end of a row is visited from the
/// left end of that row, moved left by one world size, and a particle at the
/// left end is visited from the right end, moved right by one world size.
pub proof fn lemma_wrap_sees_across(grid: PartitionGrid, row: int, q: usize)
    requires
        grid.wf(),
        0 <= row < grid.side(),
        q < grid.particle_count(),
    ensures
        grid.assignment()[q as int] == row * grid.side() + (grid.side() - 1) ==> candidate_list(
            grid.lists(),
            neighbors_of(row * grid.side(), grid.side() as int, ParticleWrapping::Wrap),
        ).contains(Candidate { particle: q, offset_x: -1i8, offset_y: 0 }),
        grid.assignment()[q as int] == row * grid.side() ==> candidate_list(
            grid.lists(),
            neighbors_of(row * grid.side() + (grid.side() - 1), grid.side() as int, ParticleWrapping::Wrap),
        ).contains(Candidate { particle: q, offset_x: 1, offset_y: 0 }),
{
    let n = grid.side() as int;
    let ids = grid.assignment();
    lemma_partition_exact(ids, (n * n) as nat);
    lemma_wrap_seams(row, n);
    lemma_cell_in_grid(0, row, n);
    lemma_cell_in_grid(n - 1, row, n);
    lemma_wrap_neighbors(row * n, n);
    lemma_wrap_neighbors(row * n + (n - 1), n);
    let c = ids[q as int] as int;
    let l = grid.lists()[c];
    assert(l.contains(q));
    let k = choose|k: int| 0 <= k < l.len() && l[k] == q;
    if c == row * n + (n - 1) {
        let nbrs = neighbors_of(row * n, n, ParticleWrapping::Wrap);
        assert(nbrs[1].cell as int == c);
        lemma_candidate_in(grid.lists(), nbrs, 1, k);
    }
    if c == row * n {
        let nbrs = neighbors_of(row * n + (n - 1), n, ParticleWrapping::Wrap);
        assert(nbrs[4].cell as int == c);
        lemma_candidate_in(grid.lists(), nbrs, 4, k);
    }
}

/// Under `Wrap` a particle at the top end of a column is visited from the
/// bottom end of that column, moved down by one world size, and a particle
/// at the bottom end is visited from the top end, moved up by one world size.
pub proof fn lemma_wrap_sees_across_columns(grid: PartitionGrid, column: int, q: usize)
    requires
        grid.wf(),
        0 <= column < grid.side(),
        q < grid.particle_count(),
    ensures
        grid.assignment()[q as int] == (grid.side() - 1) * grid.side() + column ==> candidate_list(
            grid.lists(),
            neighbors_of(column, grid.side() as int, ParticleWrapping::Wrap),
        ).contains(Candidate { particle: q, offset_x: 0, offset_y: -1i8 }),
        grid.assignment()[q as int] == column ==> candidate_list(
            grid.lists(),
            neighbors_of((grid.side() - 1) * grid.side() + column, grid.side() as int, ParticleWrapping::Wrap),
        ).contains(Candidate { particle: q, offset_x: 0, offset_y: 1 }),
{
    let n = grid.side() as int;
    let ids = grid.assignment();
    lemma_partition_exact(ids, (n * n) as nat);
    lemma_wrap_seams(column, n);
    lemma_cell_in_grid(column, 0, n);
    lemma_cell_in_grid(column, n - 1, n);
    assert(0 * n + column == column);
    lemma_wrap_neighbors(column, n);
    lemma_wrap_neighbors((n - 1) * n + column, n);
    let c = ids[q as int] as int;
    let l = grid.lists()[c];
    assert(l.contains(q));
    let k = choose|k: int| 0 <= k < l.len() && l[k] == q;
    if c == (n - 1) * n + column {
        let nbrs = neighbors_of(column, n, ParticleWrapping::Wrap);
        assert(nbrs[7].cell as int == c);
        lemma_candidate_in(grid.lists(), nbrs, 7, k);
    }
    if c == column {
        let nbrs = neighbors_of((n - 1) * n + column, n, ParticleWrapping::Wrap);
        assert(nbrs[8].cell as int == c);
        lemma_candidate_in(grid.lists(), nbrs, 8, k);
    }
}

/// Under `Barrier` no candidate of any cell carries an offset: nothing is
/// ever seen across an edge.
pub proof fn lemma_barrier_sees_no_wrap(grid: PartitionGrid, id: int)
    requires
        grid.wf(),
        0 <= id < grid.num_cells(),
    ensures
        forall|i: int|
            0 <= i < candidate_list(grid.lists(), neighbors_of(id, grid.side() as int, ParticleWrapping::Barrier)).len()
                ==> {
                let e = #[trigger] candidate_list(
                    grid.lists(),
                    neighbors_of(id, grid.side() as int, ParticleWrapping::Barrier),
                )[i];
                e.offset_x == 0 && e.offset_y == 0
            },
{
    let n = grid.side() as int;
    grid.lemma_fits();
    lemma_barrier_no_wrap(id, n);
    lemma_candidates_unshifted(grid.lists(), neighbors_of(id, n, ParticleWrapping::Barrier));
}

} // verus!
