use particle_life::grid::{Candidate, PartitionCell, PartitionGrid};
use particle_life::neighbors::Neighbor;
use particle_life::settings::ParticleWrapping;

fn nb(cell: usize, offset_x: i8, offset_y: i8) -> Neighbor {
    Neighbor { cell, offset_x, offset_y }
}

#[test]
fn partition_cell_new_is_empty() {
    let cell = PartitionCell::new();
    assert!(cell.particles.is_empty());
}

#[test]
fn new_grid_has_empty_cells() {
    let grid = PartitionGrid::new(3);
    assert_eq!(grid.cell_count(), 3);
    for id in 0..9 {
        assert!(grid.cell(id).particles.is_empty());
    }
}

#[test]
fn cell_id_is_row_major() {
    let grid = PartitionGrid::new(4);
    assert_eq!(grid.cell_id(0, 0), 0);
    assert_eq!(grid.cell_id(3, 0), 3);
    assert_eq!(grid.cell_id(1, 2), 9);
    assert_eq!(grid.cell_id(3, 3), 15);
}

#[test]
fn update_lists_every_particle_once() {
    let mut grid = PartitionGrid::new(2);
    let ids = vec![3, 0, 3, 1, 0, 3];
    grid.update(&ids);
    assert_eq!(grid.cell(0).particles, vec![1, 4]);
    assert_eq!(grid.cell(1).particles, vec![3]);
    assert_eq!(grid.cell(2).particles, Vec::<usize>::new());
    assert_eq!(grid.cell(3).particles, vec![0, 2, 5]);
    let mut all: Vec<usize> = (0..4).flat_map(|c| grid.cell(c).particles.clone()).collect();
    all.sort();
    assert_eq!(all, (0..ids.len()).collect::<Vec<_>>());
}

#[test]
fn update_replaces_previous_contents() {
    let mut grid = PartitionGrid::new(2);
    grid.update(&vec![0, 0, 0]);
    grid.update(&vec![1, 2]);
    assert!(grid.cell(0).particles.is_empty());
    assert_eq!(grid.cell(1).particles, vec![0]);
    assert_eq!(grid.cell(2).particles, vec![1]);
}

#[test]
fn update_twice_gives_same_lists() {
    let mut grid = PartitionGrid::new(3);
    let ids = vec![4, 4, 8, 0, 5, 4, 2];
    grid.update(&ids);
    let first: Vec<Vec<usize>> = (0..9).map(|c| grid.cell(c).particles.clone()).collect();
    grid.update(&ids);
    let second: Vec<Vec<usize>> = (0..9).map(|c| grid.cell(c).particles.clone()).collect();
    assert_eq!(first, second);
}

#[test]
fn update_with_no_particles() {
    let mut grid = PartitionGrid::new(2);
    grid.update(&vec![1, 1]);
    grid.update(&Vec::new());
    for c in 0..4 {
        assert!(grid.cell(c).particles.is_empty());
    }
}

#[test]
fn barrier_corner_has_four_cells() {
    let grid = PartitionGrid::new(3);
    let r = grid.neighbors(0, ParticleWrapping::Barrier);
    assert_eq!(r, vec![nb(0, 0, 0), nb(1, 0, 0), nb(4, 0, 0), nb(3, 0, 0)]);
}

#[test]
fn barrier_centre_has_nine_cells() {
    let grid = PartitionGrid::new(3);
    let r = grid.neighbors(4, ParticleWrapping::Barrier);
    assert_eq!(
        r,
        vec![
            nb(4, 0, 0),
            nb(3, 0, 0),
            nb(0, 0, 0),
            nb(6, 0, 0),
            nb(5, 0, 0),
            nb(2, 0, 0),
            nb(8, 0, 0),
            nb(1, 0, 0),
            nb(7, 0, 0)
        ]
    );
}

#[test]
fn barrier_edge_never_has_offsets() {
    let grid = PartitionGrid::new(4);
    for id in 0..16 {
        for e in grid.neighbors(id, ParticleWrapping::Barrier) {
            assert_eq!((e.offset_x, e.offset_y), (0, 0));
            let (x, y) = (id % 4, id / 4);
            let (ex, ey) = (e.cell % 4, e.cell / 4);
            assert!(ex.abs_diff(x) <= 1 && ey.abs_diff(y) <= 1);
        }
    }
}

#[test]
fn wrap_corner_reaches_across_both_edges() {
    let grid = PartitionGrid::new(3);
    let r = grid.neighbors(0, ParticleWrapping::Wrap);
    assert_eq!(
        r,
        vec![
            nb(0, 0, 0),
            nb(2, -1, 0),
            nb(8, -1, -1),
            nb(5, -1, 0),
            nb(1, 0, 0),
            nb(7, 0, -1),
            nb(4, 0, 0),
            nb(6, 0, -1),
            nb(3, 0, 0)
        ]
    );
}

#[test]
fn wrap_top_right_corner_offsets_are_positive() {
    let grid = PartitionGrid::new(3);
    let r = grid.neighbors(8, ParticleWrapping::Wrap);
    assert_eq!(r[4], nb(6, 1, 0));
    assert_eq!(r[6], nb(0, 1, 1));
    assert_eq!(r[8], nb(2, 0, 1));
}

#[test]
fn wrap_single_cell_sees_itself_nine_times() {
    let grid = PartitionGrid::new(1);
    let r = grid.neighbors(0, ParticleWrapping::Wrap);
    assert_eq!(r.len(), 9);
    assert!(r.iter().all(|e| e.cell == 0));
    assert_eq!(r[0], nb(0, 0, 0));
    assert_eq!(r[2], nb(0, -1, -1));
    assert_eq!(r[6], nb(0, 1, 1));
}

#[test]
fn wrap_particle_across_seam_is_a_candidate() {
    let mut grid = PartitionGrid::new(4);
    // particle 0 on the left edge of row 1, particle 1 on its right edge
    let ids = vec![grid.cell_id(0, 1), grid.cell_id(3, 1)];
    grid.update(&ids);
    let from_left = grid.candidates(ids[0], ParticleWrapping::Wrap);
    assert!(from_left.contains(&Candidate { particle: 1, offset_x: -1, offset_y: 0 }));
    let from_right = grid.candidates(ids[1], ParticleWrapping::Wrap);
    assert!(from_right.contains(&Candidate { particle: 0, offset_x: 1, offset_y: 0 }));
}

#[test]
fn barrier_particle_across_seam_is_not_a_candidate() {
    let mut grid = PartitionGrid::new(4);
    let ids = vec![grid.cell_id(0, 1), grid.cell_id(3, 1)];
    grid.update(&ids);
    let from_left = grid.candidates(ids[0], ParticleWrapping::Barrier);
    assert_eq!(from_left, vec![Candidate { particle: 0, offset_x: 0, offset_y: 0 }]);
    assert!(from_left.iter().all(|c| c.offset_x == 0 && c.offset_y == 0));
}

#[test]
fn candidates_follow_neighbour_order() {
    let mut grid = PartitionGrid::new(2);
    grid.update(&vec![1, 0, 3, 0, 2]);
    let r = grid.candidates(0, ParticleWrapping::Barrier);
    let particles: Vec<usize> = r.iter().map(|c| c.particle).collect();
    assert_eq!(particles, vec![1, 3, 0, 2, 4]);
}

#[test]
fn scatter_writes_each_particle_from_its_cell() {
    let mut grid = PartitionGrid::new(2);
    grid.update(&vec![2, 0, 2, 3]);
    let mut values = vec![0i32; 4];
    let per_cell = vec![vec![11], vec![], vec![20, 22], vec![33]];
    grid.scatter(&mut values, &per_cell);
    assert_eq!(values, vec![20, 11, 22, 33]);
}

#[test]
fn scatter_works_with_float_pairs() {
    let mut grid = PartitionGrid::new(1);
    grid.update(&vec![0, 0]);
    let mut values = vec![[0.0f32, 0.0]; 2];
    grid.scatter(&mut values, &vec![vec![[1.5, -2.0], [0.25, 4.0]]]);
    assert_eq!(values, vec![[1.5, -2.0], [0.25, 4.0]]);
}

#[test]
fn totals_follow_last_rebuild() {
    let mut grid = PartitionGrid::new(5);
    assert_eq!(grid.cell_total(), 25);
    assert_eq!(grid.particle_total(), 0);
    grid.update(&vec![24, 0, 12]);
    assert_eq!(grid.particle_total(), 3);
    assert_eq!(grid.cell(24).particles, vec![0]);
}

#[test]
fn wrap_particle_across_column_seam_is_a_candidate() {
    let mut grid = PartitionGrid::new(4);
    // particle 0 at the bottom of column 2, particle 1 at its top
    let ids = vec![grid.cell_id(2, 0), grid.cell_id(2, 3)];
    grid.update(&ids);
    let from_bottom = grid.candidates(ids[0], ParticleWrapping::Wrap);
    assert!(from_bottom.contains(&Candidate { particle: 1, offset_x: 0, offset_y: -1 }));
    let from_top = grid.candidates(ids[1], ParticleWrapping::Wrap);
    assert!(from_top.contains(&Candidate { particle: 0, offset_x: 0, offset_y: 1 }));
}
