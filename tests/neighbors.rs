use particle_life::neighbors::{neighbor_cells, Neighbor};
use particle_life::settings::ParticleWrapping;

#[test]
fn neighbor_cells_barrier_right_edge() {
    // cell (2, 1) of a 3 by 3 grid
    let r = neighbor_cells(5, 3, ParticleWrapping::Barrier);
    let cells: Vec<usize> = r.iter().map(|e| e.cell).collect();
    assert_eq!(cells, vec![5, 4, 1, 7, 2, 8]);
}

#[test]
fn neighbor_cells_wrap_two_by_two() {
    let r = neighbor_cells(0, 2, ParticleWrapping::Wrap);
    assert_eq!(r.len(), 9);
    assert_eq!(r[1], Neighbor { cell: 1, offset_x: -1, offset_y: 0 });
    assert_eq!(r[4], Neighbor { cell: 1, offset_x: 0, offset_y: 0 });
    assert_eq!(r[7], Neighbor { cell: 2, offset_x: 0, offset_y: -1 });
    assert_eq!(r[8], Neighbor { cell: 2, offset_x: 0, offset_y: 0 });
}

#[test]
fn neighbor_cells_wrap_interior_has_no_offsets() {
    let r = neighbor_cells(12, 5, ParticleWrapping::Wrap);
    assert!(r.iter().all(|e| e.offset_x == 0 && e.offset_y == 0));
    let mut cells: Vec<usize> = r.iter().map(|e| e.cell).collect();
    cells.sort();
    assert_eq!(cells, vec![6, 7, 8, 11, 12, 13, 16, 17, 18]);
}
