use particle_life::color_table::ColorTable;

fn rgb_palette(n: usize) -> Vec<[f32; 3]> {
    (0..n).map(|i| [i as f32 / 10.0, 0.5, 1.0]).collect()
}

#[test]
fn new_reads_coefficients_row_by_row() {
    let t = ColorTable::new(rgb_palette(2), &vec![0.5f32, -1.0, 0.25, 1.0]);
    assert_eq!(t.color_count(), 2);
    assert_eq!(t.table(), &vec![vec![0.5, -1.0], vec![0.25, 1.0]]);
    assert_eq!(t.coefficient(0, 1), -1.0);
    assert_eq!(t.coefficient(1, 0), 0.25);
}

#[test]
fn coefficient_is_indexed_self_then_other() {
    let t = ColorTable::new(vec!['r', 'g'], &vec![0.0f32, 1.0, -1.0, 0.0]);
    assert_ne!(t.coefficient(0, 1), t.coefficient(1, 0));
    assert_eq!(t.coefficient(0, 1), 1.0);
    assert_eq!(t.coefficient(1, 0), -1.0);
}

#[test]
fn from_parts_accepts_square_table() {
    let t = ColorTable::from_parts(vec![1u8, 2], vec![vec![1i32, 2], vec![3, 4]]);
    let t = t.unwrap();
    assert_eq!(t.colors(), &vec![1u8, 2]);
    assert_eq!(t.coefficient(1, 0), 3);
}

#[test]
fn from_parts_rejects_wrong_row_count() {
    let t = ColorTable::from_parts(vec![1u8, 2], vec![vec![1i32, 2]]);
    assert!(t.is_none());
}

#[test]
fn from_parts_rejects_short_row() {
    let t = ColorTable::from_parts(vec![1u8, 2], vec![vec![1i32, 2], vec![3]]);
    assert!(t.is_none());
}

#[test]
fn from_parts_accepts_empty() {
    let t = ColorTable::<u8, i32>::from_parts(Vec::new(), Vec::new());
    assert_eq!(t.unwrap().color_count(), 0);
}

#[test]
fn new_random_table_replaces_matrix() {
    let mut t = ColorTable::new(rgb_palette(2), &vec![0.0f32; 4]);
    t.new_random_table(&vec![0.1, 0.2, 0.3, 0.4]);
    assert_eq!(t.table(), &vec![vec![0.1, 0.2], vec![0.3, 0.4]]);
    assert_eq!(t.colors(), &rgb_palette(2));
}

#[test]
fn new_filled_table_fills_everything() {
    let mut t = ColorTable::new(rgb_palette(3), &vec![1.0f32; 9]);
    t.new_filled_table(-0.25);
    assert_eq!(t.table(), &vec![vec![-0.25f32; 3]; 3]);
}

#[test]
fn add_color_keeps_entries_and_fills_new_ones() {
    let mut t = ColorTable::new(vec![10u8, 20], &vec![1i32, 2, 3, 4]);
    t.add_color(30, 0);
    assert_eq!(t.colors(), &vec![10, 20, 30]);
    assert_eq!(t.table(), &vec![vec![1, 2, 0], vec![3, 4, 0], vec![0, 0, 0]]);
}

#[test]
fn add_color_to_empty_palette() {
    let mut t = ColorTable::<u8, f32>::new(Vec::new(), &Vec::new());
    t.add_color(7, 0.0);
    assert_eq!(t.color_count(), 1);
    assert_eq!(t.table(), &vec![vec![0.0]]);
}

#[test]
fn remove_color_truncates_matrix() {
    let mut t = ColorTable::new(vec![10u8, 20, 30], &vec![1i32, 2, 3, 4, 5, 6, 7, 8, 9]);
    t.remove_color();
    assert_eq!(t.colors(), &vec![10, 20]);
    assert_eq!(t.table(), &vec![vec![1, 2], vec![4, 5]]);
}

#[test]
fn remove_color_keeps_last_color() {
    let mut t = ColorTable::new(vec![10u8], &vec![5i32]);
    t.remove_color();
    assert_eq!(t.colors(), &vec![10]);
    assert_eq!(t.table(), &vec![vec![5]]);
}

#[test]
fn add_then_remove_restores_table() {
    let mut t = ColorTable::new(vec![1u8, 2], &vec![0.5f32, -0.5, 1.0, -1.0]);
    t.add_color(3, 0.0);
    t.remove_color();
    assert_eq!(t.table(), &vec![vec![0.5, -0.5], vec![1.0, -1.0]]);
}
