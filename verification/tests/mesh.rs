use planetgen::mesh::{assign_vertex_indices, grid_triangle_indices, vertex_key, QuantKey};

fn distinct_keys(n: usize) -> Vec<Vec<Vec<QuantKey>>> {
    let mut keys = Vec::new();
    for f in 0..6 {
        let mut face = Vec::new();
        for y in 0..n {
            let mut row = Vec::new();
            for x in 0..n {
                row.push((f as i32, y as i32, x as i32));
            }
            face.push(row);
        }
        keys.push(face);
    }
    keys
}

#[test]
fn vertex_key_packs_shifted_coordinates() {
    let bias: u128 = 1 << 31;
    assert_eq!(vertex_key((0, 0, 0)), (bias << 64) + (bias << 32) + bias);
    assert_eq!(vertex_key((i32::MIN, i32::MIN, i32::MIN)), 0);
    assert_eq!(vertex_key((i32::MAX, i32::MAX, i32::MAX)), (1u128 << 96) - 1);
    assert_eq!(vertex_key((-1, 0, 1)), ((bias - 1) << 64) + (bias << 32) + bias + 1);
}

#[test]
fn vertex_key_separates_neighbouring_positions() {
    assert_ne!(vertex_key((1, 0, 0)), vertex_key((0, 1, 0)));
    assert_ne!(vertex_key((0, 1, 0)), vertex_key((0, 0, 1)));
    assert_ne!(vertex_key((0, 0, -1)), vertex_key((0, -1, 0)));
}

#[test]
fn assign_vertex_indices_numbers_in_scan_order() {
    let keys = distinct_keys(2);
    let (vi, firsts) = assign_vertex_indices(&keys, 2);
    assert_eq!(firsts.len(), 24);
    assert_eq!(vi[0], vec![vec![0, 1], vec![2, 3]]);
    assert_eq!(vi[5], vec![vec![20, 21], vec![22, 23]]);
    assert_eq!(firsts[6], (1, 1, 0));
}

#[test]
fn assign_vertex_indices_shares_equal_positions() {
    let mut keys = distinct_keys(2);
    // face 1's top-left corner coincides with face 0's bottom-right one,
    // and face 2's top row coincides with face 0's bottom row
    keys[1][0][0] = keys[0][1][1];
    keys[2][0][0] = keys[0][1][0];
    keys[2][0][1] = keys[0][1][1];
    let (vi, firsts) = assign_vertex_indices(&keys, 2);
    assert_eq!(vi[0], vec![vec![0, 1], vec![2, 3]]);
    assert_eq!(vi[1], vec![vec![3, 4], vec![5, 6]]);
    assert_eq!(vi[2], vec![vec![2, 3], vec![7, 8]]);
    assert_eq!(firsts.len(), 24 - 3);
    assert_eq!(firsts[3], (0, 1, 1));
    assert_eq!(firsts[4], (1, 0, 1));
}

#[test]
fn grid_triangle_indices_two_triangles_per_quad() {
    let keys = distinct_keys(2);
    let (vi, _) = assign_vertex_indices(&keys, 2);
    let idx = grid_triangle_indices(&vi, 2);
    assert_eq!(idx.len(), 36);
    assert_eq!(&idx[0..6], &[0, 1, 2, 1, 3, 2]);
    assert_eq!(&idx[30..36], &[20, 21, 22, 21, 23, 22]);
}

#[test]
fn grid_triangle_indices_of_three_by_three_faces() {
    let keys = distinct_keys(3);
    let (vi, _) = assign_vertex_indices(&keys, 3);
    let idx = grid_triangle_indices(&vi, 3);
    assert_eq!(idx.len(), 6 * 4 * 6);
    // second quad of the first row of face 0: corners 1, 2, 4, 5
    assert_eq!(&idx[6..12], &[1, 2, 4, 2, 5, 4]);
    // first quad of the second row of face 0: corners 3, 4, 6, 7
    assert_eq!(&idx[12..18], &[3, 4, 6, 4, 7, 6]);
}

#[test]
fn grid_triangle_indices_of_single_cell_faces_is_empty() {
    let keys = distinct_keys(1);
    let (vi, firsts) = assign_vertex_indices(&keys, 1);
    assert_eq!(firsts.len(), 6);
    assert!(grid_triangle_indices(&vi, 1).is_empty());
}
