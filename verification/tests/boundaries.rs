use planetgen::boundaries::{boundary_width, BoundaryData, BoundaryType, EdgeClasses};
use planetgen::grid::{get3, new_grid3, put3};
use planetgen::plate_map::PlateMap;

use BoundaryType::{Convergent as C, Divergent as D, Transform as T};

/// Face 0 of a 5-by-5 map holds plate 1 in its centre cell; the rest is plate 0.
fn centre_map() -> PlateMap {
    let mut m = vec![vec![vec![0usize; 5]; 5]; 6];
    m[0][2][2] = 1;
    m
}

/// Every edge between two plates classified `Divergent`, except the four
/// edges into the centre cell, classified from the neighbour's side.
fn centre_classes(m: &PlateMap) -> EdgeClasses {
    let n = 5i64;
    let steps = [(1i64, 0i64), (0, 1), (-1, 0), (0, -1)];
    let mut cls: EdgeClasses = vec![vec![vec![[None; 4]; 5]; 5]; 6];
    for f in 0..6 {
        for y in 0..5i64 {
            for x in 0..5i64 {
                for (d, (dx, dy)) in steps.iter().enumerate() {
                    let (nx, ny) = (x + dx, y + dy);
                    if nx >= 0 && ny >= 0 && nx < n && ny < n
                        && m[f][ny as usize][nx as usize] != m[f][y as usize][x as usize]
                    {
                        cls[f][y as usize][x as usize][d] = Some(D);
                    }
                }
            }
        }
    }
    cls[0][1][2][1] = Some(C);
    cls[0][2][1][0] = Some(D);
    cls[0][2][3][2] = Some(T);
    cls[0][3][2][3] = Some(C);
    cls
}

#[test]
fn boundary_width_is_five_percent_at_least_three() {
    assert_eq!(boundary_width(0), 3);
    assert_eq!(boundary_width(10), 3);
    assert_eq!(boundary_width(79), 3);
    assert_eq!(boundary_width(80), 4);
    assert_eq!(boundary_width(100), 5);
    assert_eq!(boundary_width(257), 12);
}

#[test]
fn calculate_marks_and_spreads_around_a_single_cell_plate() {
    let m = centre_map();
    let cls = centre_classes(&m);
    let data = BoundaryData::calculate(5, &m, &cls);
    let types = vec![
        vec![Some(C), Some(C), Some(C), Some(C), Some(C)],
        vec![Some(C), Some(C), Some(C), Some(C), Some(C)],
        vec![Some(D), Some(D), Some(C), Some(T), Some(T)],
        vec![Some(D), Some(D), Some(C), Some(T), Some(T)],
        vec![Some(D), Some(D), Some(C), Some(T), Some(T)],
    ];
    let dists = vec![
        vec![Some(3), Some(2), Some(1), Some(2), Some(3)],
        vec![Some(2), Some(1), Some(0), Some(1), Some(2)],
        vec![Some(1), Some(0), Some(0), Some(0), Some(1)],
        vec![Some(2), Some(1), Some(0), Some(1), Some(2)],
        vec![Some(3), Some(2), Some(1), Some(2), Some(3)],
    ];
    assert_eq!(data.boundaries[0], types);
    assert_eq!(data.boundary_distances[0], dists);
    for f in 1..6 {
        assert_eq!(data.boundaries[f], vec![vec![None; 5]; 5]);
        assert_eq!(data.boundary_distances[f], vec![vec![None; 5]; 5]);
    }
    assert_eq!(data.get_boundary(0, 3, 2), Some(T));
    assert_eq!(data.get_boundary(0, 2, 4), Some(C));
    assert_eq!(data.get_boundary(4, 0, 0), None);
}

#[test]
fn calculate_leaves_far_cells_unreached() {
    // A 9-wide face split after column 0: cells more than 3 steps away stay unmarked.
    let mut m = vec![vec![vec![0usize; 9]; 9]; 6];
    for y in 0..9 {
        m[2][y][0] = 1;
    }
    let mut cls: EdgeClasses = vec![vec![vec![[None; 4]; 9]; 9]; 6];
    for y in 0..9 {
        cls[2][y][0][0] = Some(T);
        cls[2][y][1][2] = Some(T);
    }
    let data = BoundaryData::calculate(9, &m, &cls);
    for y in 0..9 {
        let row_d: Vec<Option<usize>> = (0..9)
            .map(|x| if x <= 1 { Some(0) } else if x <= 4 { Some(x - 1) } else { None })
            .collect();
        assert_eq!(data.boundary_distances[2][y], row_d);
        let row_t: Vec<Option<BoundaryType>> =
            (0..9).map(|x| if x <= 4 { Some(T) } else { None }).collect();
        assert_eq!(data.boundaries[2][y], row_t);
    }
}

#[test]
fn calculate_without_classes_marks_nothing() {
    let m = centre_map();
    let cls: EdgeClasses = vec![vec![vec![[None; 4]; 5]; 5]; 6];
    let data = BoundaryData::calculate(5, &m, &cls);
    for f in 0..6 {
        assert_eq!(data.boundaries[f], vec![vec![None; 5]; 5]);
        assert_eq!(data.boundary_distances[f], vec![vec![None; 5]; 5]);
    }
}

#[test]
fn grid_helpers_read_and_write_cells() {
    let mut g = new_grid3(3, 0u8);
    assert_eq!(g.len(), 6);
    assert_eq!(g[5], vec![vec![0u8; 3]; 3]);
    put3(&mut g, 4, 2, 1, 7);
    assert_eq!(get3(&g, 4, 2, 1), 7);
    assert_eq!(get3(&g, 4, 1, 2), 0);
}
