use planetgen::merging::{available_neighbors, merge_candidates, record_merge, take_shuffled, DRAW_MAX};
use planetgen::generator::{seam_at, PlanetGenerator};
use planetgen::plate_map::{
    apply_plate_merges, build_plate_adjacency, cell, count_plate_areas, majority_smooth, PlateMap,
};
use std::collections::{HashMap, HashSet};

/// A map whose face 0 is `face0` and whose other faces are all `fill`.
fn map_with_face0(face0: Vec<Vec<usize>>, fill: usize) -> PlateMap {
    let n = face0.len();
    let mut m = vec![face0];
    for _ in 1..6 {
        m.push(vec![vec![fill; n]; n]);
    }
    m
}

fn set_of(items: &[usize]) -> HashSet<usize> {
    items.iter().copied().collect()
}

fn generator(selection: u64, two: u64) -> PlanetGenerator {
    PlanetGenerator {
        seed: 2024,
        num_plates: 3,
        num_micro_plates: 0,
        merge_selection_threshold: selection,
        merge_two_neighbors_threshold: two,
    }
}

const ALWAYS: u64 = 1u64 << 53;

#[test]
fn majority_smooth_removes_single_cell_crack() {
    let mut m = map_with_face0(vec![vec![0, 0, 0], vec![0, 1, 0], vec![0, 0, 0]], 0);
    majority_smooth(3, &mut m);
    assert_eq!(m, map_with_face0(vec![vec![0; 3]; 3], 0));
}

#[test]
fn majority_smooth_keeps_uniform_faces() {
    let mut m = map_with_face0(vec![vec![4; 4]; 4], 9);
    majority_smooth(4, &mut m);
    assert_eq!(m, map_with_face0(vec![vec![4; 4]; 4], 9));
}

#[test]
fn majority_smooth_tie_goes_to_first_to_reach_the_count() {
    // Cell (0, 0) sees itself twice and plate 2 twice: plate 1 reaches two votes first.
    let mut m = map_with_face0(vec![vec![1, 2], vec![2, 3]], 5);
    majority_smooth(2, &mut m);
    assert_eq!(m[0], vec![vec![1, 2], vec![2, 3]]);
    assert_eq!(m[3], vec![vec![5, 5], vec![5, 5]]);
}

#[test]
fn majority_smooth_reads_the_unsmoothed_face() {
    // A straight seam: every cell keeps its plate, since each side has the majority nearby.
    let mut m = map_with_face0(
        vec![vec![0, 0, 1, 1], vec![0, 0, 1, 1], vec![0, 0, 1, 1], vec![0, 0, 1, 1]],
        0,
    );
    majority_smooth(4, &mut m);
    assert_eq!(
        m[0],
        vec![vec![0, 0, 1, 1], vec![0, 0, 1, 1], vec![0, 0, 1, 1], vec![0, 0, 1, 1]]
    );
}

#[test]
fn cell_reads_face_row_column() {
    let m = map_with_face0(vec![vec![1, 2], vec![3, 4]], 0);
    assert_eq!(cell(&m, 2, 0, 1, 0), 3);
    assert_eq!(cell(&m, 2, 0, 0, 1), 2);
    assert_eq!(cell(&m, 2, 5, 1, 1), 0);
}

#[test]
fn count_plate_areas_counts_every_cell() {
    let m = map_with_face0(vec![vec![1, 2], vec![2, 2]], 7);
    let areas = count_plate_areas(2, &m);
    let mut expected = HashMap::new();
    expected.insert(1, 1);
    expected.insert(2, 3);
    expected.insert(7, 20);
    assert_eq!(areas, expected);
}

#[test]
fn build_plate_adjacency_records_both_directions() {
    let m = map_with_face0(vec![vec![1, 2, 2], vec![1, 3, 2], vec![1, 1, 1]], 1);
    let adj = build_plate_adjacency(3, &m);
    let mut expected = HashMap::new();
    expected.insert(1, set_of(&[2, 3]));
    expected.insert(2, set_of(&[1, 3]));
    expected.insert(3, set_of(&[1, 2]));
    assert_eq!(adj, expected);
}

#[test]
fn build_plate_adjacency_of_uniform_map_is_empty() {
    let m = map_with_face0(vec![vec![0; 3]; 3], 0);
    assert!(build_plate_adjacency(3, &m).is_empty());
}

#[test]
fn build_plate_adjacency_ignores_cross_face_contacts() {
    // Faces 0 and 1 hold different plates but never touch within a face.
    let mut m = map_with_face0(vec![vec![8; 2]; 2], 8);
    m[1] = vec![vec![9; 2]; 2];
    assert!(build_plate_adjacency(2, &m).is_empty());
}

#[test]
fn apply_plate_merges_remaps_merged_ids_only() {
    let mut m = map_with_face0(vec![vec![1, 2], vec![3, 4]], 4);
    let mut merge = HashMap::new();
    merge.insert(2, 1);
    merge.insert(4, 3);
    apply_plate_merges(2, &mut m, &merge);
    assert_eq!(m, map_with_face0(vec![vec![1, 1], vec![3, 3]], 3));
}

#[test]
fn apply_plate_merges_twice_changes_nothing_more() {
    let mut m = map_with_face0(vec![vec![1, 2], vec![3, 4]], 4);
    let mut merge = HashMap::new();
    merge.insert(2, 1);
    merge.insert(4, 3);
    apply_plate_merges(2, &mut m, &merge);
    let once = m.clone();
    apply_plate_merges(2, &mut m, &merge);
    assert_eq!(m, once);
}

#[test]
fn merge_candidates_orders_by_area_then_id() {
    let mut adj = HashMap::new();
    adj.insert(5, set_of(&[6]));
    adj.insert(6, set_of(&[5, 7]));
    adj.insert(7, set_of(&[6]));
    adj.insert(8, HashSet::new());
    adj.insert(3, set_of(&[6]));
    let mut areas = HashMap::new();
    areas.insert(5, 10);
    areas.insert(6, 30);
    areas.insert(7, 10);
    areas.insert(8, 99);
    // plate 3 has no recorded area and counts as zero
    assert_eq!(merge_candidates(&adj, &areas), vec![6, 5, 7, 3]);
}

#[test]
fn take_shuffled_follows_fisher_yates_swaps() {
    // step 1 swaps positions 2 and 0, step 2 leaves position 1 in place
    assert_eq!(take_shuffled(vec![10, 20, 30], &vec![0, 1], 2), vec![30, 20]);
    assert_eq!(take_shuffled(vec![10, 20, 30], &vec![2, 0], 3), vec![20, 10, 30]);
    assert_eq!(take_shuffled(vec![10, 20, 30], &vec![1, 1], 1), vec![10]);
    assert_eq!(take_shuffled(vec![10], &vec![], 2), vec![10]);
    assert_eq!(take_shuffled(vec![], &vec![], 2), Vec::<usize>::new());
}

#[test]
fn selection_with_certain_draws_merges_down_a_chain() {
    let mut adj = HashMap::new();
    adj.insert(0, set_of(&[1]));
    adj.insert(1, set_of(&[0, 2]));
    adj.insert(2, set_of(&[1]));
    let mut areas = HashMap::new();
    areas.insert(0, 10);
    areas.insert(1, 5);
    areas.insert(2, 1);
    let merge = generator(ALWAYS, 0).select_plates_for_merging_probabilistic(&adj, &areas);
    let mut expected = HashMap::new();
    expected.insert(1, 0);
    assert_eq!(merge, expected);
}

#[test]
fn selection_with_two_neighbors_takes_two_of_a_star() {
    let mut adj = HashMap::new();
    adj.insert(0, set_of(&[1, 2, 3]));
    adj.insert(1, set_of(&[0]));
    adj.insert(2, set_of(&[0]));
    adj.insert(3, set_of(&[0]));
    let mut areas = HashMap::new();
    areas.insert(0, 40);
    areas.insert(1, 3);
    areas.insert(2, 2);
    areas.insert(3, 1);
    let merge = generator(ALWAYS, ALWAYS).select_plates_for_merging_probabilistic(&adj, &areas);
    assert_eq!(merge.len(), 2);
    for (q, p) in &merge {
        assert_eq!(*p, 0);
        assert!([1, 2, 3].contains(q));
    }
}

#[test]
fn selection_never_passing_merges_nothing() {
    let mut adj = HashMap::new();
    adj.insert(0, set_of(&[1]));
    adj.insert(1, set_of(&[0]));
    let mut areas = HashMap::new();
    areas.insert(0, 2);
    areas.insert(1, 2);
    let merge = generator(0, 0).select_plates_for_merging_probabilistic(&adj, &areas);
    assert!(merge.is_empty());
}

#[test]
fn selection_keeps_merge_invariants_for_any_seed() {
    // A ring of eight plates, each touching its two neighbours.
    let mut adj = HashMap::new();
    let mut areas = HashMap::new();
    for p in 0..8usize {
        adj.insert(p, set_of(&[(p + 1) % 8, (p + 7) % 8]));
        areas.insert(p, 10 + p);
    }
    for seed in 0..20u64 {
        let g = PlanetGenerator { seed, ..generator(ALWAYS / 2, ALWAYS / 2) };
        let merge = g.select_plates_for_merging_probabilistic(&adj, &areas);
        for (q, p) in &merge {
            assert!(adj[p].contains(q));
            assert!(!merge.contains_key(p));
            assert!(merge.values().filter(|v| *v == p).count() <= 2);
        }
    }
}

#[test]
fn merge_plates_absorbs_small_neighbor() {
    let mut m = map_with_face0(vec![vec![0, 1], vec![0, 1]], 0);
    generator(ALWAYS, 0).merge_plates(2, &mut m);
    assert_eq!(m, map_with_face0(vec![vec![0; 2]; 2], 0));
}

#[test]
fn merge_plates_without_selection_leaves_map() {
    let mut m = map_with_face0(vec![vec![0, 1], vec![0, 1]], 0);
    let before = m.clone();
    generator(0, 0).merge_plates(2, &mut m);
    assert_eq!(m, before);
}

#[test]
fn pick_microplate_cell_lands_on_a_seam() {
    let m = map_with_face0(
        vec![vec![0, 0, 1, 1], vec![0, 0, 1, 1], vec![0, 0, 1, 1], vec![0, 0, 1, 1]],
        0,
    );
    let g = generator(0, 0);
    for i in 0..5 {
        let (f, x, y) = g.pick_microplate_cell(4, &m, i).expect("a seam exists");
        assert_eq!(f, 0);
        assert_eq!(x, 1);
        assert!(y < 4);
        assert_eq!(g.pick_microplate_cell(4, &m, i), Some((f, x, y)));
    }
}

#[test]
fn available_neighbors_skips_used_plates() {
    let mut adj = HashMap::new();
    adj.insert(1, set_of(&[2, 3, 4]));
    let used = set_of(&[3, 9]);
    assert_eq!(available_neighbors(&adj, &used, 1), vec![2, 4]);
    adj.insert(5, set_of(&[40, 7, 13, 1, 22]));
    assert_eq!(available_neighbors(&adj, &used, 5), vec![1, 7, 13, 22, 40]);
    assert!(available_neighbors(&adj, &used, 2).is_empty());
    assert!(available_neighbors(&adj, &set_of(&[2, 3, 4]), 1).is_empty());
}

#[test]
fn record_merge_maps_chosen_to_candidate() {
    let mut merge = HashMap::new();
    merge.insert(7, 8);
    let mut used = set_of(&[7, 8]);
    record_merge(&mut merge, &mut used, 1, &vec![2, 3]);
    let mut expected = HashMap::new();
    expected.insert(7, 8);
    expected.insert(2, 1);
    expected.insert(3, 1);
    assert_eq!(merge, expected);
    assert_eq!(used, set_of(&[1, 2, 3, 7, 8]));
}

#[test]
fn selection_passing_every_draw_leaves_no_free_pair() {
    // A path 0-1-2-3-4-5 and a triangle 6-7-8: with every draw passing, each
    // plate with neighbours is merged or sees only merged neighbours.
    let mut adj = HashMap::new();
    let edges = [(0, 1), (1, 2), (2, 3), (3, 4), (4, 5), (6, 7), (7, 8), (6, 8)];
    for (a, b) in edges {
        adj.entry(a).or_insert_with(HashSet::new).insert(b);
        adj.entry(b).or_insert_with(HashSet::new).insert(a);
    }
    let mut areas = HashMap::new();
    for p in 0..9usize {
        areas.insert(p, 100 - p);
    }
    for seed in 0..10u64 {
        let g = PlanetGenerator { seed, ..generator(DRAW_MAX, DRAW_MAX / 3) };
        let merge = g.select_plates_for_merging_probabilistic(&adj, &areas);
        let involved = |p: usize| merge.contains_key(&p) || merge.values().any(|v| *v == p);
        for p in 0..9usize {
            assert!(involved(p) || adj[&p].iter().all(|q| involved(*q)));
        }
    }
}

#[test]
fn seam_at_looks_right_and_down_with_clamping() {
    let m = map_with_face0(vec![vec![0, 0, 1], vec![0, 0, 1], vec![2, 2, 2]], 0);
    assert!(seam_at(&m, 3, 0, 0, 1)); // right neighbour holds plate 1
    assert!(seam_at(&m, 3, 0, 1, 0)); // cell below holds plate 2
    assert!(!seam_at(&m, 3, 0, 0, 0));
    assert!(!seam_at(&m, 3, 0, 0, 2)); // right clamps to itself, below is plate 1
    assert!(seam_at(&m, 3, 0, 1, 2)); // below holds plate 2
    assert!(!seam_at(&m, 3, 0, 2, 2)); // both clamp to the corner itself
    assert!(!seam_at(&m, 3, 4, 1, 1));
}

#[test]
fn majority_smooth_fills_isolated_edge_and_corner_cells() {
    let mut m = map_with_face0(vec![vec![5, 0, 0], vec![0, 0, 6], vec![0, 0, 0]], 0);
    majority_smooth(3, &mut m);
    assert_eq!(m[0], vec![vec![0; 3]; 3]);
}

#[test]
fn selection_with_one_neighbor_takes_one_of_a_star() {
    let mut adj = HashMap::new();
    adj.insert(0, set_of(&[1, 2, 3]));
    adj.insert(1, set_of(&[0]));
    adj.insert(2, set_of(&[0]));
    adj.insert(3, set_of(&[0]));
    let mut areas = HashMap::new();
    areas.insert(0, 40);
    areas.insert(1, 3);
    areas.insert(2, 2);
    areas.insert(3, 1);
    for seed in 0..10u64 {
        let g = PlanetGenerator { seed, ..generator(ALWAYS, 0) };
        let merge = g.select_plates_for_merging_probabilistic(&adj, &areas);
        assert_eq!(merge.len(), 1);
        assert!(merge.values().all(|p| *p == 0));
    }
}

#[test]
fn adjacent_plates_have_counted_areas() {
    let m = map_with_face0(vec![vec![1, 2, 2], vec![1, 3, 2], vec![4, 4, 4]], 5);
    let adj = build_plate_adjacency(3, &m);
    let areas = count_plate_areas(3, &m);
    for (p, qs) in &adj {
        assert!(areas[p] > 0);
        for q in qs {
            assert!(areas[q] > 0);
            assert!(adj[q].contains(p));
        }
    }
    assert_eq!(areas[&3], 1);
    assert_eq!(areas[&5], 45);
}

#[test]
fn merge_plates_only_leaves_plates_that_existed() {
    let face = vec![
        vec![0, 0, 1, 1],
        vec![0, 2, 2, 1],
        vec![3, 2, 2, 4],
        vec![3, 3, 4, 4],
    ];
    for seed in 0..10u64 {
        let mut m = map_with_face0(face.clone(), 0);
        let before = m.clone();
        let g = PlanetGenerator { seed, ..generator(ALWAYS / 2, ALWAYS / 2) };
        g.merge_plates(4, &mut m);
        let ids_before: HashSet<usize> = before.iter().flatten().flatten().copied().collect();
        for id in m.iter().flatten().flatten() {
            assert!(ids_before.contains(id));
        }
    }
}

#[test]
fn selection_takes_the_largest_plate_first() {
    // Chain 0 - 1 - 2 with plate 1 the largest: passing every draw, plate 1
    // is the first primary and absorbs one of its neighbours.
    let mut adj = HashMap::new();
    adj.insert(0, set_of(&[1]));
    adj.insert(1, set_of(&[0, 2]));
    adj.insert(2, set_of(&[1]));
    let mut areas = HashMap::new();
    areas.insert(0, 10);
    areas.insert(1, 50);
    areas.insert(2, 5);
    for seed in 0..10u64 {
        let g = PlanetGenerator { seed, ..generator(DRAW_MAX, 0) };
        let merge = g.select_plates_for_merging_probabilistic(&adj, &areas);
        assert_eq!(merge.len(), 1);
        assert!(merge.contains_key(&0) || merge.contains_key(&2));
        assert!(merge.values().all(|p| *p == 1));
    }
}

#[test]
fn merge_plates_is_reproducible_for_a_seed() {
    let face = vec![
        vec![0, 0, 1, 1],
        vec![0, 2, 2, 1],
        vec![3, 2, 2, 4],
        vec![3, 3, 4, 4],
    ];
    for seed in 0..10u64 {
        let g = PlanetGenerator { seed, ..generator(ALWAYS / 2, ALWAYS / 2) };
        let mut a = map_with_face0(face.clone(), 0);
        let mut b = map_with_face0(face.clone(), 0);
        g.merge_plates(4, &mut a);
        g.merge_plates(4, &mut b);
        assert_eq!(a, b);
    }
}

fn transpose_faces(m: &PlateMap) -> PlateMap {
    m.iter()
        .map(|face| {
            let n = face.len();
            (0..n).map(|y| (0..n).map(|x| face[x][y]).collect()).collect()
        })
        .collect()
}

#[test]
fn smoothing_commutes_with_transposing_faces() {
    let face = vec![
        vec![0, 0, 0, 1, 1],
        vec![0, 7, 0, 1, 1],
        vec![0, 0, 2, 2, 1],
        vec![3, 3, 2, 2, 2],
        vec![3, 3, 3, 2, 9],
    ];
    let m = map_with_face0(face, 4);
    let mut a = m.clone();
    let mut b = transpose_faces(&m);
    majority_smooth(5, &mut a);
    majority_smooth(5, &mut b);
    // cells with a tied vote may differ; compare those with a clear winner
    let t = transpose_faces(&a);
    let mut clear = 0;
    for y in 0..5usize {
        for x in 0..5usize {
            let mut counts: HashMap<usize, usize> = HashMap::new();
            *counts.entry(m[0][y][x]).or_insert(0) += 2;
            for dy in -1i64..=1 {
                for dx in -1i64..=1 {
                    let (nx, ny) = (x as i64 + dx, y as i64 + dy);
                    if (dx, dy) != (0, 0) && nx >= 0 && ny >= 0 && nx < 5 && ny < 5 {
                        *counts.entry(m[0][ny as usize][nx as usize]).or_insert(0) += 1;
                    }
                }
            }
            let best = *counts.values().max().unwrap();
            if counts.values().filter(|c| **c == best).count() == 1 {
                clear += 1;
                assert_eq!(b[0][y][x], t[0][y][x]);
            }
        }
    }
    assert!(clear > 15);
    assert_eq!(b[3], t[3]);
}
