use game::body::{collider_bodies, collider_body, ColliderBody};
use game::collider::{ground_rects, level_colliders, LevelLayout};
use game::grid::{ColliderError, GridCoords, MarkedGrid};
use game::plate::{compact_row, compact_rows, Plate};
use game::rect::{assemble, Rect};

fn coords(cells: &[(i32, i32)]) -> Vec<GridCoords> {
    cells.iter().map(|&(x, y)| GridCoords { x, y }).collect()
}

fn grid(columns: i32, rows: i32, cells: &[(i32, i32)]) -> MarkedGrid {
    MarkedGrid::from_cells(columns, rows, &coords(cells)).unwrap()
}

fn rect(left: i32, right: i32, bottom: i32, top: i32) -> Rect {
    Rect { left, right, top, bottom }
}

fn plate(left: i32, right: i32) -> Plate {
    Plate { left, right }
}

/// A small deterministic generator for test grids.
fn next(state: &mut u64) -> u64 {
    *state = state.wrapping_mul(6364136223846793005).wrapping_add(1442695040888963407);
    *state >> 33
}

fn random_cells(columns: i32, rows: i32, seed: u64) -> Vec<(i32, i32)> {
    let mut state = seed;
    let mut cells = Vec::new();
    for y in 0..rows {
        for x in 0..columns {
            if next(&mut state) % 3 != 0 {
                cells.push((x, y));
            }
        }
    }
    cells
}

fn cells_of_rects(rects: &[Rect]) -> Vec<(i32, i32)> {
    let mut cells = Vec::new();
    for r in rects {
        for y in r.bottom..=r.top {
            for x in r.left..=r.right {
                cells.push((x, y));
            }
        }
    }
    cells.sort();
    cells
}

#[test]
fn two_cells_in_one_row_make_one_rect() {
    let g = grid(4, 1, &[(0, 0), (1, 0)]);
    assert_eq!(ground_rects(&g), vec![rect(0, 1, 0, 0)]);
}

#[test]
fn solid_block_merges_vertically() {
    let g = grid(3, 2, &[(0, 0), (1, 0), (0, 1), (1, 1)]);
    assert_eq!(ground_rects(&g), vec![rect(0, 1, 0, 1)]);
}

#[test]
fn disjoint_cells_stay_apart() {
    let g = grid(3, 2, &[(0, 0), (2, 0)]);
    assert_eq!(ground_rects(&g), vec![rect(0, 0, 0, 0), rect(2, 2, 0, 0)]);
}

#[test]
fn narrowing_shape_does_not_merge() {
    let g = grid(3, 2, &[(0, 0), (1, 0), (2, 0), (0, 1), (1, 1)]);
    assert_eq!(ground_rects(&g), vec![rect(0, 2, 0, 0), rect(0, 1, 1, 1)]);
}

#[test]
fn gap_row_starts_a_new_rect() {
    let g = grid(2, 3, &[(0, 0), (0, 2)]);
    assert_eq!(ground_rects(&g), vec![rect(0, 0, 0, 0), rect(0, 0, 2, 2)]);
}

#[test]
fn rects_come_by_top_then_left() {
    // column 2 is a tall pillar; columns 0 and 4 are single cells at the bottom
    let g = grid(5, 3, &[(0, 0), (2, 0), (4, 0), (2, 1), (2, 2)]);
    assert_eq!(
        ground_rects(&g),
        vec![rect(0, 0, 0, 0), rect(4, 4, 0, 0), rect(2, 2, 0, 2)]
    );
}

#[test]
fn full_grid_is_one_rect() {
    let mut cells = Vec::new();
    for y in 0..4 {
        for x in 0..6 {
            cells.push((x, y));
        }
    }
    let g = grid(6, 4, &cells);
    assert_eq!(ground_rects(&g), vec![rect(0, 5, 0, 3)]);
}

#[test]
fn blank_row_has_no_plates() {
    assert_eq!(compact_row(&vec![false; 5]), Vec::<Plate>::new());
}

#[test]
fn full_row_is_one_plate() {
    assert_eq!(compact_row(&vec![true; 7]), vec![plate(0, 6)]);
}

#[test]
fn row_runs_become_plates() {
    let row = vec![true, true, false, true, false, false, true];
    assert_eq!(compact_row(&row), vec![plate(0, 1), plate(3, 3), plate(6, 6)]);
}

#[test]
fn empty_rows_are_kept() {
    let g = grid(3, 3, &[(1, 1)]);
    let rows = compact_rows(&g);
    assert_eq!(rows, vec![vec![], vec![plate(1, 1)], vec![]]);
}

#[test]
fn assemble_merges_only_equal_plates_in_consecutive_rows() {
    let rows = vec![
        vec![plate(0, 1), plate(3, 4)],
        vec![plate(0, 1), plate(3, 5)],
        vec![plate(0, 1)],
    ];
    assert_eq!(
        assemble(&rows),
        vec![rect(3, 4, 0, 0), rect(3, 5, 1, 1), rect(0, 1, 0, 2)]
    );
}

#[test]
fn no_marked_cells_no_rects() {
    let g = grid(4, 3, &[]);
    assert!(ground_rects(&g).is_empty());
}

#[test]
fn no_marked_cells_no_bodies() {
    let layout = LevelLayout { columns: 4, rows: 3, grid_size: 16 };
    assert_eq!(level_colliders(Some(layout), &Vec::new()), Ok(Vec::new()));
}

#[test]
fn random_grids_are_covered_exactly() {
    for seed in 1..40u64 {
        let columns = 1 + (seed % 9) as i32;
        let rows = 1 + ((seed * 7) % 8) as i32;
        let mut cells = random_cells(columns, rows, seed);
        let g = grid(columns, rows, &cells);
        let rects = ground_rects(&g);
        cells.sort();
        assert_eq!(cells_of_rects(&rects), cells, "seed {seed}");
    }
}

#[test]
fn same_input_same_rects() {
    for seed in 1..20u64 {
        let cells = random_cells(8, 6, seed);
        let mut reversed = cells.clone();
        reversed.reverse();
        let a = ground_rects(&grid(8, 6, &cells));
        let b = ground_rects(&grid(8, 6, &cells));
        let c = ground_rects(&grid(8, 6, &reversed));
        assert_eq!(a, b);
        assert_eq!(a, c);
    }
}

#[test]
fn missing_level_is_reported() {
    assert_eq!(
        level_colliders(None, &coords(&[(0, 0)])),
        Err(ColliderError::MissingLevelData)
    );
}

#[test]
fn non_positive_size_is_rejected() {
    assert_eq!(
        MarkedGrid::from_cells(0, 3, &coords(&[])).err(),
        Some(ColliderError::InvalidDimensions { columns: 0, rows: 3 })
    );
    let layout = LevelLayout { columns: 2, rows: -1, grid_size: 16 };
    assert_eq!(
        level_colliders(Some(layout), &coords(&[])),
        Err(ColliderError::InvalidDimensions { columns: 2, rows: -1 })
    );
}

#[test]
fn first_cell_out_of_bounds_is_named() {
    let cells = coords(&[(0, 0), (3, 1), (-1, 0), (0, 2)]);
    assert_eq!(
        MarkedGrid::from_cells(3, 2, &cells).err(),
        Some(ColliderError::CellOutOfBounds(GridCoords { x: 3, y: 1 }))
    );
    let layout = LevelLayout { columns: 4, rows: 2, grid_size: 8 };
    assert_eq!(
        level_colliders(Some(layout), &cells),
        Err(ColliderError::CellOutOfBounds(GridCoords { x: -1, y: 0 }))
    );
}

#[test]
fn grid_reads_back_its_cells() {
    let g = grid(3, 2, &[(2, 1), (0, 0), (2, 1)]);
    assert_eq!(g.columns(), 3);
    assert_eq!(g.rows(), 2);
    assert_eq!(g.row(0), vec![true, false, false]);
    assert_eq!(g.row(1), vec![false, false, true]);
}

#[test]
fn body_of_a_rect() {
    let b = collider_body(rect(1, 3, 2, 2), 16);
    // half units: 48 = 2 * 24 (half width 24 world units), centre x 80 = 2 * 40
    assert_eq!(
        b,
        ColliderBody { half_width: 48, half_height: 16, center_x: 80, center_y: 80 }
    );
}

#[test]
fn body_with_odd_grid_size() {
    let b = collider_body(rect(0, 0, 0, 1), 5);
    assert_eq!(
        b,
        ColliderBody { half_width: 5, half_height: 10, center_x: 5, center_y: 10 }
    );
}

#[test]
fn bodies_follow_rects() {
    let rects = vec![rect(0, 1, 0, 0), rect(2, 2, 0, 1)];
    assert_eq!(
        collider_bodies(&rects, 16),
        vec![
            ColliderBody { half_width: 32, half_height: 16, center_x: 32, center_y: 16 },
            ColliderBody { half_width: 16, half_height: 32, center_x: 80, center_y: 32 },
        ]
    );
}

#[test]
fn level_bodies_of_a_block() {
    let layout = LevelLayout { columns: 3, rows: 2, grid_size: 16 };
    let cells = coords(&[(0, 0), (1, 0), (0, 1), (1, 1)]);
    assert_eq!(
        level_colliders(Some(layout), &cells),
        Ok(vec![ColliderBody { half_width: 32, half_height: 32, center_x: 32, center_y: 32 }])
    );
}
