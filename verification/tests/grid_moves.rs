use rust_2048::ai::{Direction, Grid};

fn row(g: &Grid, y: usize) -> [Option<u32>; 4] {
    [g.cell(0, y), g.cell(1, y), g.cell(2, y), g.cell(3, y)]
}

fn column(g: &Grid, x: usize) -> [Option<u32>; 4] {
    [g.cell(x, 0), g.cell(x, 1), g.cell(x, 2), g.cell(x, 3)]
}

fn tile_sum(g: &Grid) -> u64 {
    let mut s = 0u64;
    for y in 0..4 {
        for x in 0..4 {
            s += g.cell(x, y).unwrap_or(0) as u64;
        }
    }
    s
}

fn tile_count(g: &Grid) -> usize {
    let mut n = 0;
    for y in 0..4 {
        for x in 0..4 {
            if g.cell(x, y).is_some() {
                n += 1;
            }
        }
    }
    n
}

#[test]
fn new_grid_is_empty() {
    let g = Grid::new();
    for y in 0..4 {
        assert_eq!(row(&g, y), [None, None, None, None]);
    }
    assert_eq!(g.get_empty_cells().len(), 16);
}

#[test]
fn move_left_merges_pairs_from_the_front() {
    let mut g = Grid::from_tiles(&[(0, 0, 2), (1, 0, 2), (2, 0, 2), (3, 0, 4)]);
    assert!(g.apply_move(Direction::Left));
    assert_eq!(row(&g, 0), [Some(4), Some(2), Some(4), None]);
}

#[test]
fn move_left_does_not_merge_a_merged_tile_again() {
    let mut g = Grid::from_tiles(&[(0, 1, 2), (1, 1, 2), (2, 1, 4), (3, 1, 4)]);
    assert!(g.apply_move(Direction::Left));
    assert_eq!(row(&g, 1), [Some(4), Some(8), None, None]);
}

#[test]
fn move_left_closes_gaps() {
    let mut g = Grid::from_tiles(&[(1, 2, 8), (3, 2, 8)]);
    assert!(g.apply_move(Direction::Left));
    assert_eq!(row(&g, 2), [Some(16), None, None, None]);
}

#[test]
fn move_right_merges_from_the_back_but_gathers_at_the_start() {
    let mut g = Grid::from_tiles(&[(0, 0, 2), (1, 0, 2), (2, 0, 2)]);
    assert!(g.apply_move(Direction::Right));
    assert_eq!(row(&g, 0), [Some(2), Some(4), None, None]);
}

#[test]
fn move_right_leaves_a_lone_tile_at_the_start() {
    let mut g = Grid::from_tiles(&[(0, 3, 32)]);
    assert!(!g.apply_move(Direction::Right));
    assert_eq!(row(&g, 3), [Some(32), None, None, None]);
}

#[test]
fn move_up_works_on_columns() {
    let mut g = Grid::from_tiles(&[(2, 1, 4), (2, 2, 4), (2, 3, 2)]);
    assert!(g.apply_move(Direction::Up));
    assert_eq!(column(&g, 2), [Some(8), Some(2), None, None]);
}

#[test]
fn move_down_merges_from_the_bottom() {
    let mut g = Grid::from_tiles(&[(1, 0, 2), (1, 1, 2), (1, 2, 2)]);
    assert!(g.apply_move(Direction::Down));
    assert_eq!(column(&g, 1), [Some(2), Some(4), None, None]);
}

#[test]
fn move_that_changes_nothing_returns_false() {
    let mut g = Grid::from_tiles(&[(0, 0, 2), (1, 0, 4)]);
    let before = g;
    assert!(!g.apply_move(Direction::Left));
    assert!(!g.apply_move(Direction::Up));
    for y in 0..4 {
        assert_eq!(row(&g, y), row(&before, y));
    }
}

#[test]
fn zero_tiles_become_empty_cells_in_place() {
    let mut g = Grid::from_tiles(&[(0, 0, 0), (1, 0, 2)]);
    assert!(g.apply_move(Direction::Left));
    assert_eq!(row(&g, 0), [None, Some(2), None, None]);
}

#[test]
fn from_tiles_ignores_cells_outside_and_keeps_the_last() {
    let g = Grid::from_tiles(&[(0, 0, 2), (4, 0, 8), (-1, 2, 8), (0, 0, 16), (3, 3, 4)]);
    assert_eq!(g.cell(0, 0), Some(16));
    assert_eq!(g.cell(3, 3), Some(4));
    assert_eq!(tile_count(&g), 2);
}

#[test]
fn empty_cells_are_listed_row_by_row() {
    let mut tiles = Vec::new();
    for y in 0..4 {
        for x in 0..4 {
            if !((x == 1 && y == 0) || (x == 3 && y == 2) || (x == 0 && y == 3)) {
                tiles.push((x, y, 2u32));
            }
        }
    }
    let g = Grid::from_tiles(&tiles);
    assert_eq!(g.get_empty_cells(), vec![(1, 0), (3, 2), (0, 3)]);
}

fn full_grid(values: [[u32; 4]; 4]) -> Grid {
    let mut tiles = Vec::new();
    for y in 0..4 {
        for x in 0..4 {
            tiles.push((x as i32, y as i32, values[y][x]));
        }
    }
    Grid::from_tiles(&tiles)
}

#[test]
fn can_move_with_an_empty_cell() {
    let g = Grid::from_tiles(&[(0, 0, 2)]);
    assert!(g.can_move());
}

#[test]
fn can_move_on_a_stuck_board_is_false_and_no_move_changes_it() {
    let values = [[2, 4, 2, 4], [4, 2, 4, 2], [2, 4, 2, 4], [4, 2, 4, 2]];
    let g = full_grid(values);
    assert!(!g.can_move());
    for dir in [Direction::Left, Direction::Right, Direction::Up, Direction::Down] {
        let mut h = g;
        assert!(!h.apply_move(dir));
    }
    assert!(g.successors().is_empty());
}

#[test]
fn can_move_with_equal_neighbours() {
    let horizontal = full_grid([[2, 2, 4, 8], [4, 8, 16, 32], [8, 16, 32, 64], [16, 32, 64, 128]]);
    assert!(horizontal.can_move());
    let vertical = full_grid([[2, 4, 8, 16], [2, 8, 16, 32], [8, 16, 32, 64], [16, 32, 64, 128]]);
    assert!(vertical.can_move());
}

#[test]
fn moves_keep_the_tile_sum_and_never_add_tiles() {
    let g = Grid::from_tiles(&[(0, 0, 2), (1, 0, 2), (3, 0, 4), (0, 1, 8), (0, 2, 8), (2, 3, 16), (3, 3, 16)]);
    for dir in [Direction::Left, Direction::Right, Direction::Up, Direction::Down] {
        let mut h = g;
        h.apply_move(dir);
        assert_eq!(tile_sum(&h), tile_sum(&g));
        assert!(tile_count(&h) <= tile_count(&g));
    }
}

#[test]
fn can_apply_detects_an_overflowing_merge() {
    let big = 1u32 << 31;
    let g = Grid::from_tiles(&[(0, 0, big), (1, 0, big)]);
    assert!(!g.can_apply(Direction::Left));
    assert!(!g.can_apply(Direction::Right));
    assert!(g.can_apply(Direction::Up));
    assert!(g.can_apply(Direction::Down));
    let half = 1u32 << 30;
    let h = Grid::from_tiles(&[(0, 0, half), (1, 0, half)]);
    assert!(h.can_apply(Direction::Left));
    let mut m = h;
    assert!(m.apply_move(Direction::Left));
    assert_eq!(m.cell(0, 0), Some(big));
}

#[test]
fn successors_list_the_moving_directions_in_order() {
    let g = Grid::from_tiles(&[(1, 0, 2)]);
    let s = g.successors();
    let dirs: Vec<Direction> = s.iter().map(|p| p.0).collect();
    assert_eq!(dirs, vec![Direction::Left, Direction::Right]);
    assert_eq!(s[0].1.cell(0, 0), Some(2));
    assert_eq!(s[1].1.cell(0, 0), Some(2));
}

#[test]
fn with_tile_places_one_value() {
    let g = Grid::new().with_tile(2, 1, 4);
    assert_eq!(g.cell(2, 1), Some(4));
    assert_eq!(tile_count(&g), 1);
}

#[test]
fn max_tile_and_corner_bonus() {
    let g = Grid::from_tiles(&[(0, 0, 2), (3, 3, 64), (1, 1, 8)]);
    assert_eq!(g.get_max_tile(), 64);
    assert_eq!(g.calculate_corner_bonus(), 64);
    let h = Grid::from_tiles(&[(1, 1, 64), (0, 0, 2)]);
    assert_eq!(h.calculate_corner_bonus(), 0);
    assert_eq!(Grid::new().get_max_tile(), 0);
    assert_eq!(Grid::new().calculate_corner_bonus(), 0);
}

#[test]
fn monotonicity_counts_trends_per_line() {
    // Row 0: 2 <= 4 <= 8 gives 3 rising steps.
    // Column 0: 2 > ... only one tile, no pair. Column 1: single tile.
    let g = Grid::from_tiles(&[(0, 0, 2), (1, 0, 4), (2, 0, 8), (3, 0, 16)]);
    assert_eq!(g.calculate_monotonicity(), 3);
    // Row 0: 8 > 4 falls, 4 <= 4 rises: |1 - 1| = 0.
    let h = Grid::from_tiles(&[(0, 0, 8), (1, 0, 4), (2, 0, 4)]);
    assert_eq!(h.calculate_monotonicity(), 0);
    // A gap breaks the pair: 2 and 4 with an empty cell between.
    let k = Grid::from_tiles(&[(0, 0, 2), (2, 0, 4)]);
    assert_eq!(k.calculate_monotonicity(), 0);
}

#[test]
fn smoothness_sums_neighbour_differences() {
    let g = Grid::from_tiles(&[(0, 0, 2), (1, 0, 8), (0, 1, 32)]);
    // Row 0: |2 - 8| = 6; column 0: |2 - 32| = 30.
    assert_eq!(g.calculate_smoothness(), 36);
    assert_eq!(Grid::new().calculate_smoothness(), 0);
}

/// A line pushed in the game's way: the tiles in order, equal neighbours
/// merged pairwise from the front (or from the back), written from the start
/// of the line; merged zeros leave empty cells.
fn pushed(line: [Option<u32>; 4], from_back: bool) -> [Option<u32>; 4] {
    let values: Vec<u32> = line.iter().filter_map(|c| *c).collect();
    let mut merged: Vec<u32> = Vec::new();
    if from_back {
        let mut i = values.len();
        while i > 0 {
            if i >= 2 && values[i - 1] == values[i - 2] {
                merged.insert(0, values[i - 1] * 2);
                i -= 2;
            } else {
                merged.insert(0, values[i - 1]);
                i -= 1;
            }
        }
    } else {
        let mut i = 0;
        while i < values.len() {
            if i + 1 < values.len() && values[i] == values[i + 1] {
                merged.push(values[i] * 2);
                i += 2;
            } else {
                merged.push(values[i]);
                i += 1;
            }
        }
    }
    let mut out = [None; 4];
    for (x, v) in merged.iter().enumerate() {
        out[x] = if *v > 0 { Some(*v) } else { None };
    }
    out
}

#[test]
fn moves_agree_with_a_line_by_line_model_on_many_grids() {
    let mut seed: u64 = 0x2048;
    let mut next = || {
        seed = seed.wrapping_mul(6364136223846793005).wrapping_add(1442695040888963407);
        (seed >> 33) as u32
    };
    for _ in 0..2000 {
        let mut tiles = Vec::new();
        for y in 0..4 {
            for x in 0..4 {
                let r = next() % 7;
                if r > 0 {
                    tiles.push((x, y, 1u32 << (r % 4)));
                } else if next() % 10 == 0 {
                    tiles.push((x, y, 0u32));
                }
            }
        }
        let g = Grid::from_tiles(&tiles);
        for dir in [Direction::Left, Direction::Right, Direction::Up, Direction::Down] {
            let mut h = g;
            let moved = h.apply_move(dir);
            let mut changed = false;
            for k in 0..4 {
                let (before, after) = match dir {
                    Direction::Left | Direction::Right => (row(&g, k), row(&h, k)),
                    Direction::Up | Direction::Down => (column(&g, k), column(&h, k)),
                };
                let back = dir == Direction::Right || dir == Direction::Down;
                assert_eq!(after, pushed(before, back));
                changed |= after != before;
            }
            assert_eq!(moved, changed);
        }
    }
}

fn transposed(g: &Grid) -> Grid {
    let mut tiles = Vec::new();
    for y in 0..4 {
        for x in 0..4 {
            if let Some(v) = g.cell(x, y) {
                tiles.push((y as i32, x as i32, v));
            }
        }
    }
    Grid::from_tiles(&tiles)
}

#[test]
fn vertical_moves_are_horizontal_moves_on_the_transpose() {
    let g = Grid::from_tiles(&[(0, 0, 2), (0, 1, 2), (0, 2, 2), (2, 0, 4), (2, 3, 4), (3, 1, 8), (3, 2, 16)]);
    for (vertical, horizontal) in [(Direction::Up, Direction::Left), (Direction::Down, Direction::Right)] {
        let mut a = g;
        let ra = a.apply_move(vertical);
        let mut b = transposed(&g);
        let rb = b.apply_move(horizontal);
        assert_eq!(ra, rb);
        let bt = transposed(&b);
        for y in 0..4 {
            assert_eq!(row(&a, y), row(&bt, y));
        }
    }
}
