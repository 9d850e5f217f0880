use cli_2048::Direction;
use cli_2048::Grid;

#[test]
fn zero_grid() {
    assert!(Grid::new(1, 0).is_err());
}

#[test]
fn add_random_number() {
    let grid = Grid::new(4, 4).unwrap();
    let grid = grid.add_random_number().unwrap();
    println!("{:?}", grid);
}

#[test]
fn compress_row() {
    let grid = Grid::new(4, 4).unwrap();
    let row = grid.compress_row(&vec![2, 0, 4, 0]);
    assert_eq!(row, vec![2, 4, 0, 0]);
    let row = grid.compress_row(&vec![4, 0, 2, 8]);
    assert_eq!(row, vec![4, 2, 8, 0]);
}

#[test]
fn combine_row() {
    let grid = Grid::new(4, 4).unwrap();
    let row = grid.combine_row(&vec![1, 0, 1, 0]);
    assert_eq!(row, vec![2, 0, 0, 0]);
    let row = grid.combine_row(&vec![2, 2, 3, 4, 6, 6, 5, 0, 6]);
    assert_eq!(row, vec![3, 3, 4, 7, 5, 6, 0, 0, 0]);
}

#[test]
fn overwrite_rows() {
    let grid = Grid::new(2, 2).unwrap();
    assert_eq!(grid.rows().len(), 2);
    let new_rows = vec![vec![1; 4]; 4];
    let grid = Grid::from_rows(new_rows.clone());
    assert_eq!(grid.rows(), new_rows);
}

fn count_tiles(grid: &Grid) -> usize {
    grid.rows()
        .iter()
        .map(|row| row.iter().filter(|&&e| e != 0).count())
        .sum()
}

#[test]
fn construction_rejects_bad_dimensions() {
    assert!(Grid::new(0, 5).is_err());
    assert!(Grid::new(5, 0).is_err());
    assert!(Grid::new(1, 1).is_err());
    assert!(Grid::new(0, 0).is_err());
}

#[test]
fn construction_accepts_minimal_dimensions() {
    assert!(Grid::new(2, 1).is_ok());
    assert!(Grid::new(1, 2).is_ok());
}

#[test]
fn construction_places_two_starting_tiles() {
    for (w, h) in [(2usize, 2usize), (4, 4), (1, 2), (2, 1), (3, 5)] {
        let grid = Grid::new(w, h).unwrap();
        let rows = grid.rows();
        assert_eq!(rows.len(), h);
        for row in &rows {
            assert_eq!(row.len(), w);
        }
        assert_eq!(count_tiles(&grid), 2);
        for row in &rows {
            for &cell in row {
                assert!(cell == 0 || cell == 1 || cell == 2);
            }
        }
    }
}

#[test]
fn compress_moves_tiles_left() {
    let grid = Grid::new(4, 4).unwrap();
    assert_eq!(grid.compress_row(&vec![1, 0, 2, 0]), vec![1, 2, 0, 0]);
    assert_eq!(grid.compress_row(&vec![2, 0, 1, 3]), vec![2, 1, 3, 0]);
}

#[test]
fn compress_is_idempotent_on_samples() {
    let grid = Grid::new(4, 4).unwrap();
    for row in [
        vec![1u8, 0, 2, 0],
        vec![0, 0, 0, 0],
        vec![5, 5, 0, 5],
        vec![0, 7],
        vec![3],
    ] {
        let once = grid.compress_row(&row);
        let twice = grid.compress_row(&once);
        assert_eq!(twice, once);
    }
}

#[test]
fn merged_tile_does_not_merge_again() {
    let grid = Grid::new(4, 4).unwrap();
    assert_eq!(grid.combine_row(&vec![1, 1, 2, 0]), vec![2, 2, 0, 0]);
    assert_eq!(grid.combine_row(&vec![1, 1, 1, 1]), vec![2, 2, 0, 0]);
    assert_eq!(grid.combine_row(&vec![1, 1, 1, 0]), vec![2, 1, 0, 0]);
}

#[test]
fn collapse_conserves_tile_value_sum() {
    let grid = Grid::new(4, 4).unwrap();
    let row = vec![2u8, 2, 3, 0, 3];
    let out = grid.combine_row(&row);
    let sum = |r: &Vec<u8>| -> u64 {
        r.iter().map(|&e| if e == 0 { 0u64 } else { 1u64 << e }).sum()
    };
    let tiles = |r: &Vec<u8>| r.iter().filter(|&&e| e != 0).count();
    assert_eq!(sum(&out), sum(&row));
    assert!(tiles(&out) <= tiles(&row));
    assert_eq!(out, vec![3, 4, 0, 0, 0]);
}

#[test]
fn slide_left_merges_and_spawns() {
    let grid = Grid::from_rows(vec![vec![1, 1], vec![2, 3]]);
    let slid = grid.slide(Direction::LEFT).unwrap();
    let rows = slid.rows();
    assert_eq!(rows[0][0], 2);
    assert_eq!(rows[1][0], 2);
    assert_eq!(rows[1][1], 3);
    // the collapsed board holds three tiles; the spawn adds exactly one
    assert_eq!(count_tiles(&slid), 4);
}

#[test]
fn slide_right_moves_tiles() {
    let grid = Grid::from_rows(vec![vec![0, 1, 1]]);
    let slid = grid.slide(Direction::RIGHT).unwrap();
    let rows = slid.rows();
    assert_eq!(rows[0][2], 2);
    assert_eq!(count_tiles(&slid), 2);
}

#[test]
fn slide_up_moves_tiles() {
    let grid = Grid::from_rows(vec![vec![1, 0], vec![1, 0]]);
    let slid = grid.slide(Direction::UP).unwrap();
    let rows = slid.rows();
    assert_eq!(rows[0][0], 2);
    assert_eq!(count_tiles(&slid), 2);
}

#[test]
fn slide_down_moves_tiles() {
    let grid = Grid::from_rows(vec![vec![1], vec![0], vec![1]]);
    let slid = grid.slide(Direction::DOWN).unwrap();
    let rows = slid.rows();
    assert_eq!(rows[2][0], 2);
    assert_eq!(count_tiles(&slid), 2);
}

#[test]
fn illegal_direction_returns_grid_unchanged_without_spawn() {
    let rows = vec![vec![1, 2], vec![0, 0]];
    let grid = Grid::from_rows(rows.clone());
    let slid = grid.slide(Direction::LEFT).unwrap();
    assert_eq!(slid.rows(), rows);
    assert_eq!(count_tiles(&slid), 2);
}

#[test]
fn stuck_full_grid_signals_game_over() {
    let grid = Grid::from_rows(vec![vec![1, 2], vec![2, 1]]);
    assert!(grid.slide(Direction::LEFT).is_err());
    assert!(grid.slide(Direction::RIGHT).is_err());
    assert!(grid.slide(Direction::UP).is_err());
    assert!(grid.slide(Direction::DOWN).is_err());
}

#[test]
fn full_grid_with_merges_is_not_over() {
    let grid = Grid::from_rows(vec![vec![1, 1], vec![2, 1]]);
    let slid = grid.slide(Direction::LEFT).unwrap();
    assert_eq!(slid.rows()[0][0], 2);
}

#[test]
fn spawn_fails_only_on_full_grid() {
    let full = Grid::from_rows(vec![vec![1, 2], vec![2, 1]]);
    assert!(full.add_random_number().is_err());
    let open = Grid::from_rows(vec![vec![1, 2], vec![2, 0]]);
    let spawned = open.add_random_number().unwrap();
    assert_eq!(count_tiles(&spawned), 4);
    let cell = spawned.rows()[1][1];
    assert!(cell == 1 || cell == 2);
}
