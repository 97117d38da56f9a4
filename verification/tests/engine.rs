use rs2048::{ConfigError, Direction, Game};

#[test]
fn new_rejects_zero_grid() {
    match Game::new(0, 2) {
        Ok(_) => panic!("a zero-sized grid must be rejected"),
        Err(e) => assert_eq!(e, ConfigError::ZeroGridSize),
    }
}

#[test]
fn new_seeds_start_tiles() {
    let g = match Game::new(4, 2) {
        Ok(g) => g,
        Err(_) => panic!("a 4x4 grid is a valid configuration"),
    };
    assert_eq!(g.grid_size(), 4);
    assert_eq!(g.score(), 0);
    assert!(g.last_spawned().is_none());
    let mut nonzero: usize = 0;
    for r in 0..4 {
        for c in 0..4 {
            let v = g.tile(r, c);
            assert!(v == 0 || v == 2 || v == 4);
            if v != 0 {
                nonzero += 1;
            }
        }
    }
    assert_eq!(nonzero, 2);
    assert!(!g.is_finished());
}

#[test]
fn new_on_tiny_grid_fills_at_most_all_cells() {
    let g = match Game::new(1, 3) {
        Ok(g) => g,
        Err(_) => panic!("a 1x1 grid is a valid configuration"),
    };
    let v = g.tile(0, 0);
    assert!(v == 2 || v == 4);
}

#[test]
fn move_right_merges_pair() {
    let mut g = Game::from_cells(2, vec![2, 2, 0, 0]);
    let changed = g.apply_move(Direction::Right);
    assert!(changed);
    assert_eq!(g.tile(0, 0), 0);
    assert_eq!(g.tile(0, 1), 4);
    assert_eq!(g.tile(1, 0), 0);
    assert_eq!(g.tile(1, 1), 0);
    assert_eq!(g.score(), 4);
}

#[test]
fn move_right_then_spawn() {
    let mut g = Game::from_cells(2, vec![2, 2, 0, 0]);
    g.move_tiles(Direction::Right);
    assert_eq!(g.tile(0, 1), 4);
    assert_eq!(g.score(), 4);
    let spawned = match g.last_spawned() {
        Some(i) => i,
        None => panic!("a changed move must spawn a tile"),
    };
    assert!(spawned == 0 || spawned == 2 || spawned == 3);
    let mut extra: usize = 0;
    for i in [0usize, 2, 3] {
        let v = g.tile(i / 2, i % 2);
        if v != 0 {
            assert!(v == 2 || v == 4);
            assert_eq!(i, spawned);
            extra += 1;
        }
    }
    assert_eq!(extra, 1);
}

#[test]
fn move_down_merges_column() {
    let mut g = Game::from_cells(2, vec![2, 0, 2, 0]);
    let changed = g.apply_move(Direction::Down);
    assert!(changed);
    assert_eq!(g.tile(0, 0), 0);
    assert_eq!(g.tile(0, 1), 0);
    assert_eq!(g.tile(1, 0), 4);
    assert_eq!(g.tile(1, 1), 0);
    assert_eq!(g.score(), 4);
}

#[test]
fn finished_board_moves_are_no_ops() {
    let mut g = Game::from_cells(2, vec![2, 4, 4, 2]);
    assert!(g.is_finished());
    for d in [Direction::Up, Direction::Down, Direction::Left, Direction::Right] {
        g.move_tiles(d);
        assert_eq!(g.tile(0, 0), 2);
        assert_eq!(g.tile(0, 1), 4);
        assert_eq!(g.tile(1, 0), 4);
        assert_eq!(g.tile(1, 1), 2);
        assert_eq!(g.score(), 0);
        assert!(g.last_spawned().is_none());
    }
}

#[test]
fn boundary_tile_does_not_move() {
    let mut g = Game::from_cells(2, vec![2, 4, 0, 0]);
    let changed = g.apply_move(Direction::Up);
    assert!(!changed);
    assert_eq!(g.tile(0, 0), 2);
    assert_eq!(g.tile(0, 1), 4);
    assert_eq!(g.tile(1, 0), 0);
    assert_eq!(g.tile(1, 1), 0);
    assert_eq!(g.score(), 0);
}

#[test]
fn full_row_merges_in_pairs() {
    let mut cells = vec![0u64; 16];
    cells[0] = 2;
    cells[1] = 2;
    cells[2] = 2;
    cells[3] = 2;
    let mut g = Game::from_cells(4, cells);
    let changed = g.apply_move(Direction::Left);
    assert!(changed);
    assert_eq!(g.tile(0, 0), 4);
    assert_eq!(g.tile(0, 1), 4);
    assert_eq!(g.tile(0, 2), 0);
    assert_eq!(g.tile(0, 3), 0);
    assert_eq!(g.score(), 8);
}

#[test]
fn merged_tile_does_not_merge_again() {
    let mut cells = vec![0u64; 16];
    cells[0] = 4;
    cells[1] = 2;
    cells[2] = 2;
    let mut g = Game::from_cells(4, cells);
    let changed = g.apply_move(Direction::Left);
    assert!(changed);
    assert_eq!(g.tile(0, 0), 4);
    assert_eq!(g.tile(0, 1), 4);
    assert_eq!(g.tile(0, 2), 0);
    assert_eq!(g.tile(0, 3), 0);
    assert_eq!(g.score(), 4);
}

#[test]
fn slide_without_merge_scores_nothing() {
    let mut g = Game::from_cells(2, vec![2, 0, 0, 0]);
    let changed = g.apply_move(Direction::Right);
    assert!(changed);
    assert_eq!(g.tile(0, 0), 0);
    assert_eq!(g.tile(0, 1), 2);
    assert_eq!(g.score(), 0);
}

#[test]
fn move_conserves_tile_total() {
    let mut cells = vec![0u64; 16];
    cells[0] = 2;
    cells[1] = 2;
    cells[2] = 4;
    cells[3] = 4;
    cells[5] = 8;
    let mut g = Game::from_cells(4, cells);
    let mut before = 0u64;
    for r in 0..4 {
        for c in 0..4 {
            before += g.tile(r, c);
        }
    }
    g.apply_move(Direction::Left);
    let mut after = 0u64;
    for r in 0..4 {
        for c in 0..4 {
            after += g.tile(r, c);
        }
    }
    assert_eq!(before, after);
    assert_eq!(after, 20);
}

#[test]
fn score_never_decreases() {
    let mut g = match Game::new(4, 2) {
        Ok(g) => g,
        Err(_) => panic!("a 4x4 grid is a valid configuration"),
    };
    let mut last = g.score();
    let moves = [
        Direction::Left,
        Direction::Up,
        Direction::Right,
        Direction::Down,
        Direction::Left,
        Direction::Up,
        Direction::Right,
        Direction::Down,
    ];
    for d in moves {
        g.move_tiles(d);
        let s = g.score();
        assert!(s >= last);
        last = s;
    }
}

#[test]
fn three_in_column_merge_nearest_to_edge() {
    let mut g = Game::from_cells(3, vec![2, 0, 0, 2, 0, 0, 2, 0, 0]);
    let changed = g.apply_move(Direction::Up);
    assert!(changed);
    assert_eq!(g.tile(0, 0), 4);
    assert_eq!(g.tile(1, 0), 2);
    assert_eq!(g.tile(2, 0), 0);
    assert_eq!(g.score(), 4);
}

#[test]
fn three_in_row_merge_nearest_to_edge() {
    let mut g = Game::from_cells(3, vec![2, 2, 2, 0, 0, 0, 0, 0, 0]);
    let changed = g.apply_move(Direction::Right);
    assert!(changed);
    assert_eq!(g.tile(0, 0), 0);
    assert_eq!(g.tile(0, 1), 2);
    assert_eq!(g.tile(0, 2), 4);
    assert_eq!(g.score(), 4);
}

#[test]
fn full_board_with_pair_is_not_finished() {
    let g = Game::from_cells(2, vec![2, 2, 4, 8]);
    assert!(!g.is_finished());
}

#[test]
fn board_with_empty_cell_is_not_finished() {
    let g = Game::from_cells(2, vec![2, 4, 8, 0]);
    assert!(!g.is_finished());
}

#[test]
fn spawn_fills_the_last_empty_cell() {
    let mut g = Game::from_cells(2, vec![0, 4, 2, 4]);
    g.move_tiles(Direction::Left);
    // The top row [0, 4] slides to [4, 0]; the spawn must then fill the
    // only empty cell of [4, 0, 2, 4].
    assert_eq!(g.tile(0, 0), 4);
    assert_eq!(g.tile(1, 0), 2);
    assert_eq!(g.tile(1, 1), 4);
    let spawned = match g.last_spawned() {
        Some(i) => i,
        None => panic!("a changed move must spawn a tile"),
    };
    assert_eq!(spawned, 1);
    let v = g.tile(0, 1);
    assert!(v == 2 || v == 4);
}
