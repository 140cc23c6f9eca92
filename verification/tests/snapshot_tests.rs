use snake_sim::engine::GameState;

#[test]
fn snapshot_encodes_cells_column_major() {
    // Board 2 wide, 3 high; index = column * height + row. The segment at
    // (0,1) takes index 1, the fruit at (1,2) takes index 5.
    let g = GameState {
        board_size: (2, 3),
        snake_position: vec![(0, 1)],
        fruit_position: Some((1, 2)),
        snake_velocity: (1, 0),
        score: 7,
        game_over: false,
    };
    let snap = g.snapshot();
    assert_eq!(snap.cells, vec![0, 1, 0, 0, 0, 2]);
    assert_eq!(snap.score, 7);
}

#[test]
fn snapshot_marks_every_segment() {
    let g = GameState {
        board_size: (4, 4),
        snake_position: vec![(2, 1), (1, 1), (1, 2)],
        fruit_position: None,
        snake_velocity: (1, 0),
        score: -3,
        game_over: false,
    };
    let snap = g.snapshot();
    assert_eq!(snap.cells.len(), 16);
    assert_eq!(snap.cells.iter().filter(|&&v| v == 1).count(), 3);
    assert_eq!(snap.cells.iter().filter(|&&v| v == 2).count(), 0);
    assert_eq!(snap.cells[2 * 4 + 1], 1);
    assert_eq!(snap.cells[1 * 4 + 1], 1);
    assert_eq!(snap.cells[1 * 4 + 2], 1);
}

#[test]
fn remote_observe_serialises_a_running_game() {
    let mut g = GameState {
        board_size: (16, 16),
        snake_position: vec![(8, 8)],
        fruit_position: Some((2, 3)),
        snake_velocity: (1, 0),
        score: 40,
        game_over: false,
    };
    let snap = g.remote_observe().expect("a running game is observed");
    assert_eq!(snap.cells.len(), 256);
    assert_eq!(snap.cells[8 * 16 + 8], 1);
    assert_eq!(snap.cells[2 * 16 + 3], 2);
    assert_eq!(snap.score, 40);
    assert_eq!(g.snake_position, vec![(8, 8)]);
    assert!(!g.game_over);
}

#[test]
fn remote_observe_resets_a_finished_game() {
    let mut g = GameState {
        board_size: (16, 16),
        snake_position: vec![(15, 8), (14, 8)],
        fruit_position: None,
        snake_velocity: (1, 0),
        score: -9,
        game_over: true,
    };
    assert!(g.remote_observe().is_none());
    assert!(!g.game_over);
    assert_eq!(g.snake_position, vec![(8, 8)]);
    assert_eq!(g.score, 0);
    assert_eq!(g.fruit_position, None);
}
