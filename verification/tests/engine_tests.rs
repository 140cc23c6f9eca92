use snake_sim::engine::GameState;

fn custom_state(
    board: (isize, isize),
    body: Vec<(isize, isize)>,
    fruit: Option<(isize, isize)>,
    vel: (isize, isize),
    score: isize,
) -> GameState {
    GameState {
        board_size: board,
        snake_position: body,
        fruit_position: fruit,
        snake_velocity: vel,
        score,
        game_over: false,
    }
}

#[test]
fn init_matches_start_condition() {
    let g = GameState::init(16, 16);
    assert_eq!(g.board_size, (16, 16));
    assert_eq!(g.snake_position, vec![(8, 8)]);
    assert_eq!(g.fruit_position, None);
    assert_eq!(g.snake_velocity, (1, 0));
    assert_eq!(g.score, 0);
    assert!(!g.game_over);
}

#[test]
fn one_step_moves_head_and_charges_tick() {
    // Board 16x16, body [(8,8)], velocity (1,0), score 0: after one step
    // with no growth the body is [(9,8)], the score fell by 1 and the game
    // goes on.
    let mut g = GameState::init(16, 16);
    g.step_with((1, 0), (0, 0));
    assert_eq!(g.snake_position, vec![(9, 8)]);
    assert_eq!(g.score, -1);
    assert!(!g.game_over);
    // The candidate cell was free, so the fruit spawned there.
    assert_eq!(g.fruit_position, Some((0, 0)));
}

#[test]
fn random_step_spawns_fruit_on_board() {
    let mut g = GameState::init(16, 16);
    g.step((1, 0));
    assert_eq!(g.snake_position, vec![(9, 8)]);
    let f = g.fruit_position.expect("a fruit must spawn on the first step");
    assert!(0 <= f.0 && f.0 < 16 && 0 <= f.1 && f.1 < 16);
    assert_ne!(f, (9, 8));
}

#[test]
fn wall_collision_ends_game() {
    // Board 4x4, body [(3,0),(2,0)], velocity (1,0): the head steps to
    // (4,0), out of bounds, and the game is over.
    let mut g = custom_state((4, 4), vec![(3, 0), (2, 0)], None, (1, 0), 0);
    g.step_with((1, 0), (0, 3));
    assert!(g.game_over);
    // The shifted body is the terminal snapshot; fruit and score are left.
    assert_eq!(g.snake_position, vec![(4, 0), (3, 0)]);
    assert_eq!(g.fruit_position, None);
    assert_eq!(g.score, 0);
}

#[test]
fn head_onto_vacated_tail_cell() {
    // Body [(1,1),(0,1)], velocity (-1,0): the head steps to (0,1), the
    // cell the tail vacates this very tick. The collision check runs after
    // the shift, so the head meets no segment and the game goes on.
    let mut g = custom_state((4, 4), vec![(1, 1), (0, 1)], None, (-1, 0), 0);
    g.step_with((-1, 0), (3, 3));
    assert_eq!(g.snake_position, vec![(0, 1), (1, 1)]);
    assert!(!g.game_over);
}

#[test]
fn self_collision_ends_game() {
    let mut g = custom_state(
        (8, 8),
        vec![(3, 2), (3, 3), (2, 3), (2, 2)],
        None,
        (0, 1),
        0,
    );
    g.step_with((0, 1), (7, 7));
    // The head lands on (3,3), where a shifted segment now sits.
    assert!(g.game_over);
    assert_eq!(g.snake_position, vec![(3, 3), (3, 2), (3, 3), (2, 3)]);
}

#[test]
fn reversal_request_is_ignored() {
    // Moving (1,0), requesting (-1,0) leaves the velocity at (1,0).
    let mut g = GameState::init(16, 16);
    g.step_with((-1, 0), (0, 0));
    assert_eq!(g.snake_velocity, (1, 0));
    assert_eq!(g.snake_position, vec![(9, 8)]);
}

#[test]
fn perpendicular_turn_is_accepted() {
    let mut g = GameState::init(16, 16);
    g.step_with((0, 1), (0, 0));
    assert_eq!(g.snake_velocity, (0, 1));
    assert_eq!(g.snake_position, vec![(8, 9)]);
}

#[test]
fn malformed_request_is_ignored() {
    let mut g = GameState::init(16, 16);
    g.step_with((2, 2), (0, 0));
    assert_eq!(g.snake_velocity, (1, 0));
    assert_eq!(g.snake_position, vec![(9, 8)]);
}

#[test]
fn growth_on_fruit_capture() {
    // The head steps onto the fruit: the body grows by the vacated tail
    // cell, the fruit is collected and the score nets +19 for the tick.
    let mut g = custom_state((16, 16), vec![(4, 4)], Some((5, 4)), (1, 0), 0);
    g.step_with((1, 0), (0, 0));
    assert_eq!(g.snake_position, vec![(5, 4), (4, 4)]);
    assert_eq!(g.fruit_position, None);
    assert_eq!(g.score, 19);
    assert!(!g.game_over);
}

#[test]
fn body_length_changes_only_on_capture() {
    let mut g = custom_state((16, 16), vec![(4, 4)], Some((5, 4)), (1, 0), 0);
    let len0 = g.snake_position.len();
    g.step_with((1, 0), (0, 0));
    assert_eq!(g.snake_position.len(), len0 + 1);
    // No fruit on the head's path now: the length stays.
    let len1 = g.snake_position.len();
    g.step_with((1, 0), (0, 0));
    assert_eq!(g.snake_position.len(), len1);
}

#[test]
fn update_snake_shifts_body() {
    let mut g = custom_state((8, 8), vec![(2, 2), (2, 3), (3, 3)], None, (1, 0), 5);
    let last = g.update_snake();
    assert_eq!(last, (3, 3));
    assert_eq!(g.snake_position, vec![(3, 2), (2, 2), (2, 3)]);
    assert!(!g.game_over);
    assert_eq!(g.score, 5);
}

#[test]
fn occupied_candidate_falls_back_to_vacated_cell() {
    // The drawn candidate lies on the body, so the fruit takes the vacated
    // tail cell handed in as `last`.
    let mut g = custom_state((4, 4), vec![(1, 1), (2, 1)], None, (0, 1), 0);
    g.update_env((2, 1), (3, 3));
    assert_eq!(g.fruit_position, Some((3, 3)));
    assert_eq!(g.score, -1);
}

#[test]
fn respawn_lands_on_single_free_cell() {
    // A 2x2 board with three cells under the snake: the spawn always lands
    // on the one free cell, whatever the draw.
    let mut g = custom_state((2, 2), vec![(0, 0), (0, 1), (1, 1)], None, (1, 0), 0);
    g.update_env((0, 1), (1, 0));
    assert_eq!(g.fruit_position, Some((1, 0)));

    let mut g2 = custom_state((2, 2), vec![(0, 0), (0, 1), (1, 1)], None, (1, 0), 0);
    g2.update_env((1, 0), (1, 0));
    assert_eq!(g2.fruit_position, Some((1, 0)));
}

#[test]
fn reset_restores_start_condition() {
    let mut g = custom_state((16, 16), vec![(3, 0), (2, 0)], Some((5, 5)), (0, -1), 44);
    g.game_over = true;
    g.reset();
    assert_eq!(g.board_size, (16, 16));
    assert_eq!(g.snake_position, vec![(8, 8)]);
    assert_eq!(g.fruit_position, None);
    assert_eq!(g.snake_velocity, (1, 0));
    assert_eq!(g.score, 0);
    assert!(!g.game_over);
}
