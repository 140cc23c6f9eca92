use snake_sim::control::{DirectDriver, Intent, KeyEvent};
use snake_sim::engine::GameState;

fn running_state() -> GameState {
    // A fruit far from the snake's path keeps the ticks deterministic: no
    // spawn happens while it is on the board.
    GameState {
        board_size: (16, 16),
        snake_position: vec![(8, 8)],
        fruit_position: Some((0, 0)),
        snake_velocity: (1, 0),
        score: 0,
        game_over: false,
    }
}

#[test]
fn intents_map_to_velocities() {
    let mut g = running_state();
    g.step_intent(Intent::Up);
    assert_eq!(g.snake_velocity, (0, -1));
    assert_eq!(g.snake_position, vec![(8, 7)]);
    g.step_intent(Intent::Left);
    assert_eq!(g.snake_velocity, (-1, 0));
    assert_eq!(g.snake_position, vec![(7, 7)]);
    g.step_intent(Intent::Down);
    assert_eq!(g.snake_velocity, (0, 1));
    g.step_intent(Intent::Right);
    assert_eq!(g.snake_velocity, (1, 0));
}

#[test]
fn pass_keeps_direction() {
    let mut g = running_state();
    g.step_intent(Intent::Pass);
    assert_eq!(g.snake_velocity, (1, 0));
    assert_eq!(g.snake_position, vec![(9, 8)]);
    assert_eq!(g.score, -1);
}

#[test]
fn reversal_intent_is_ignored() {
    let mut g = running_state();
    g.step_intent(Intent::Left);
    assert_eq!(g.snake_velocity, (1, 0));
    assert_eq!(g.snake_position, vec![(9, 8)]);
}

#[test]
fn modes_agree_on_matching_inputs() {
    // The intent sequence [Up, Pass, Right] over the remote channel and the
    // equivalent key events on matching ticks of a direct session drive the
    // game through the same trajectory. The fruit sits away from the path,
    // so both runs see the same draws (none).
    let mut remote = running_state();
    remote.step_intent(Intent::Up);
    remote.step_intent(Intent::Pass);
    remote.step_intent(Intent::Right);

    let mut direct = running_state();
    let mut driver = DirectDriver::new(1);
    driver.direct_tick(&mut direct, Some(KeyEvent::Up));
    driver.direct_tick(&mut direct, None);
    driver.direct_tick(&mut direct, Some(KeyEvent::Right));

    assert_eq!(remote.snake_position, direct.snake_position);
    assert_eq!(remote.snake_velocity, direct.snake_velocity);
    assert_eq!(remote.score, direct.score);
    assert_eq!(remote.fruit_position, direct.fruit_position);
    assert_eq!(remote.game_over, direct.game_over);
    assert_eq!(remote.snake_position, vec![(9, 6)]);
}

#[test]
fn direct_session_rations_steps() {
    // With an interval of 3, the simulation advances on the first frame and
    // then on every third; a key pressed between steps is latched and
    // applied when the next step fires.
    let mut g = running_state();
    let mut d = DirectDriver::new(3);
    d.direct_tick(&mut g, None);
    assert_eq!(g.snake_position, vec![(9, 8)]);
    d.direct_tick(&mut g, Some(KeyEvent::Down));
    assert_eq!(g.snake_position, vec![(9, 8)]);
    d.direct_tick(&mut g, None);
    assert_eq!(g.snake_position, vec![(9, 8)]);
    d.direct_tick(&mut g, None);
    assert_eq!(g.snake_position, vec![(9, 9)]);
    assert_eq!(g.snake_velocity, (0, 1));
}

#[test]
fn pause_freezes_the_simulation() {
    let mut g = running_state();
    let mut d = DirectDriver::new(1);
    d.direct_tick(&mut g, Some(KeyEvent::PauseToggle));
    d.direct_tick(&mut g, Some(KeyEvent::Right));
    d.direct_tick(&mut g, None);
    assert_eq!(g.snake_position, vec![(8, 8)]);
    assert_eq!(g.score, 0);
    d.direct_tick(&mut g, Some(KeyEvent::PauseToggle));
    d.direct_tick(&mut g, None);
    assert_eq!(g.snake_position, vec![(9, 8)]);
}

#[test]
fn confirm_resets_a_finished_game() {
    let mut g = running_state();
    g.game_over = true;
    let mut d = DirectDriver::new(1);
    d.direct_tick(&mut g, Some(KeyEvent::Right));
    assert!(g.game_over);
    d.direct_tick(&mut g, Some(KeyEvent::Confirm));
    assert!(!g.game_over);
    assert_eq!(g.snake_position, vec![(8, 8)]);
    assert_eq!(g.snake_velocity, (1, 0));
    assert_eq!(g.score, 0);
}
