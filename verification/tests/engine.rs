use flood_it::model::{Command, Game, State};
use flood_it::{ALLOWED_STEP_COUNT, COLOR_COUNT, FIELD_H, FIELD_W};

fn make_game(field: Vec<Vec<i32>>) -> Game {
    let h = field.len();
    let w = field[0].len();
    Game {
        rng: <rand::rngs::StdRng as rand::SeedableRng>::seed_from_u64(1),
        is_clear: false,
        is_over: false,
        frame: -1,
        requested_sounds: Vec::new(),
        state: State::Controllable,
        field,
        effect: vec![vec![false; w]; h],
        painted_count: 0,
        hover_color: -1,
        sum: 0,
        paint_wait: 0,
        last_color: -1,
    }
}

#[test]
fn new_game_shape_and_colors() {
    let game = Game::new(12345);
    assert_eq!(game.field.len(), FIELD_H);
    for row in &game.field {
        assert_eq!(row.len(), FIELD_W);
        for &c in row {
            assert!(0 <= c && c < COLOR_COUNT);
        }
    }
    assert_eq!(game.effect.len(), FIELD_H);
    for row in &game.effect {
        assert_eq!(row.len(), FIELD_W);
        for &e in row {
            assert!(!e);
        }
    }
    assert!(!game.is_clear);
    assert!(!game.is_over);
    assert_eq!(game.frame, -1);
    assert_eq!(game.painted_count, 0);
    assert_eq!(game.state, State::Controllable);
    assert!(game.requested_sounds.is_empty());
    assert_eq!(game.hover_color, -1);
}

#[test]
fn new_game_same_seed_same_grid() {
    let a = Game::new(77);
    let b = Game::new(77);
    assert_eq!(a.field, b.field);
}

#[test]
fn paint_scenario_two_by_two() {
    // [[0,1],[0,2]], paint 1: the anchored region {(0,0),(0,1)} takes color 1.
    let mut game = make_game(vec![vec![0, 1], vec![0, 2]]);
    game.paint(1);
    assert_eq!(game.field, vec![vec![1, 1], vec![1, 2]]);
    assert_eq!(game.painted_count, 1);
    assert!(!game.is_clear);
    assert_eq!(game.state, State::Painting);
    assert_eq!(game.last_color, 1);
    assert_eq!(game.sum, 0);
    assert_eq!(game.paint_wait, 0);
    assert!(game.requested_sounds.is_empty());
}

#[test]
fn paint_illegal_same_color() {
    // Painting with the anchor's own color changes nothing and queues ng.wav.
    let mut game = make_game(vec![vec![0, 1], vec![0, 2]]);
    game.paint(0);
    assert_eq!(game.field, vec![vec![0, 1], vec![0, 2]]);
    assert_eq!(game.painted_count, 0);
    assert_eq!(game.state, State::Controllable);
    assert_eq!(game.requested_sounds, vec!["ng.wav"]);
}

#[test]
fn paint_illegal_is_idempotent() {
    let mut game = make_game(vec![vec![0, 1], vec![0, 2]]);
    game.paint(0);
    game.paint(0);
    assert_eq!(game.field, vec![vec![0, 1], vec![0, 2]]);
    assert_eq!(game.painted_count, 0);
    assert_eq!(game.requested_sounds, vec!["ng.wav", "ng.wav"]);
}

#[test]
fn flood_fill_uses_all_four_directions() {
    // The region must also grow leftward and upward from later cells.
    let mut game = make_game(vec![
        vec![0, 0, 1],
        vec![1, 0, 1],
        vec![0, 0, 0],
    ]);
    game.paint(2);
    assert_eq!(
        game.field,
        vec![
            vec![2, 2, 1],
            vec![1, 2, 1],
            vec![2, 2, 2],
        ]
    );
}

#[test]
fn flood_fill_leaves_disconnected_cells() {
    // An equal-colored cell not 4-connected to the anchor is untouched.
    let mut game = make_game(vec![vec![0, 1], vec![1, 0]]);
    game.paint(3);
    assert_eq!(game.field, vec![vec![3, 1], vec![1, 0]]);
}

#[test]
fn update_idle_only_advances_frame() {
    let mut game = make_game(vec![vec![0, 1], vec![0, 2]]);
    game.update(Command::Idle);
    assert_eq!(game.frame, 0);
    assert_eq!(game.field, vec![vec![0, 1], vec![0, 2]]);
    assert_eq!(game.painted_count, 0);
    assert_eq!(game.state, State::Controllable);
    assert!(game.requested_sounds.is_empty());
}

#[test]
fn wave_runs_max_diagonal_plus_one_ticks() {
    // Region {(0,0),(0,1)}: farthest repainted anti-diagonal is 1, so the
    // wave matches on ticks 0 and 1 and ends on the tick after.
    let mut game = make_game(vec![vec![0, 1], vec![0, 2]]);
    game.update(Command::Paint(3));
    assert_eq!(game.state, State::Painting);
    game.update(Command::Idle); // tick at sweep index 0: anchor matches
    assert_eq!(game.state, State::Painting);
    assert_eq!(game.effect, vec![vec![true, false], vec![false, false]]);
    game.update(Command::Idle); // tick at sweep index 1: (0,1) matches
    assert_eq!(game.state, State::Painting);
    assert_eq!(game.effect, vec![vec![false, false], vec![true, false]]);
    game.update(Command::Idle); // tick at sweep index 2: nothing matches
    assert_eq!(game.state, State::Controllable);
    assert_eq!(game.effect, vec![vec![false, false], vec![false, false]]);
    assert!(!game.is_clear);
    assert!(!game.is_over);
    assert!(game.requested_sounds.is_empty());
}

#[test]
fn win_sets_clear_and_plays_bravo() {
    let mut game = make_game(vec![vec![0, 1], vec![1, 1]]);
    game.update(Command::Paint(1));
    assert_eq!(game.field, vec![vec![1, 1], vec![1, 1]]);
    let mut guard = 0;
    while game.state == State::Painting && guard < 100 {
        game.update(Command::Idle);
        guard += 1;
    }
    assert!(game.is_clear);
    assert!(!game.is_over);
    assert_eq!(game.requested_sounds, vec!["bravo.wav"]);
}

#[test]
fn loss_on_last_move_without_uniform_grid() {
    let mut game = make_game(vec![vec![0, 1], vec![0, 3]]);
    game.painted_count = ALLOWED_STEP_COUNT - 1;
    game.update(Command::Paint(2));
    assert_eq!(game.painted_count, ALLOWED_STEP_COUNT);
    let mut guard = 0;
    while game.state == State::Painting && guard < 100 {
        game.update(Command::Idle);
        guard += 1;
    }
    assert!(game.is_over);
    assert!(!game.is_clear);
    assert_eq!(game.requested_sounds, vec!["crash.wav"]);
}

#[test]
fn below_budget_keeps_playing() {
    let mut game = make_game(vec![vec![0, 1], vec![0, 3]]);
    game.painted_count = 3;
    game.update(Command::Paint(2));
    let mut guard = 0;
    while game.state == State::Painting && guard < 100 {
        game.update(Command::Idle);
        guard += 1;
    }
    assert!(!game.is_over);
    assert!(!game.is_clear);
    assert_eq!(game.painted_count, 4);
    assert!(game.requested_sounds.is_empty());
}

#[test]
fn terminal_state_freezes_everything() {
    let mut game = make_game(vec![vec![0, 1], vec![1, 1]]);
    game.update(Command::Paint(1));
    let mut guard = 0;
    while game.state == State::Painting && guard < 100 {
        game.update(Command::Idle);
        guard += 1;
    }
    assert!(game.is_clear);
    let field = game.field.clone();
    let effect = game.effect.clone();
    let sounds = game.requested_sounds.clone();
    let frame = game.frame;
    let painted = game.painted_count;
    for color in 0..COLOR_COUNT {
        game.update(Command::Paint(color));
        game.update(Command::Idle);
    }
    assert_eq!(game.field, field);
    assert_eq!(game.effect, effect);
    assert_eq!(game.requested_sounds, sounds);
    assert_eq!(game.frame, frame);
    assert_eq!(game.painted_count, painted);
    assert!(game.is_clear);
    assert!(!game.is_over);
}

#[test]
fn set_state_painting_resets_sweep() {
    let mut game = make_game(vec![vec![0, 1], vec![0, 2]]);
    game.sum = 7;
    game.paint_wait = 1;
    game.set_state(State::Painting);
    assert_eq!(game.state, State::Painting);
    assert_eq!(game.sum, 0);
    assert_eq!(game.paint_wait, 0);
    game.set_state(State::Controllable);
    assert_eq!(game.state, State::Controllable);
}

#[test]
fn set_color_fills_from_given_cell() {
    let mut game = make_game(vec![vec![0, 2], vec![2, 2]]);
    game.set_color(1, 1, 2, 5);
    assert_eq!(game.field, vec![vec![0, 5], vec![5, 5]]);
}

#[test]
fn random_refill_stays_in_range() {
    let mut game = make_game(vec![vec![0, 1], vec![0, 2]]);
    game.set_field_random();
    assert_eq!(game.field.len(), 2);
    for row in &game.field {
        assert_eq!(row.len(), 2);
        for &c in row {
            assert!(0 <= c && c < COLOR_COUNT);
        }
    }
}
