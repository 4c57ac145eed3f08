use tetrs::{test_player, trace_down, Clock, Input, Piece, Player, Point, Rot, State, Tile, TileTy, Well};

#[test]
fn spawn_onto_blocks_is_game_over() {
    let well = Well::from_data(10, &[0b0000110000, 0, 0, 0, 0, 0]);
    let mut state = State::with_well(well);
    assert!(state.spawn(Piece::T));
    assert!(state.is_game_over());
}

#[test]
fn spawn_in_empty_well() {
    let mut state = State::new(10, 22);
    assert!(!state.spawn(Piece::T));
    assert_eq!(state.player(), Some(&Player::new(Piece::T, Rot::Zero, Point::new(3, 21))));
    assert!(!state.spawn(Piece::O));
    assert_eq!(state.player().unwrap().pt, Point::new(3, 22));
    assert!(!state.is_game_over());
}

#[test]
fn moves_and_lock() {
    let mut state = State::new(10, 8);
    assert!(!state.move_left());
    assert!(!state.soft_drop());
    state.spawn(Piece::O);
    assert!(state.move_left());
    assert_eq!(state.player().unwrap().pt, Point::new(2, 8));
    for _ in 0..2 {
        assert!(state.move_left());
    }
    assert!(state.move_left());
    assert!(!state.move_left());
    assert!(state.move_right());
    assert!(state.rotate_cw());
    assert!(state.rotate_ccw());
    assert!(state.hard_drop());
    assert!(state.player().is_none());
    assert_eq!(state.well().line(0), 0b0110000000 << 6);
    assert_eq!(state.well().line(1), 0b0110000000 << 6);
}

#[test]
fn soft_drop_locks_at_rest() {
    let mut state = State::new(10, 4);
    state.set_player(Player::new(Piece::O, Rot::Zero, Point::new(0, 2)));
    assert!(!state.gravity());
    assert!(state.player().is_none());
    assert_eq!(state.well().line(0), 0b0110000000 << 6);
}

#[test]
fn clear_lines_removes_full_rows_only() {
    let well = Well::from_data(4, &[0b1000, 0b1111, 0b0110, 0b1111]);
    let mut state = State::with_well(well);
    let cleared = state.clear_lines();
    assert_eq!(cleared, vec![0, 2]);
    assert_eq!(state.well().line(0), 0b0110 << 12);
    assert_eq!(state.well().line(1), 0b1000 << 12);
    assert_eq!(state.well().line(2), 0);
    assert_eq!(state.well().line(3), 0);
}

#[test]
fn free_functions() {
    let well = Well::new(10, 6);
    let p = Player::new(Piece::I, Rot::Zero, Point::new(3, 5));
    assert!(!test_player(&well, p));
    assert_eq!(trace_down(&well, p).pt, Point::new(3, 1));
}

#[test]
fn tiles() {
    let t = Tile::from(TileTy::Field, 3, Some(Piece::J));
    assert_eq!(t.into_byte(), 0b10_101_011);
    assert_eq!(t.tile_ty(), TileTy::Field);
    assert_eq!(t.part(), 3);
    assert_eq!(t.piece(), Some(Piece::J));
    let bg = Tile::from_byte(0b11_111_000);
    assert_eq!(bg.tile_ty(), TileTy::Background);
    assert_eq!(bg.piece(), None);
}

#[test]
fn input_timers() {
    let mut input = Input::new(Clock { gravity: 10, player: 4 });
    input.timers.gravity = 3;
    assert_eq!(input.ffw(), 1);
    assert_eq!(input.timers.gravity, 9);
    input.move_left_down();
    input.move_left_up();
    input.hard_drop();
    assert_eq!(input.state.hard_drop, 1);
    let mut state = State::new(10, 10);
    input.tick(&mut state);
    assert_eq!(input.timers.player, 3);
}

#[test]
fn state_text_shows_player() {
    let mut state = State::new(4, 4);
    state.set_player(Player::new(Piece::O, Rot::Zero, Point::new(0, 2)));
    assert_eq!(state.to_text(), "|    |\n|    |\n| \u{25a1}\u{25a1} |\n| \u{25a1}\u{25a1} |\n+----+");
}
