use tetrs::{srs_ccw, srs_cw, srs_data_ccw, srs_data_cw, Piece, Player, Point, Rot, Well};

#[test]
fn wall_kick_example() {
    let well = Well::from_data(
        10,
        &[
            0b0000000000,
            0b0000110000,
            0b0000011100,
            0b0000001111,
            0b0111000111,
            0b1100001111,
            0b1111001111,
            0b1111101111,
        ],
    );
    let initial = Player::new(Piece::J, Rot::Zero, Point::new(2, 5));
    let player = srs_ccw(&well, initial);
    let expected = Player::new(Piece::J, Rot::Left, Point::new(3, 3));
    assert_eq!(expected, player);
}

#[test]
fn rotate() {
    assert_eq!(Rot::Right, Rot::Zero.cw());
    assert_eq!(Rot::Left, Rot::Zero.ccw());
}

#[test]
fn rotation_group() {
    for r in [Rot::Zero, Rot::Right, Rot::Two, Rot::Left] {
        assert_eq!(r.cw().ccw(), r);
        assert_eq!(r.ccw().cw(), r);
        assert_eq!(r.cw().cw().cw().cw(), r);
    }
    assert_eq!(Rot::from_u8(6), Rot::Two);
    assert_eq!(Piece::from_u8(9), Piece::S);
}

#[test]
fn kick_tables() {
    assert_eq!(srs_data_cw(Piece::T, Rot::Zero)[1], Point::new(-1, 0));
    assert_eq!(srs_data_cw(Piece::I, Rot::Zero)[1], Point::new(-2, 0));
    assert_eq!(srs_data_ccw(Piece::I, Rot::Left)[4], Point::new(1, 2));
    assert_eq!(srs_data_ccw(Piece::S, Rot::Right)[1], Point::new(1, 0));
    assert_eq!(srs_data_ccw(Piece::T, Rot::Right)[2], Point::new(1, -1));
}

#[test]
fn rotation_in_open_field_keeps_position() {
    let well = Well::new(10, 20);
    let p = Player::new(Piece::T, Rot::Zero, Point::new(3, 10));
    assert_eq!(srs_cw(&well, p), Player::new(Piece::T, Rot::Right, Point::new(3, 10)));
}

#[test]
fn blocked_rotation_leaves_player() {
    let well = Well::from_data(4, &[0b1011, 0b1011, 0b1011, 0b1011]);
    let p = Player::new(Piece::I, Rot::Right, Point::new(-1, 3));
    assert_eq!(srs_cw(&well, p), p);
}

#[test]
fn player_moves() {
    let p = Player::new(Piece::L, Rot::Two, Point::new(4, 7));
    assert_eq!(p.move_left().pt, Point::new(3, 7));
    assert_eq!(p.move_right().pt, Point::new(5, 7));
    assert_eq!(p.move_down().pt, Point::new(4, 6));
    assert_eq!(p.rotate_cw().rot, Rot::Left);
    assert_eq!(p.rotate_ccw().rot, Rot::Right);
    assert_eq!(p.sprite().pix, [0, 7, 4, 0]);
    assert_eq!(Point::new(1, 2).add(Point::new(-3, 4)), Point::new(-2, 6));
}
