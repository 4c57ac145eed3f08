use tetrs::{ParseWellError, Piece, Player, Point, Rot, Well};

fn fixture() -> Well {
    let mut well = Well::new(10, 4);
    let l_piece = Player::new(Piece::L, Rot::Zero, Point::new(2, 1));
    let o_piece = Player::new(Piece::O, Rot::Zero, Point::new(-1, 2));
    let i_piece = Player::new(Piece::I, Rot::Right, Point::new(7, 3));
    well.etch(&l_piece.sprite(), l_piece.pt);
    well.etch(&o_piece.sprite(), o_piece.pt);
    well.etch(&i_piece.sprite(), i_piece.pt);
    well
}

#[test]
fn hit_test() {
    let well = fixture();
    // Within the field bounds
    assert!(!well.test(&Player::new(Piece::S, Rot::Zero, Point::new(-1, 3)).sprite(), Point::new(-1, 3)));
    assert!(!well.test(&Player::new(Piece::J, Rot::Left, Point::new(5, 2)).sprite(), Point::new(5, 2)));
    // Clip left wall
    assert!(well.test(&Player::new(Piece::S, Rot::Zero, Point::new(-2, 3)).sprite(), Point::new(-2, 3)));
    // Clip with existing pieces
    assert!(well.test(&Player::new(Piece::I, Rot::Two, Point::new(2, 3)).sprite(), Point::new(2, 3)));
    // Clip right wall
    assert!(well.test(&Player::new(Piece::O, Rot::Right, Point::new(9, 1)).sprite(), Point::new(9, 1)));
    // Clip the bottom
    assert!(well.test(&Player::new(Piece::J, Rot::Left, Point::new(5, 1)).sprite(), Point::new(5, 1)));
}

#[test]
fn remove_line() {
    let mut well = fixture();

    let removed1 = well.remove_line(3);
    assert_eq!(0b0000000001 << 6, removed1);
    assert_eq!(
        "|          |\n\
         |         \u{25a1}|\n\
         |\u{25a1}\u{25a1}   \u{25a1}   \u{25a1}|\n\
         |\u{25a1}\u{25a1} \u{25a1}\u{25a1}\u{25a1}   \u{25a1}|\n\
         +----------+",
        well.to_text()
    );

    let removed2 = well.remove_line(0);
    assert_eq!(0b1101110001 << 6, removed2);
    assert_eq!(
        "|          |\n\
         |          |\n\
         |         \u{25a1}|\n\
         |\u{25a1}\u{25a1}   \u{25a1}   \u{25a1}|\n\
         +----------+",
        well.to_text()
    );
}

#[test]
fn text_round_trip() {
    let well = fixture();
    let text = well.to_text();
    let body: String = text.lines().filter(|l| l.starts_with('|')).collect::<Vec<_>>().join("\n");
    let parsed = Well::parse(&body).ok().expect("a well");
    assert_eq!(parsed, well);
    let via_trait: Well = body.parse().ok().expect("a well");
    assert_eq!(via_trait, well);
}

#[test]
fn parse_rows_top_first() {
    let well = Well::parse("|    |\n|    |\n|x   |\n|xx x|  \r\n").ok().expect("a well");
    assert_eq!(well.width(), 4);
    assert_eq!(well.height(), 4);
    assert_eq!(well.line(0), 0b1101 << 12);
    assert_eq!(well.line(1), 0b1000 << 12);
    assert_eq!(well.line(3), 0);
}

#[test]
fn parse_errors() {
    assert_eq!(Well::parse("").err(), Some(ParseWellError::Empty));
    assert_eq!(Well::parse("|    |\n||\n|    |\n|    |").err(), Some(ParseWellError::BadWalls));
    assert_eq!(Well::parse("|    |\n     |\n|    |\n|    |").err(), Some(ParseWellError::BadWalls));
    assert_eq!(Well::parse("|    |\n|     |\n|    |\n|    |").err(), Some(ParseWellError::InWidth));
    assert_eq!(Well::parse("|             |\n").err(), Some(ParseWellError::OutWidth));
    assert_eq!(Well::parse("|   |\n|   |\n|   |\n|   |").err(), Some(ParseWellError::OutWidth));
    assert_eq!(Well::parse("|    |\n|    |\n|    |").err(), Some(ParseWellError::OutHeight));
    let tall = "|    |\n".repeat(24);
    assert_eq!(Well::parse(&tall).err(), Some(ParseWellError::OutHeight));
    let highest = "|    |\n".repeat(23);
    assert!(Well::parse(&highest).is_ok());
}

#[test]
fn describe_lists_blocks() {
    let well = Well::from_data(4, &[0, 0, 0b0100, 0b1001]);
    assert_eq!(well.describe(), vec![Point::new(0, 0), Point::new(3, 0), Point::new(1, 1)]);
}
