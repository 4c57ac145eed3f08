use tetrs::{Piece, Play, PlayI, Player, Point, Rot, Weights, Well, LOST};

#[test]
fn bot_tdd() {
    let well = Well::from_data(
        10,
        &[
            0b0000000000,
            0b0000110000,
            0b0111111001,
            0b0110111111,
            0b1111111111,
            0b1110111111,
            0b1111111111,
        ],
    );
    let f = Weights::crunch(&well);
    assert_eq!(28, f.agg_height);
    assert_eq!(4, f.max_height);
    assert_eq!(2, f.complete_lines);
    assert_eq!(2, f.holes);
    assert_eq!(0, f.caves);
    assert_eq!(6, f.bumpiness);
    assert_eq!(1, f.stacking);
}

#[test]
fn crunch_scenario() {
    // Rows listed top first; the same board read bottom first in the spec.
    let well = Well::from_data(
        10,
        &[0b0000110000, 0b1001111110, 0b1111110110, 0b1111111111, 0b1111110111, 0b1111111111],
    );
    let f = Weights::crunch(&well);
    assert_eq!(28, f.agg_height);
    assert_eq!(2, f.complete_lines);
    // The gaps below the column tops; the top row is taken where the flood
    // fill starts, so the flood count differs here.
    assert_eq!(2, f.holes - f.caves);
    assert_eq!(6, f.bumpiness);
    assert_eq!(1, f.stacking);
    let taller = Well::from_data(
        10,
        &[0, 0, 0b0000110000, 0b1001111110, 0b1111110110, 0b1111111111, 0b1111110111, 0b1111111111],
    );
    let g = Weights::crunch(&taller);
    assert_eq!(28, g.agg_height);
    assert_eq!(2, g.complete_lines);
    assert_eq!(2, g.holes);
    assert_eq!(0, g.caves);
    assert_eq!(6, g.bumpiness);
    assert_eq!(1, g.stacking);
}

#[test]
fn play() {
    let well = Well::from_data(
        10,
        &[
            0b0000000000,
            0b0000000000,
            0b0000000000,
            0b0000000000,
            0b1100110000,
            0b1100111111,
        ],
    );
    let bot = PlayI::play(&Weights::default(), &well, Player::new(Piece::O, Rot::Zero, Point::new(4, 6)));
    assert_eq!(
        &[Play::SoftDrop, Play::SoftDrop, Play::MoveLeft, Play::MoveLeft, Play::MoveLeft, Play::SoftDrop, Play::SoftDrop, Play::SoftDrop],
        &*bot.play
    );
}

#[test]
fn eval_lost_and_default_weights() {
    let w = Weights::default();
    assert_eq!(w.agg_height_f, -510066);
    let lost = Well::from_data(10, &[0b0000100000, 0, 0, 0]);
    assert_eq!(w.eval(&lost), LOST);
    let empty = Well::new(10, 4);
    assert_eq!(w.eval(&empty), 0);
    let one = Well::from_data(10, &[0, 0, 0, 0b1000000000]);
    // One column of height one: aggregate and max height 1, bumpiness 1.
    assert_eq!(w.eval(&one), -510066 - 510066 - 184483);
}

#[test]
fn search_avoids_losing_placements() {
    let well = Well::from_data(4, &[0, 0, 0b1000, 0b1100, 0b1110]);
    let r = PlayI::play(&Weights::default(), &well, Player::new(Piece::O, Rot::Zero, Point::new(0, 5)));
    let q = r.player.expect("a placement");
    assert!(r.score > LOST);
    let mut w2 = well;
    w2.etch(&q.sprite(), q.pt);
    assert!(Weights::default().eval(&w2) > LOST);
}

#[test]
fn search_from_colliding_start_finds_nothing() {
    let well = Well::from_data(4, &[0b0110, 0b0110, 0, 0]);
    let r = PlayI::play(&Weights::default(), &well, Player::new(Piece::O, Rot::Zero, Point::new(0, 4)));
    assert_eq!(r.player, None);
    assert!(r.play.is_empty());
    assert_eq!(r.score, LOST);
}

#[test]
fn slide_under_overhang() {
    // The best place for the I piece is the tunnel under the roof on the left,
    // reached only by dropping on the right and sliding left along the floor.
    let well = Well::from_data(8, &[0, 0, 0, 0, 0b11110000, 0b00000000, 0b11111111]);
    let weights = Weights::default();
    let reach = PlayI::play(&weights, &well, Player::new(Piece::I, Rot::Zero, Point::new(2, 7)));
    let q = reach.player.expect("the tunnel is reachable");
    let mut by_search = well;
    by_search.etch(&q.sprite(), q.pt);
    assert_eq!(by_search.line(1), 0b11110000 << 8);
    assert!(reach.play.contains(&Play::MoveLeft));
    let grid = PlayI::best(&weights, &well, Piece::I);
    let g = grid.player.expect("a placement from above");
    let mut by_grid = well;
    by_grid.etch(&g.sprite(), g.pt);
    assert_ne!(by_grid.line(1), 0b11110000 << 8);
    assert!(reach.score > grid.score);
}

#[test]
fn grid_search_finds_a_resting_placement() {
    let well = Well::new(10, 8);
    let r = PlayI::best(&Weights::default(), &well, Piece::O);
    let q = r.player.expect("a placement");
    assert_eq!(q.piece, Piece::O);
    assert!(well.test(&q.sprite(), q.move_down().pt));
    assert!(r.play.is_empty());
}

#[test]
fn piece_choice() {
    let weights = Weights::default();
    let well = Well::from_data(4, &[0, 0, 0, 0, 0b1001, 0b1001]);
    let best = PlayI::best_piece(&weights, &well);
    let worst = PlayI::worst_piece(&weights, &well);
    assert_eq!(best, Piece::O);
    assert_ne!(worst, best);
    assert_eq!(PlayI::pick_worst(&[5, 3, 3, 9, 9, 9, 9]), Piece::Z);
    assert_eq!(PlayI::pick_best(&[5, 3, 7, 7, 1, 1, 1]), Piece::L);
    assert_eq!(PlayI::piece_score(&weights, &Well::from_data(4, &[0b0110, 0b0110, 0b1111, 0b1111]), Piece::O), LOST);
}

#[test]
fn worst_piece_by_grid_search() {
    let weights = Weights::default();
    let well = Well::from_data(4, &[0, 0, 0, 0, 0b1001, 0b1001]);
    let worst = PlayI::worst_piece_grid(&weights, &well);
    assert_ne!(worst, Piece::O);
    let empty = Well::new(4, 6);
    // Every piece fits flat in an empty well; the first lowest score wins.
    let w = PlayI::worst_piece_grid(&weights, &empty);
    assert!(PlayI::best(&weights, &empty, w).score <= PlayI::best(&weights, &empty, Piece::O).score);
}
