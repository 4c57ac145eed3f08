use rand::SeedableRng;
use tetrs::{Bag, BestBag, OfficialBag, Piece, Player, Point, Rot, Rules, Scene, State, TheRules, TileTy, Weights, Well, WorstBag};

#[test]
fn scene_background_and_draw() {
    let mut scene = Scene::new(4, 4);
    assert_eq!(scene.line(0)[0].into_byte(), 0b11_010_000);
    assert_eq!(scene.line(1)[0].into_byte(), 0b11_001_000);
    assert_eq!(scene.line(3)[0].into_byte(), 0b11_000_000);
    scene.draw(Player::new(Piece::O, Rot::Zero, Point::new(0, 2)), TileTy::Field);
    let bottom = scene.line(3);
    assert_eq!(bottom[1].tile_ty(), TileTy::Field);
    assert_eq!(bottom[1].piece(), Some(Piece::O));
    assert_eq!(bottom[1].part(), 2);
    assert_eq!(bottom[2].part(), 3);
    assert_eq!(bottom[0].tile_ty(), TileTy::Background);
    scene.remove_line(0);
    assert_eq!(scene.line(3)[1].part(), 0);
    assert_eq!(scene.line(2)[1].tile_ty(), TileTy::Background);
}

#[test]
fn state_scene_shows_player_and_shadow() {
    let mut state = State::new(4, 6);
    state.spawn(Piece::O);
    let scene = state.scene();
    assert_eq!(scene.line(0)[1].tile_ty(), TileTy::Player);
    assert_eq!(scene.line(5)[1].tile_ty(), TileTy::Shadow);
    state.hard_drop();
    assert_eq!(state.scene().line(5)[1].tile_ty(), TileTy::Field);
}

#[test]
fn official_bag_deals_each_piece_once_per_bag() {
    let mut bag = OfficialBag::with_rng(rand::rngs::StdRng::seed_from_u64(7));
    let well = Well::new(10, 10);
    for _ in 0..3 {
        let mut seen: Vec<Piece> = Vec::new();
        for _ in 0..7 {
            let p = bag.next(&well).unwrap();
            assert!(!seen.contains(&p));
            seen.push(p);
        }
        assert_eq!(bag.peek().len(), 7);
    }
}

#[test]
fn best_and_worst_bags() {
    let well = Well::from_data(4, &[0, 0, 0, 0, 0b1001, 0b1001]);
    let mut best = BestBag::new(Weights::default());
    let mut worst = WorstBag::new(Weights::default());
    assert_eq!(best.next(&well), Some(Piece::O));
    assert_ne!(worst.next(&well), Some(Piece::O));
    assert!(best.peek().is_empty());
}

#[test]
fn random_weights_in_range() {
    let mut rng = rand::rngs::StdRng::seed_from_u64(1);
    let w = Weights::random(&mut rng);
    assert!(w.holes_f >= -500_000 && w.holes_f < 500_000);
    assert!(w.stacking_f >= -500_000 && w.stacking_f < 500_000);
}

#[test]
fn the_rules() {
    let rules = TheRules;
    assert_eq!(rules.piece_sprite(Piece::T, Rot::Two).pix, [0, 7, 2, 0]);
    assert_eq!(rules.rotate_cw_kicks(Piece::I, Rot::Zero)[2], Point::new(1, 0));
    assert_eq!(rules.rotate_ccw_kicks(Piece::Z, Rot::Zero)[1], Point::new(1, 0));
}

#[test]
fn official_bag_shuffles() {
    let mut bag = OfficialBag::with_rng(rand::rngs::StdRng::seed_from_u64(7));
    let well = Well::new(10, 10);
    let mut dealt: Vec<Piece> = Vec::new();
    for _ in 0..14 {
        dealt.push(bag.next(&well).unwrap());
    }
    let unshuffled = [Piece::O, Piece::I, Piece::S, Piece::Z, Piece::L, Piece::J, Piece::T];
    assert!(dealt[..7] != unshuffled[..] || dealt[7..] != unshuffled[..]);
}

#[test]
fn random_weights_vary() {
    let mut rng = rand::rngs::StdRng::seed_from_u64(3);
    let a = Weights::random(&mut rng);
    let b = Weights::random(&mut rng);
    assert_ne!(a, b);
    assert!(a.agg_height_f != -500_000 || a.max_height_f != -500_000);
}
