#[test]
fn main() {
    let well = tetrs::Well::from_data(
        10,
        &[0b0000110000, 0b0111111001, 0b0110111111, 0b1111111111, 0b1110111111, 0b1111111111],
    );
    let player = tetrs::Player::new(tetrs::Piece::O, tetrs::Rot::Zero, tetrs::Point::new(2, 3));
    let _ = well.test(&player.sprite(), player.pt);
    let _ = well.count_holes();
}
