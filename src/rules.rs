//! Customising the rules of the game.

use vstd::prelude::*;
use crate::piece::{Piece, Sprite};
use crate::pt::Point;
use crate::rot::Rot;
use crate::srs::{srs_data_cw, srs_data_ccw};

verus! {

/// Tetris rule customisation: the sprites and the wall kicks.
pub trait Rules {
    /// The 4x4 sprite for the given piece and rotation.
    fn piece_sprite(&self, piece: Piece, rot: Rot) -> Sprite;

    /// The kicks tried for a clockwise rotation from `rot`.
    fn rotate_cw_kicks(&self, piece: Piece, rot: Rot) -> [Point; 5];

    /// The kicks tried for a counter-clockwise rotation from `rot`.
    fn rotate_ccw_kicks(&self, piece: Piece, rot: Rot) -> [Point; 5];
}

/// The standard rules: the usual sprites and the SRS wall kicks.
#[derive(Copy, Clone, Debug, PartialEq, Eq, Structural)]
pub struct TheRules;

impl Rules for TheRules {
    fn piece_sprite(&self, piece: Piece, rot: Rot) -> Sprite {
        piece.sprite(rot)
    }

    fn rotate_cw_kicks(&self, piece: Piece, rot: Rot) -> [Point; 5] {
        srs_data_cw(piece, rot)
    }

    fn rotate_ccw_kicks(&self, piece: Piece, rot: Rot) -> [Point; 5] {
        srs_data_ccw(piece, rot)
    }
}

} // verus!
