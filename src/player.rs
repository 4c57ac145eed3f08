//! The falling piece.

use vstd::prelude::*;
use crate::piece::{Piece, Sprite, sprite_of};
use crate::pt::Point;
use crate::rot::{Rot, cw_of, ccw_of};

verus! {

/// The player: a piece, its rotation state and the top-left corner of its 4x4 box.
#[derive(Copy, Clone, Debug, PartialEq, Eq, Structural)]
pub struct Player {
    pub piece: Piece,
    pub rot: Rot,
    pub pt: Point,
}

impl Player {
    /// The sprite of the player's piece in its rotation state.
    pub open spec fn sprite_spec(self) -> Sprite {
        sprite_of(self.piece, self.rot)
    }

    /// Creates a new player from its components.
    pub fn new(piece: Piece, rot: Rot, pt: Point) -> (r: Player)
        ensures
            r == (Player { piece, rot, pt }),
    {
        Player { piece, rot, pt }
    }

    /// Returns the player moved left one step.
    pub fn move_left(self) -> (r: Player)
        requires
            self.pt.x > i8::MIN,
        ensures
            r == (Player { pt: Point { x: (self.pt.x - 1) as i8, y: self.pt.y }, ..self }),
    {
        Player { piece: self.piece, rot: self.rot, pt: Point { x: self.pt.x - 1, y: self.pt.y } }
    }

    /// Returns the player moved right one step.
    pub fn move_right(self) -> (r: Player)
        requires
            self.pt.x < i8::MAX,
        ensures
            r == (Player { pt: Point { x: (self.pt.x + 1) as i8, y: self.pt.y }, ..self }),
    {
        Player { piece: self.piece, rot: self.rot, pt: Point { x: self.pt.x + 1, y: self.pt.y } }
    }

    /// Returns the player moved down one step.
    pub fn move_down(self) -> (r: Player)
        requires
            self.pt.y > i8::MIN,
        ensures
            r == (Player { pt: Point { x: self.pt.x, y: (self.pt.y - 1) as i8 }, ..self }),
    {
        Player { piece: self.piece, rot: self.rot, pt: Point { x: self.pt.x, y: self.pt.y - 1 } }
    }

    /// Returns the player rotated clockwise, in place.
    pub fn rotate_cw(self) -> (r: Player)
        ensures
            r == (Player { rot: cw_of(self.rot), ..self }),
    {
        Player { piece: self.piece, rot: self.rot.cw(), pt: self.pt }
    }

    /// Returns the player rotated counter-clockwise, in place.
    pub fn rotate_ccw(self) -> (r: Player)
        ensures
            r == (Player { rot: ccw_of(self.rot), ..self }),
    {
        Player { piece: self.piece, rot: self.rot.ccw(), pt: self.pt }
    }

    /// The sprite of the player's piece in its rotation state.
    pub fn sprite(&self) -> (r: Sprite)
        ensures
            r == self.sprite_spec(),
            r.wf(),
    {
        self.piece.sprite(self.rot)
    }
}

} // verus!
