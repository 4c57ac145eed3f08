//! The seven tetrominoes and their sprites.

use vstd::prelude::*;
use crate::rot::{Rot, rot_index};

verus! {

/// A 4x4 piece sprite.
///
/// `pix[r]` is row `r` counted from the top of the box; only its low nibble is
/// used, bit 3 being the leftmost column.
#[derive(Copy, Clone, Debug, PartialEq, Eq)]
pub struct Sprite {
    pub pix: [u8; 4],
}

impl Sprite {
    /// Only the low nibble of each row is used.
    pub open spec fn wf(self) -> bool {
        forall|r: int| 0 <= r < 4 ==> #[trigger] self.pix[r] < 16
    }

    /// The sprite has a block in row `r` (from the top) and column `c` (from the left).
    pub open spec fn has(self, r: int, c: int) -> bool {
        &&& 0 <= r < 4
        &&& 0 <= c < 4
        &&& self.pix[r] & nib(c) != 0
    }
}

/// The bit of sprite column `c` (from the left) in a sprite row.
pub open spec fn nib(c: int) -> u8 {
    if c == 0 {
        8
    } else if c == 1 {
        4
    } else if c == 2 {
        2
    } else {
        1
    }
}

/// All the valid tetrominoes.
#[derive(Copy, Clone, Debug, PartialEq, Eq, Structural)]
pub enum Piece {
    O,
    I,
    S,
    Z,
    L,
    J,
    T,
}

/// Position of a piece in the order `O, I, S, Z, L, J, T`.
pub open spec fn piece_index(p: Piece) -> int {
    match p {
        Piece::O => 0,
        Piece::I => 1,
        Piece::S => 2,
        Piece::Z => 3,
        Piece::L => 4,
        Piece::J => 5,
        Piece::T => 6,
    }
}

/// The piece at position `n % 7` in the order `O, I, S, Z, L, J, T`.
pub open spec fn piece_of(n: int) -> Piece {
    let k = n % 7;
    if k == 0 {
        Piece::O
    } else if k == 1 {
        Piece::I
    } else if k == 2 {
        Piece::S
    } else if k == 3 {
        Piece::Z
    } else if k == 4 {
        Piece::L
    } else if k == 5 {
        Piece::J
    } else {
        Piece::T
    }
}

/// Sprite rows of each piece in each rotation state.
pub open spec fn sprite_of(p: Piece, r: Rot) -> Sprite {
    let pix: [u8; 4] = match (p, r) {
        (Piece::O, _) => [0, 6, 6, 0],
        (Piece::I, Rot::Zero) => [0, 15, 0, 0],
        (Piece::I, Rot::Right) => [2, 2, 2, 2],
        (Piece::I, Rot::Two) => [0, 0, 15, 0],
        (Piece::I, Rot::Left) => [4, 4, 4, 4],
        (Piece::S, Rot::Zero) => [3, 6, 0, 0],
        (Piece::S, Rot::Right) => [2, 3, 1, 0],
        (Piece::S, Rot::Two) => [0, 3, 6, 0],
        (Piece::S, Rot::Left) => [4, 6, 2, 0],
        (Piece::Z, Rot::Zero) => [6, 3, 0, 0],
        (Piece::Z, Rot::Right) => [1, 3, 2, 0],
        (Piece::Z, Rot::Two) => [0, 6, 3, 0],
        (Piece::Z, Rot::Left) => [2, 6, 4, 0],
        (Piece::L, Rot::Zero) => [1, 7, 0, 0],
        (Piece::L, Rot::Right) => [2, 2, 3, 0],
        (Piece::L, Rot::Two) => [0, 7, 4, 0],
        (Piece::L, Rot::Left) => [6, 2, 2, 0],
        (Piece::J, Rot::Zero) => [4, 7, 0, 0],
        (Piece::J, Rot::Right) => [3, 2, 2, 0],
        (Piece::J, Rot::Two) => [0, 7, 1, 0],
        (Piece::J, Rot::Left) => [2, 2, 6, 0],
        (Piece::T, Rot::Zero) => [2, 7, 0, 0],
        (Piece::T, Rot::Right) => [2, 3, 2, 0],
        (Piece::T, Rot::Two) => [0, 7, 2, 0],
        (Piece::T, Rot::Left) => [2, 6, 2, 0],
    };
    Sprite { pix }
}

impl Piece {
    /// The piece at position `val % 7` in the order `O, I, S, Z, L, J, T`.
    pub fn from_u8(val: u8) -> (r: Piece)
        ensures
            r == piece_of(val as int),
    {
        let k: u8 = val % 7;
        if k == 0 {
            Piece::O
        } else if k == 1 {
            Piece::I
        } else if k == 2 {
            Piece::S
        } else if k == 3 {
            Piece::Z
        } else if k == 4 {
            Piece::L
        } else if k == 5 {
            Piece::J
        } else {
            Piece::T
        }
    }

    /// Position of the piece in the order `O, I, S, Z, L, J, T`.
    pub fn index(self) -> (r: u8)
        ensures
            r as int == piece_index(self),
    {
        match self {
            Piece::O => 0,
            Piece::I => 1,
            Piece::S => 2,
            Piece::Z => 3,
            Piece::L => 4,
            Piece::J => 5,
            Piece::T => 6,
        }
    }

    /// The 4x4 sprite of the piece in the given rotation state.
    pub fn sprite(self, rot: Rot) -> (r: Sprite)
        ensures
            r == sprite_of(self, rot),
            r.wf(),
    {
        let pix: [u8; 4] = match (self, rot) {
            (Piece::O, _) => [0, 6, 6, 0],
            (Piece::I, Rot::Zero) => [0, 15, 0, 0],
            (Piece::I, Rot::Right) => [2, 2, 2, 2],
            (Piece::I, Rot::Two) => [0, 0, 15, 0],
            (Piece::I, Rot::Left) => [4, 4, 4, 4],
            (Piece::S, Rot::Zero) => [3, 6, 0, 0],
            (Piece::S, Rot::Right) => [2, 3, 1, 0],
            (Piece::S, Rot::Two) => [0, 3, 6, 0],
            (Piece::S, Rot::Left) => [4, 6, 2, 0],
            (Piece::Z, Rot::Zero) => [6, 3, 0, 0],
            (Piece::Z, Rot::Right) => [1, 3, 2, 0],
            (Piece::Z, Rot::Two) => [0, 6, 3, 0],
            (Piece::Z, Rot::Left) => [2, 6, 4, 0],
            (Piece::L, Rot::Zero) => [1, 7, 0, 0],
            (Piece::L, Rot::Right) => [2, 2, 3, 0],
            (Piece::L, Rot::Two) => [0, 7, 4, 0],
            (Piece::L, Rot::Left) => [6, 2, 2, 0],
            (Piece::J, Rot::Zero) => [4, 7, 0, 0],
            (Piece::J, Rot::Right) => [3, 2, 2, 0],
            (Piece::J, Rot::Two) => [0, 7, 1, 0],
            (Piece::J, Rot::Left) => [2, 2, 6, 0],
            (Piece::T, Rot::Zero) => [2, 7, 0, 0],
            (Piece::T, Rot::Right) => [2, 3, 2, 0],
            (Piece::T, Rot::Two) => [0, 7, 2, 0],
            (Piece::T, Rot::Left) => [2, 6, 2, 0],
        };
        Sprite { pix }
    }
}

} // verus!
