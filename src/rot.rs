//! The four rotation states of a piece.

use vstd::prelude::*;

verus! {

/// Rotation state of a piece.
#[derive(Copy, Clone, Debug, PartialEq, Eq, Structural)]
pub enum Rot {
    /// Spawn state.
    Zero,
    /// Clockwise rotation ("right") from spawn.
    Right,
    /// Two successive rotations in either direction from spawn.
    Two,
    /// Counter-clockwise rotation ("left") from spawn.
    Left,
}

/// Number of clockwise quarter turns from the spawn state.
pub open spec fn rot_index(r: Rot) -> int {
    match r {
        Rot::Zero => 0,
        Rot::Right => 1,
        Rot::Two => 2,
        Rot::Left => 3,
    }
}

/// The rotation state reached after `n` clockwise quarter turns from spawn.
pub open spec fn rot_of(n: int) -> Rot {
    let k = n % 4;
    if k == 0 {
        Rot::Zero
    } else if k == 1 {
        Rot::Right
    } else if k == 2 {
        Rot::Two
    } else {
        Rot::Left
    }
}

/// The state one clockwise quarter turn after `r`.
pub open spec fn cw_of(r: Rot) -> Rot {
    rot_of(rot_index(r) + 1)
}

/// The state one counter-clockwise quarter turn after `r`.
pub open spec fn ccw_of(r: Rot) -> Rot {
    rot_of(rot_index(r) + 3)
}

impl Rot {
    /// Rotates clockwise.
    pub fn cw(self) -> (r: Rot)
        ensures
            r == cw_of(self),
    {
        match self {
            Rot::Zero => Rot::Right,
            Rot::Right => Rot::Two,
            Rot::Two => Rot::Left,
            Rot::Left => Rot::Zero,
        }
    }

    /// Rotates counter-clockwise.
    pub fn ccw(self) -> (r: Rot)
        ensures
            r == ccw_of(self),
    {
        match self {
            Rot::Zero => Rot::Left,
            Rot::Right => Rot::Zero,
            Rot::Two => Rot::Right,
            Rot::Left => Rot::Two,
        }
    }

    /// The rotation state of `val` quarter turns, taken modulo four.
    pub fn from_u8(val: u8) -> (r: Rot)
        ensures
            r == rot_of(val as int),
    {
        let k: u8 = val % 4;
        if k == 0 {
            Rot::Zero
        } else if k == 1 {
            Rot::Right
        } else if k == 2 {
            Rot::Two
        } else {
            Rot::Left
        }
    }

    /// Number of clockwise quarter turns from spawn, in `0..4`.
    pub fn index(self) -> (r: u8)
        ensures
            r as int == rot_index(self),
    {
        match self {
            Rot::Zero => 0,
            Rot::Right => 1,
            Rot::Two => 2,
            Rot::Left => 3,
        }
    }
}

/// Clockwise and counter-clockwise rotation undo each other, and four
/// clockwise turns come back to the starting state.
pub proof fn lemma_rotation_group(r: Rot)
    ensures
        ccw_of(cw_of(r)) == r,
        cw_of(ccw_of(r)) == r,
        cw_of(cw_of(cw_of(cw_of(r)))) == r,
{
}

} // verus!
