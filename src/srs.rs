//! Super Rotation System: the wall kicks tried when a rotation is blocked.

use vstd::prelude::*;
use crate::piece::{Piece, sprite_of};
use crate::player::Player;
use crate::pt::{Point, shifted};
use crate::rot::{Rot, cw_of, ccw_of};
use crate::well::Well;

verus! {

/// SRS offsets for a clockwise rotation of `piece` from the state `rot`, in
/// the order they are tried.
pub open spec fn kicks_cw(piece: Piece, rot: Rot) -> [Point; 5] {
    if piece == Piece::I {
        match rot {
            Rot::Zero => [Point { x: 0i8, y: 0i8 }, Point { x: -2i8, y: 0i8 }, Point { x: 1i8, y: 0i8 }, Point { x: -2i8, y: -1i8 }, Point { x: 1i8, y: 2i8 }],
            Rot::Right => [Point { x: 0i8, y: 0i8 }, Point { x: -1i8, y: 0i8 }, Point { x: 2i8, y: 0i8 }, Point { x: -1i8, y: 2i8 }, Point { x: 2i8, y: -1i8 }],
            Rot::Two => [Point { x: 0i8, y: 0i8 }, Point { x: 2i8, y: 0i8 }, Point { x: -1i8, y: 0i8 }, Point { x: 2i8, y: 1i8 }, Point { x: -1i8, y: -2i8 }],
            Rot::Left => [Point { x: 0i8, y: 0i8 }, Point { x: 1i8, y: 0i8 }, Point { x: -2i8, y: 0i8 }, Point { x: 1i8, y: -2i8 }, Point { x: -2i8, y: 1i8 }],
        }
    } else {
        match rot {
            Rot::Zero => [Point { x: 0i8, y: 0i8 }, Point { x: -1i8, y: 0i8 }, Point { x: -1i8, y: 1i8 }, Point { x: 0i8, y: -2i8 }, Point { x: -1i8, y: -2i8 }],
            Rot::Right => [Point { x: 0i8, y: 0i8 }, Point { x: 1i8, y: 0i8 }, Point { x: 1i8, y: -1i8 }, Point { x: 0i8, y: 2i8 }, Point { x: 1i8, y: 2i8 }],
            Rot::Two => [Point { x: 0i8, y: 0i8 }, Point { x: 1i8, y: 0i8 }, Point { x: 1i8, y: 1i8 }, Point { x: 0i8, y: -2i8 }, Point { x: 1i8, y: -2i8 }],
            Rot::Left => [Point { x: 0i8, y: 0i8 }, Point { x: -1i8, y: 0i8 }, Point { x: -1i8, y: -1i8 }, Point { x: 0i8, y: 2i8 }, Point { x: -1i8, y: 2i8 }],
        }
    }
}

/// SRS offsets for a counter-clockwise rotation of `piece` from the state
/// `rot`, in the order they are tried.
pub open spec fn kicks_ccw(piece: Piece, rot: Rot) -> [Point; 5] {
    if piece == Piece::I {
        match rot {
            Rot::Zero => [Point { x: 0i8, y: 0i8 }, Point { x: -1i8, y: 0i8 }, Point { x: 2i8, y: 0i8 }, Point { x: -1i8, y: 2i8 }, Point { x: 2i8, y: -1i8 }],
            Rot::Right => [Point { x: 0i8, y: 0i8 }, Point { x: 2i8, y: 0i8 }, Point { x: -1i8, y: 0i8 }, Point { x: 2i8, y: 1i8 }, Point { x: -1i8, y: -2i8 }],
            Rot::Two => [Point { x: 0i8, y: 0i8 }, Point { x: 1i8, y: 0i8 }, Point { x: -2i8, y: 0i8 }, Point { x: 1i8, y: -2i8 }, Point { x: -2i8, y: 1i8 }],
            Rot::Left => [Point { x: 0i8, y: 0i8 }, Point { x: -2i8, y: 0i8 }, Point { x: 1i8, y: 0i8 }, Point { x: -2i8, y: -1i8 }, Point { x: 1i8, y: 2i8 }],
        }
    } else {
        match rot {
            Rot::Zero => [Point { x: 0i8, y: 0i8 }, Point { x: 1i8, y: 0i8 }, Point { x: 1i8, y: 1i8 }, Point { x: 0i8, y: -2i8 }, Point { x: 1i8, y: -2i8 }],
            Rot::Right => [Point { x: 0i8, y: 0i8 }, Point { x: 1i8, y: 0i8 }, Point { x: 1i8, y: -1i8 }, Point { x: 0i8, y: 2i8 }, Point { x: 1i8, y: 2i8 }],
            Rot::Two => [Point { x: 0i8, y: 0i8 }, Point { x: -1i8, y: 0i8 }, Point { x: -1i8, y: 1i8 }, Point { x: 0i8, y: -2i8 }, Point { x: -1i8, y: -2i8 }],
            Rot::Left => [Point { x: 0i8, y: 0i8 }, Point { x: -1i8, y: 0i8 }, Point { x: -1i8, y: -1i8 }, Point { x: 0i8, y: 2i8 }, Point { x: -1i8, y: 2i8 }],
        }
    }
}

/// The offsets of both tables lie in `[-2, 2]`.
pub open spec fn small_kicks(kicks: [Point; 5]) -> bool {
    forall|i: int| 0 <= i < 5 ==> -2 <= #[trigger] kicks[i].x <= 2 && -2 <= kicks[i].y <= 2
}

/// The point lies far enough from the limits of `i8` for any kick to be added.
pub open spec fn kickable(p: Point) -> bool {
    -126 <= p.x <= 125 && -126 <= p.y <= 125
}

/// `r` is the outcome of turning `player` into `turned` with the given kicks:
/// `turned` moved by the first kick at which it fits in the well, or `player`
/// itself when it fits at none of them.
pub open spec fn kick_outcome(well: Well, player: Player, turned: Player, kicks: [Point; 5], r: Player) -> bool {
    let s = sprite_of(turned.piece, turned.rot);
    ||| r == player && forall|i: int| 0 <= i < 5 ==> well.collides(s, shifted(turned.pt, #[trigger] kicks[i]))
    ||| exists|i: int|
        0 <= i < 5 && r == (Player { pt: shifted(turned.pt, #[trigger] kicks[i]), ..turned })
            && !well.collides(s, r.pt) && forall|j: int| 0 <= j < i ==> well.collides(s, shifted(turned.pt, #[trigger] kicks[j]))
}

/// SRS offset data, for one piece class, indexed by rotation state.
pub struct SrsData {
    pub cw: [[Point; 5]; 4],
    pub ccw: [[Point; 5]; 4],
}

/// SRS offsets for a clockwise rotation of `piece` from the state `rot`.
pub fn srs_data_cw(piece: Piece, rot: Rot) -> (r: [Point; 5])
    ensures
        r == kicks_cw(piece, rot),
        small_kicks(r),
{
    if piece == Piece::I {
        match rot {
            Rot::Zero => [Point { x: 0i8, y: 0i8 }, Point { x: -2i8, y: 0i8 }, Point { x: 1i8, y: 0i8 }, Point { x: -2i8, y: -1i8 }, Point { x: 1i8, y: 2i8 }],
            Rot::Right => [Point { x: 0i8, y: 0i8 }, Point { x: -1i8, y: 0i8 }, Point { x: 2i8, y: 0i8 }, Point { x: -1i8, y: 2i8 }, Point { x: 2i8, y: -1i8 }],
            Rot::Two => [Point { x: 0i8, y: 0i8 }, Point { x: 2i8, y: 0i8 }, Point { x: -1i8, y: 0i8 }, Point { x: 2i8, y: 1i8 }, Point { x: -1i8, y: -2i8 }],
            Rot::Left => [Point { x: 0i8, y: 0i8 }, Point { x: 1i8, y: 0i8 }, Point { x: -2i8, y: 0i8 }, Point { x: 1i8, y: -2i8 }, Point { x: -2i8, y: 1i8 }],
        }
    } else {
        match rot {
            Rot::Zero => [Point { x: 0i8, y: 0i8 }, Point { x: -1i8, y: 0i8 }, Point { x: -1i8, y: 1i8 }, Point { x: 0i8, y: -2i8 }, Point { x: -1i8, y: -2i8 }],
            Rot::Right => [Point { x: 0i8, y: 0i8 }, Point { x: 1i8, y: 0i8 }, Point { x: 1i8, y: -1i8 }, Point { x: 0i8, y: 2i8 }, Point { x: 1i8, y: 2i8 }],
            Rot::Two => [Point { x: 0i8, y: 0i8 }, Point { x: 1i8, y: 0i8 }, Point { x: 1i8, y: 1i8 }, Point { x: 0i8, y: -2i8 }, Point { x: 1i8, y: -2i8 }],
            Rot::Left => [Point { x: 0i8, y: 0i8 }, Point { x: -1i8, y: 0i8 }, Point { x: -1i8, y: -1i8 }, Point { x: 0i8, y: 2i8 }, Point { x: -1i8, y: 2i8 }],
        }
    }
}

/// SRS offsets for a counter-clockwise rotation of `piece` from the state `rot`.
pub fn srs_data_ccw(piece: Piece, rot: Rot) -> (r: [Point; 5])
    ensures
        r == kicks_ccw(piece, rot),
        small_kicks(r),
{
    if piece == Piece::I {
        match rot {
            Rot::Zero => [Point { x: 0i8, y: 0i8 }, Point { x: -1i8, y: 0i8 }, Point { x: 2i8, y: 0i8 }, Point { x: -1i8, y: 2i8 }, Point { x: 2i8, y: -1i8 }],
            Rot::Right => [Point { x: 0i8, y: 0i8 }, Point { x: 2i8, y: 0i8 }, Point { x: -1i8, y: 0i8 }, Point { x: 2i8, y: 1i8 }, Point { x: -1i8, y: -2i8 }],
            Rot::Two => [Point { x: 0i8, y: 0i8 }, Point { x: 1i8, y: 0i8 }, Point { x: -2i8, y: 0i8 }, Point { x: 1i8, y: -2i8 }, Point { x: -2i8, y: 1i8 }],
            Rot::Left => [Point { x: 0i8, y: 0i8 }, Point { x: -2i8, y: 0i8 }, Point { x: 1i8, y: 0i8 }, Point { x: -2i8, y: -1i8 }, Point { x: 1i8, y: 2i8 }],
        }
    } else {
        match rot {
            Rot::Zero => [Point { x: 0i8, y: 0i8 }, Point { x: 1i8, y: 0i8 }, Point { x: 1i8, y: 1i8 }, Point { x: 0i8, y: -2i8 }, Point { x: 1i8, y: -2i8 }],
            Rot::Right => [Point { x: 0i8, y: 0i8 }, Point { x: 1i8, y: 0i8 }, Point { x: 1i8, y: -1i8 }, Point { x: 0i8, y: 2i8 }, Point { x: 1i8, y: 2i8 }],
            Rot::Two => [Point { x: 0i8, y: 0i8 }, Point { x: -1i8, y: 0i8 }, Point { x: -1i8, y: 1i8 }, Point { x: 0i8, y: -2i8 }, Point { x: -1i8, y: -2i8 }],
            Rot::Left => [Point { x: 0i8, y: 0i8 }, Point { x: -1i8, y: 0i8 }, Point { x: -1i8, y: -1i8 }, Point { x: 0i8, y: 2i8 }, Point { x: -1i8, y: 2i8 }],
        }
    }
}

impl SrsData {
    /// The offset data of `piece`'s class: the `I` piece has its own table.
    pub fn of(piece: Piece) -> (r: SrsData)
        ensures
            forall|k: int| 0 <= k < 4 ==> #[trigger] r.cw[k] == kicks_cw(piece, rot_at(k)),
            forall|k: int| 0 <= k < 4 ==> #[trigger] r.ccw[k] == kicks_ccw(piece, rot_at(k)),
    {
        SrsData {
            cw: [
                srs_data_cw(piece, Rot::Zero),
                srs_data_cw(piece, Rot::Right),
                srs_data_cw(piece, Rot::Two),
                srs_data_cw(piece, Rot::Left),
            ],
            ccw: [
                srs_data_ccw(piece, Rot::Zero),
                srs_data_ccw(piece, Rot::Right),
                srs_data_ccw(piece, Rot::Two),
                srs_data_ccw(piece, Rot::Left),
            ],
        }
    }
}

/// The rotation state with index `k`.
pub open spec fn rot_at(k: int) -> Rot {
    if k == 0 {
        Rot::Zero
    } else if k == 1 {
        Rot::Right
    } else if k == 2 {
        Rot::Two
    } else {
        Rot::Left
    }
}

/// Rotates the player clockwise, trying the SRS wall kicks in order.
///
/// The player is returned unchanged if it fits at none of them.
pub fn srs_cw(well: &Well, player: Player) -> (r: Player)
    requires
        well.wf(),
        kickable(player.pt),
    ensures
        kick_outcome(*well, player, Player { rot: cw_of(player.rot), ..player }, kicks_cw(player.piece, player.rot), r),
{
    let rotated = player.rotate_cw();
    let sprite = rotated.sprite();
    let kicks = srs_data_cw(player.piece, player.rot);
    match well.wall_kick(&sprite, kicks.as_slice(), rotated.pt) {
        Some(pt) => Player::new(rotated.piece, rotated.rot, pt),
        None => player,
    }
}

/// Rotates the player counter-clockwise, trying the SRS wall kicks in order.
///
/// The player is returned unchanged if it fits at none of them.
pub fn srs_ccw(well: &Well, player: Player) -> (r: Player)
    requires
        well.wf(),
        kickable(player.pt),
    ensures
        kick_outcome(*well, player, Player { rot: ccw_of(player.rot), ..player }, kicks_ccw(player.piece, player.rot), r),
{
    let rotated = player.rotate_ccw();
    let sprite = rotated.sprite();
    let kicks = srs_data_ccw(player.piece, player.rot);
    match well.wall_kick(&sprite, kicks.as_slice(), rotated.pt) {
        Some(pt) => Player::new(rotated.piece, rotated.rot, pt),
        None => player,
    }
}

/// Each counter-clockwise kick table undoes the clockwise one it follows: a
/// counter-clockwise turn from `cw(r)` tries, in order, the negated offsets of
/// a clockwise turn from `r`, the first being no kick at all.
pub proof fn lemma_kicks_inverse(piece: Piece, r: Rot)
    ensures
        kicks_cw(piece, r)[0] == (Point { x: 0, y: 0 }),
        forall|i: int|
            0 <= i < 5 ==> (#[trigger] kicks_ccw(piece, cw_of(r))[i]).x == -kicks_cw(piece, r)[i].x
                && kicks_ccw(piece, cw_of(r))[i].y == -kicks_cw(piece, r)[i].y,
{
}

} // verus!
