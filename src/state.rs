//! The game state: a well and the falling piece, driven one command at a time.

use vstd::prelude::*;
use crate::piece::{Piece, Sprite, sprite_of};
use crate::player::Player;
use crate::pt::{Point, shifted as shifted_pt};
use crate::rot::{Rot, cw_of, ccw_of};
use crate::srs::{srs_cw, srs_ccw, kicks_cw, kicks_ccw, kick_outcome, kickable};
use crate::scene::Scene;
use crate::tile::TileTy;
use crate::well::{Well, MAX_HEIGHT};

verus! {

/// A player that every command can move, rotate and kick without leaving the
/// range of `i8`: far above the field it stands between the walls.
pub open spec fn player_ok(well: Well, p: Player) -> bool {
    &&& kickable(p.pt)
    &&& p.pt.y > 100 ==> -4 < p.pt.x < well.width
}

/// The rows of `rows` that differ from `m`, in order.
pub open spec fn kept_rows(rows: Seq<u16>, m: u16) -> Seq<u16>
    decreases rows.len(),
{
    if rows.len() == 0 {
        rows
    } else if rows.last() == m {
        kept_rows(rows.drop_last(), m)
    } else {
        kept_rows(rows.drop_last(), m).push(rows.last())
    }
}

/// The indices of the rows of `rows` equal to `m`, in increasing order.
pub open spec fn full_rows(rows: Seq<u16>, m: u16) -> Seq<i32>
    decreases rows.len(),
{
    if rows.len() == 0 {
        Seq::empty()
    } else if rows.last() == m {
        full_rows(rows.drop_last(), m).push((rows.len() - 1) as i32)
    } else {
        full_rows(rows.drop_last(), m)
    }
}

/// `s1` is `s0` with the rows `rows` removed in turn, from the bottom up;
/// `rows` gives their indices before any was removed.
pub open spec fn scene_cleared(s0: Scene, s1: Scene, rows: Seq<i32>) -> bool
    decreases rows.len(),
{
    if rows.len() == 0 {
        s1 == s0
    } else {
        exists|mid: Scene|
            scene_cleared(s0, mid, rows.drop_last()) && #[trigger] s1.removed_from(mid, rows.last() - (rows.len() - 1))
    }
}

/// The spawn position of a piece: top of the well, centered, one row lower for
/// all pieces but `O` and `I`.
pub open spec fn spawn_point(well: Well, piece: Piece) -> Point {
    Point {
        x: (well.width / 2 - 2) as i8,
        y: (well.height - if piece != Piece::O && piece != Piece::I { 1int } else { 0int }) as i8,
    }
}

/// Game state of player and well, with the scene of the blocks dropped so far.
#[derive(Copy, Clone, Debug)]
pub struct State {
    pub player: Option<Player>,
    pub well: Well,
    pub scene: Scene,
}

impl State {
    /// The well is well formed and the player, if any, is in range and has no
    /// block beyond a wall.
    pub open spec fn wf(self) -> bool {
        &&& self.well.wf()
        &&& self.scene.wf()
        &&& self.scene.width == self.well.width
        &&& self.scene.height == self.well.height
        &&& match self.player {
            Some(p) => player_ok(self.well, p) && self.well.fits_walls(p.sprite_spec(), p.pt),
            None => true,
        }
    }

    /// Creates a new game state with an empty well and no player.
    pub fn new(width: i8, height: i8) -> (r: State)
        requires
            4 <= width <= 12,
            4 <= height <= MAX_HEIGHT,
        ensures
            r.wf(),
            r.player is None,
            r.well.width == width,
            r.well.height == height,
            r.well.is_empty(),
    {
        State { player: None, well: Well::new(width, height), scene: Scene::new(width, height) }
    }

    /// Creates a new game state from an existing well, with no player.
    pub fn with_well(well: Well) -> (r: State)
        requires
            well.wf(),
        ensures
            r.wf(),
            r.player is None,
            r.well == well,
    {
        let scene = Scene::new(well.width(), well.height());
        State { player: None, well, scene }
    }

    /// Returns the current player.
    pub fn player(&self) -> (r: Option<&Player>)
        ensures
            r == match self.player {
                Some(p) => Some(&p),
                None => None::<&Player>,
            },
    {
        match &self.player {
            Some(p) => Some(p),
            None => None,
        }
    }

    /// Sets the current player.
    pub fn set_player(&mut self, player: Player)
        requires
            old(self).wf(),
            player_ok(old(self).well, player),
            old(self).well.fits_walls(player.sprite_spec(), player.pt),
        ensures
            final(self).wf(),
            final(self).player == Some(player),
            final(self).well == old(self).well,
    {
        self.player = Some(player);
    }

    /// Returns the well.
    pub fn well(&self) -> (r: &Well)
        ensures
            *r == self.well,
    {
        &self.well
    }
}

/// A sprite that does not collide has no block beyond a wall.
pub proof fn lemma_free_fits(w: Well, s: Sprite, p: Point)
    requires
        !w.collides(s, p),
    ensures
        w.fits_walls(s, p),
{
    assert forall|r: int, c: int| #![trigger s.has(r, c)] s.has(r, c) && 0 <= p.y - r < w.height implies 0
        <= p.x + c < w.width by {
        assert(!(s.has(r, c) && w.blocked(p.y - r, p.x + c)));
    }
}

/// Tests if the player collides with the well.
pub fn test_player(well: &Well, player: Player) -> (r: bool)
    requires
        well.wf(),
    ensures
        r == well.collides(player.sprite_spec(), player.pt),
{
    let sprite = player.sprite();
    well.test(&sprite, player.pt)
}

/// Drops the player straight down to where it comes to rest.
pub fn trace_down(well: &Well, player: Player) -> (r: Player)
    requires
        well.wf(),
    ensures
        r.piece == player.piece,
        r.rot == player.rot,
        well.rests_at(player.sprite_spec(), player.pt, r.pt),
{
    let sprite = player.sprite();
    let pt = well.trace_down(&sprite, player.pt);
    Player::new(player.piece, player.rot, pt)
}

/// The player moved by `dx` columns and `dy` rows.
pub open spec fn moved(p: Player, dx: int, dy: int) -> Player {
    Player { pt: Point { x: (p.pt.x + dx) as i8, y: (p.pt.y + dy) as i8 }, ..p }
}

/// The state after a move by `(dx, dy)` that is made only where it does not collide.
pub open spec fn shift_outcome(old: State, new: State, dx: int, dy: int, r: bool) -> bool {
    &&& new.well == old.well
    &&& match old.player {
        None => !r && new.player is None,
        Some(p) => if !old.well.collides(p.sprite_spec(), moved(p, dx, dy).pt) {
            r && new.player == Some(moved(p, dx, dy))
        } else {
            !r && new.player == Some(p)
        },
    }
}

/// The state after a rotation through the given kick table.
pub open spec fn turn_outcome(old: State, new: State, cw: bool, r: bool) -> bool {
    &&& new.well == old.well
    &&& match old.player {
        None => !r && new.player is None,
        Some(p) => match new.player {
            Some(q) => r == (q != p) && if cw {
                kick_outcome(old.well, p, Player { rot: cw_of(p.rot), ..p }, kicks_cw(p.piece, p.rot), q)
            } else {
                kick_outcome(old.well, p, Player { rot: ccw_of(p.rot), ..p }, kicks_ccw(p.piece, p.rot), q)
            },
            None => false,
        },
    }
}

/// The state after the player, if any, is etched into the well at its place.
pub open spec fn lock_outcome(old: State, new: State) -> bool {
    &&& new.player is None
    &&& match old.player {
        None => new.well == old.well,
        Some(p) => new.well.is_etch_of(old.well, p.sprite_spec(), p.pt),
    }
}

proof fn lemma_kick_stays_ok(well: Well, p: Player, turned: Player, kicks: [Point; 5], q: Player)
    requires
        well.wf(),
        player_ok(well, p),
        turned.pt == p.pt,
        kicks[0] == (Point { x: 0, y: 0 }),
        forall|i: int| 0 <= i < 5 ==> -2 <= #[trigger] kicks[i].x <= 2 && -2 <= kicks[i].y <= 2,
        kick_outcome(well, p, turned, kicks, q),
        well.fits_walls(p.sprite_spec(), p.pt),
        q != p ==> q.piece == p.piece && q.rot == turned.rot && turned.piece == p.piece,
    ensures
        player_ok(well, q),
        well.fits_walls(q.sprite_spec(), q.pt),
{
    if q != p {
        let s = sprite_of(turned.piece, turned.rot);
        let i = choose|i: int|
            0 <= i < 5 && q == (Player { pt: shifted_pt(turned.pt, #[trigger] kicks[i]), ..turned })
                && !well.collides(s, q.pt) && forall|j: int| 0 <= j < i ==> well.collides(s, shifted_pt(turned.pt, #[trigger] kicks[j]));
        lemma_free_fits(well, s, q.pt);
        if p.pt.y > 100 {
            if i > 0 {
                assert(well.collides(s, shifted_pt(turned.pt, kicks[0])));
                assert(shifted_pt(turned.pt, kicks[0]) == p.pt);
            }
        }
    }
}

/// The spawn sprites of all pieces lie in the two top rows of their box.
proof fn lemma_spawn_rows(piece: Piece, r: int, c: int)
    requires
        sprite_of(piece, Rot::Zero).has(r, c),
    ensures
        if piece == Piece::O { 1 <= r <= 2 } else { 0 <= r <= 1 },
{
    let s = sprite_of(piece, Rot::Zero);
    assert(0u8 & 8u8 == 0 && 0u8 & 4u8 == 0 && 0u8 & 2u8 == 0 && 0u8 & 1u8 == 0) by (bit_vector);
}

impl State {
    /// The well extends into its two top lines.
    pub open spec fn game_over(self) -> bool {
        self.well.field[self.well.height - 1] != 0 || self.well.field[self.well.height - 2] != 0
    }

    /// Moves the player one block to the left.
    ///
    /// Does nothing and returns `false` if no player or no space to move left.
    pub fn move_left(&mut self) -> (r: bool)
        requires
            old(self).wf(),
        ensures
            final(self).wf(),
            shift_outcome(*old(self), *final(self), -1, 0, r),
    {
        let player = match self.player {
            Some(pl) => pl,
            None => return false,
        };
        let next = player.move_left();
        if !test_player(&self.well, next) {
            proof {
                lemma_free_fits(self.well, next.sprite_spec(), next.pt);
            }
            self.player = Some(next);
            true
        } else {
            false
        }
    }

    /// Moves the player one block to the right.
    ///
    /// Does nothing and returns `false` if no player or no space to move right.
    pub fn move_right(&mut self) -> (r: bool)
        requires
            old(self).wf(),
        ensures
            final(self).wf(),
            shift_outcome(*old(self), *final(self), 1, 0, r),
    {
        let player = match self.player {
            Some(pl) => pl,
            None => return false,
        };
        let next = player.move_right();
        if !test_player(&self.well, next) {
            proof {
                lemma_free_fits(self.well, next.sprite_spec(), next.pt);
            }
            self.player = Some(next);
            true
        } else {
            false
        }
    }

    /// Rotates the player clockwise, with a wall kick where the rotation is blocked.
    ///
    /// Returns `false` if no player or the player did not change.
    pub fn rotate_cw(&mut self) -> (r: bool)
        requires
            old(self).wf(),
        ensures
            final(self).wf(),
            turn_outcome(*old(self), *final(self), true, r),
    {
        let player = match self.player {
            Some(pl) => pl,
            None => return false,
        };
        let next = srs_cw(&self.well, player);
        proof {
            lemma_kick_stays_ok(self.well, player, Player { rot: cw_of(player.rot), ..player },
                kicks_cw(player.piece, player.rot), next);
        }
        self.player = Some(next);
        player != next
    }

    /// Rotates the player counter-clockwise, with a wall kick where the rotation is blocked.
    ///
    /// Returns `false` if no player or the player did not change.
    pub fn rotate_ccw(&mut self) -> (r: bool)
        requires
            old(self).wf(),
        ensures
            final(self).wf(),
            turn_outcome(*old(self), *final(self), false, r),
    {
        let player = match self.player {
            Some(pl) => pl,
            None => return false,
        };
        let next = srs_ccw(&self.well, player);
        proof {
            lemma_kick_stays_ok(self.well, player, Player { rot: ccw_of(player.rot), ..player },
                kicks_ccw(player.piece, player.rot), next);
        }
        self.player = Some(next);
        player != next
    }

    /// Drops the player down one block.
    ///
    /// Returns `false` if no player, and locks the player where it is if there
    /// is no space below it.
    pub fn soft_drop(&mut self) -> (r: bool)
        requires
            old(self).wf(),
        ensures
            final(self).wf(),
            match old(self).player {
                None => !r && *final(self) == *old(self),
                Some(p) => if !old(self).well.collides(p.sprite_spec(), moved(p, 0, -1).pt) {
                    r && final(self).player == Some(moved(p, 0, -1)) && final(self).well == old(self).well
                } else {
                    !r && lock_outcome(*old(self), *final(self))
                },
            },
    {
        let player = match self.player {
            Some(pl) => pl,
            None => return false,
        };
        let next = player.move_down();
        if !test_player(&self.well, next) {
            proof {
                lemma_free_fits(self.well, next.sprite_spec(), next.pt);
            }
            self.player = Some(next);
            true
        } else {
            // If we get stuck, lock the player here
            self.lock();
            false
        }
    }

    /// Drops the player all the way down and locks it there.
    ///
    /// Returns `false` if no player.
    pub fn hard_drop(&mut self) -> (r: bool)
        requires
            old(self).wf(),
        ensures
            final(self).wf(),
            match old(self).player {
                None => !r && *final(self) == *old(self),
                Some(p) => r && final(self).player is None && exists|q: Point|
                    old(self).well.rests_at(p.sprite_spec(), p.pt, q) && #[trigger] final(self).well.is_etch_of(
                        old(self).well,
                        p.sprite_spec(),
                        q,
                    ),
            },
    {
        if let Some(player) = self.player {
            let landed = trace_down(&self.well, player);
            proof {
                if landed.pt.y < player.pt.y {
                    let y = landed.pt.y as int;
                    assert(!self.well.collides(player.sprite_spec(), Point { x: player.pt.x, y: y as i8 }));
                    lemma_free_fits(self.well, landed.sprite_spec(), landed.pt);
                }
            }
            self.player = Some(landed);
            self.lock();
            true
        } else {
            false
        }
    }

    /// Applies gravity to the player: the same as a soft drop.
    pub fn gravity(&mut self) -> (r: bool)
        requires
            old(self).wf(),
        ensures
            final(self).wf(),
            match old(self).player {
                None => !r && *final(self) == *old(self),
                Some(p) => if !old(self).well.collides(p.sprite_spec(), moved(p, 0, -1).pt) {
                    r && final(self).player == Some(moved(p, 0, -1)) && final(self).well == old(self).well
                } else {
                    !r && lock_outcome(*old(self), *final(self))
                },
            },
    {
        self.soft_drop()
    }

    /// Etches the player into the well and removes it.
    pub fn lock(&mut self)
        requires
            old(self).wf(),
        ensures
            final(self).wf(),
            lock_outcome(*old(self), *final(self)),
            match old(self).player {
                None => final(self).scene == old(self).scene,
                Some(p) => final(self).scene.drawn(old(self).scene, p, TileTy::Field),
            },
    {
        if let Some(pl) = self.player {
            let sprite = pl.sprite();
            self.well.etch(&sprite, pl.pt);
            self.scene.draw(pl, TileTy::Field);
            self.player = None;
        }
    }

    /// Spawns a new player with the given piece, at the top of the well,
    /// centered, with zero rotation.
    ///
    /// Returns `true` if the spawned piece overlaps a block of the well, which
    /// also means the game is over.
    pub fn spawn(&mut self, piece: Piece) -> (r: bool)
        requires
            old(self).wf(),
        ensures
            final(self).wf(),
            final(self).well == old(self).well,
            final(self).player == Some(Player { piece, rot: Rot::Zero, pt: spawn_point(old(self).well, piece) }),
            r == old(self).well.collides(sprite_of(piece, Rot::Zero), spawn_point(old(self).well, piece)),
            r ==> final(self).game_over(),
    {
        let lower: i8 = if piece != Piece::O && piece != Piece::I { 1 } else { 0 };
        let player = Player {
            piece,
            rot: Rot::Zero,
            pt: Point { x: self.well.width() / 2 - 2, y: self.well.height() - lower },
        };
        let ghost w = self.well;
        let ghost pt = player.pt;
        let ghost s = sprite_of(piece, Rot::Zero);
        proof {
            assert forall|r: int, c: int| #![trigger s.has(r, c)] s.has(r, c) && 0 <= pt.y - r < w.height implies 0 <= pt.x + c < w.width by {}
        }
        self.player = Some(player);
        let r = test_player(&self.well, player);
        proof {
            if r {
                let (r0, c0) = choose|r0: int, c0: int| #[trigger] s.has(r0, c0) && w.blocked(pt.y - r0, pt.x + c0);
                lemma_spawn_rows(piece, r0, c0);
                let row = pt.y - r0;
                let f = w.field[row];
                let b = crate::well::col_bit(pt.x + c0);
                assert(f & b != 0 ==> f != 0) by (bit_vector);
            }
        }
        r
    }

    /// Tests if the well extends into its two top lines.
    pub fn is_game_over(&self) -> (r: bool)
        requires
            self.wf(),
        ensures
            r == self.game_over(),
    {
        let lines = self.well.lines();
        let h = self.well.height() as usize;
        lines[h - 1] != 0 || lines[h - 2] != 0
    }
}

proof fn lemma_kept_full_len(rows: Seq<u16>, m: u16)
    ensures
        kept_rows(rows, m).len() + full_rows(rows, m).len() == rows.len(),
    decreases rows.len(),
{
    if rows.len() > 0 {
        lemma_kept_full_len(rows.drop_last(), m);
    }
}

impl State {
    /// Removes every full row, the ones above coming down, bottom to top.
    ///
    /// Returns the indices, in the well as it was before the call, of the rows
    /// removed, in increasing order.
    pub fn clear_lines(&mut self) -> (r: Vec<i32>)
        requires
            old(self).wf(),
        ensures
            final(self).wf(),
            final(self).player == old(self).player,
            final(self).well.width == old(self).well.width,
            final(self).well.height == old(self).well.height,
            r@ == full_rows(old(self).well.field@.subrange(0, old(self).well.height as int), old(self).well.mask()),
            scene_cleared(old(self).scene, final(self).scene, r@),
            ({
                let kept = kept_rows(old(self).well.field@.subrange(0, old(self).well.height as int), old(self).well.mask());
                &&& final(self).well.field@.subrange(0, kept.len() as int) == kept
                &&& forall|i: int| kept.len() <= i < MAX_HEIGHT ==> #[trigger] final(self).well.field[i] == 0
            }),
    {
        let ghost w0 = self.well;
        let ghost rows = w0.field@.subrange(0, w0.height as int);
        let line_mask = self.well.line_mask();
        let h = self.well.height();
        let mut cleared: i8 = 0;
        let mut row: i8 = 0;
        let mut r: Vec<i32> = Vec::new();
        while row + cleared < h
            invariant
                self.wf(),
                w0.wf(),
                self.player == old(self).player,
                old(self).well == w0,
                self.well.width == w0.width,
                self.well.height == w0.height,
                h == w0.height,
                line_mask == w0.mask(),
                rows == w0.field@.subrange(0, h as int),
                0 <= row,
                0 <= cleared,
                row + cleared <= h,
                self.well.field@.subrange(0, row as int) == kept_rows(rows.subrange(0, row + cleared), line_mask),
                self.well.field@.subrange(row as int, h - cleared) == rows.subrange(row + cleared, h as int),
                forall|i: int| h - cleared <= i < MAX_HEIGHT ==> #[trigger] self.well.field[i] == 0,
                r@ == full_rows(rows.subrange(0, row + cleared), line_mask),
                r@.len() == cleared,
                scene_cleared(old(self).scene, self.scene, r@),
            decreases h - row - cleared,
        {
            let ghost before = self.well.field@;
            let ghost k = (row + cleared) as int;
            assert(rows.subrange(0, k + 1).drop_last() =~= rows.subrange(0, k));
            assert(rows.subrange(0, k + 1).last() == rows[k]);
            assert(before[row as int] == rows[k]) by {
                assert(before.subrange(row as int, h - cleared)[0] == rows.subrange(k, h as int)[0]);
            }
            if self.well.line(row) == line_mask {
                let ghost r_before = r@;
                let ghost s_before = self.scene;
                r.push(row as i32 + cleared as i32);
                self.well.remove_line(row);
                self.scene.remove_line(row);
                cleared += 1;
                proof {
                    assert(r@.drop_last() =~= r_before);
                    assert(self.scene.removed_from(s_before, r@.last() - (r@.len() - 1)));
                }
                proof {
                    let after = self.well.field@;
                    assert(after == before.remove(row as int).push(0));
                    assert(after.subrange(0, row as int) =~= before.subrange(0, row as int));
                    assert(after.subrange(row as int, h - cleared) =~= before.subrange(row + 1, h - cleared + 1));
                    assert(before.subrange(row + 1, h - cleared + 1) =~= before.subrange(row as int, h - cleared + 1).subrange(1, h - cleared + 1 - row));
                    assert(rows.subrange(k + 1, h as int) =~= rows.subrange(k, h as int).subrange(1, h - k));
                    assert forall|i: int| h - cleared <= i < MAX_HEIGHT implies #[trigger] self.well.field[i] == 0 by {
                        assert(after[i] == self.well.field[i]);
                        if i < MAX_HEIGHT - 1 {
                            assert(after[i] == before[i + 1]);
                        }
                    }
                }
            } else {
                row += 1;
                proof {
                    let after = self.well.field@;
                    assert(after.subrange(0, row as int) =~= before.subrange(0, row - 1).push(rows[k]));
                    assert(after.subrange(row as int, h - cleared) =~= before.subrange(row - 1, h - cleared).subrange(1, h - cleared - row + 1));
                    assert(rows.subrange(k + 1, h as int) =~= rows.subrange(k, h as int).subrange(1, h - k));
                }
            }
        }
        proof {
            assert(rows.subrange(0, h as int) =~= rows);
            lemma_kept_full_len(rows, line_mask);
        }
        r
    }
}

impl State {
    /// The scene to render: the blocks dropped so far, then, if there is a
    /// player, its shadow where it would land and the player itself.
    pub fn scene(&self) -> (r: Scene)
        requires
            self.wf(),
        ensures
            match self.player {
                None => r == self.scene,
                Some(p) => exists|q: Point, mid: Scene|
                    self.well.rests_at(p.sprite_spec(), p.pt, q) && #[trigger] mid.drawn(self.scene, Player { pt: q, ..p }, TileTy::Shadow)
                        && r.drawn(mid, p, TileTy::Player),
            },
    {
        let mut scene = self.scene;
        if let Some(player) = self.player {
            // Draw the shadow where the player will fall
            let shadow = trace_down(&self.well, player);
            scene.draw(shadow, TileTy::Shadow);
            let ghost mid = scene;
            // Draw the player
            scene.draw(player, TileTy::Player);
            assert(shadow == Player { pt: shadow.pt, ..player });
            assert(mid.drawn(self.scene, Player { pt: shadow.pt, ..player }, TileTy::Shadow));
        }
        scene
    }
}

impl State {
    /// The well drawn as text, with the player, if any, etched in.
    pub fn to_text(&self) -> (r: String)
        requires
            self.wf(),
        ensures
            match self.player {
                None => r@ == self.well.text(),
                Some(p) => exists|w2: Well| #[trigger] w2.is_etch_of(self.well, p.sprite_spec(), p.pt) && r@ == w2.text(),
            },
    {
        let mut well = self.well;
        if let Some(pl) = self.player {
            let sprite = pl.sprite();
            well.etch(&sprite, pl.pt);
        }
        well.to_text()
    }
}

} // verus!
