//! Board evaluation and the move-searching bot.
//!
//! Weights and scores are fixed point numbers in millionths, so that every
//! evaluation is exact.

use vstd::prelude::*;
use crate::piece::{Piece, sprite_of};
use crate::player::Player;
use crate::pt::{Point, shifted as shifted_pt};
use crate::rot::{Rot, cw_of, ccw_of, rot_index};
use crate::srs::{srs_cw, srs_ccw, kicks_cw, kicks_ccw, kick_outcome, kickable};
use crate::state::{kept_rows, moved, test_player, trace_down, lemma_free_fits};
use crate::well::{Well, MAX_HEIGHT, MAX_WIDTH, col_bit};

verus! {

/// Score of a board on which the game is lost; lower than every other score.
pub const LOST: i64 = i64::MIN;

/// Weights for evaluating a well, in millionths.
#[derive(Copy, Clone, Debug, PartialEq, Eq, Structural)]
pub struct Weights {
    /// Factor for the total combined height of the columns.
    pub agg_height_f: i32,
    /// Factor for the max height of the columns.
    pub max_height_f: i32,
    /// Factor for the number of completed lines.
    pub complete_lines_f: i32,
    /// Factor for the number of holes in the field.
    pub holes_f: i32,
    /// Factor for the number of caves in the field.
    pub caves_f: i32,
    /// Factor for the sum of the absolute differences between two adjacent columns.
    pub bumpiness_f: i32,
    /// Factor for the number of blocks above a hole.
    pub stacking_f: i32,
}

/// The features of a well that the evaluation weighs.
#[derive(Copy, Clone, Debug, PartialEq, Eq, Structural)]
pub struct Features {
    /// Sum of the column heights.
    pub agg_height: i32,
    /// Largest column height.
    pub max_height: i32,
    /// Number of full rows.
    pub complete_lines: i32,
    /// Empty cells not connected to the middle of the top row.
    pub holes: i32,
    /// The holes, less the gaps below the column tops.
    pub caves: i32,
    /// Sum of the height differences of adjacent columns.
    pub bumpiness: i32,
    /// Blocks with a gap somewhere below them in their column.
    pub stacking: i32,
}

/// Line `l` holds a block in column `c`.
pub open spec fn has_col(l: u16, c: int) -> bool {
    l & col_bit(c) != 0
}

/// Height of column `c` in the stack of rows `nf` (bottom first): one more
/// than the index of its highest block, or zero.
pub open spec fn col_height(nf: Seq<u16>, c: int) -> int
    decreases nf.len(),
{
    if nf.len() == 0 {
        0
    } else if has_col(nf.last(), c) {
        nf.len() as int
    } else {
        col_height(nf.drop_last(), c)
    }
}

/// Number of blocks of column `c` in the rows `nf`.
pub open spec fn col_count(nf: Seq<u16>, c: int) -> int
    decreases nf.len(),
{
    if nf.len() == 0 {
        0
    } else {
        col_count(nf.drop_last(), c) + if has_col(nf.last(), c) {
            1int
        } else {
            0int
        }
    }
}

/// Number of blocks of column `c` in the rows `nf` with an empty cell
/// somewhere below them in that column.
pub open spec fn col_stack(nf: Seq<u16>, c: int) -> int
    decreases nf.len(),
{
    if nf.len() == 0 {
        0
    } else {
        col_stack(nf.drop_last(), c) + if has_col(nf.last(), c) && col_count(nf, c) < nf.len() {
            1int
        } else {
            0int
        }
    }
}

/// Sum of the heights of the first `n` columns.
pub open spec fn agg_height(nf: Seq<u16>, n: int) -> int
    decreases n,
{
    if n <= 0 {
        0
    } else {
        agg_height(nf, n - 1) + col_height(nf, n - 1)
    }
}

/// Largest height among the first `n` columns.
pub open spec fn max_height(nf: Seq<u16>, n: int) -> int
    decreases n,
{
    if n <= 0 {
        0
    } else {
        let m = max_height(nf, n - 1);
        let h = col_height(nf, n - 1);
        if h > m {
            h
        } else {
            m
        }
    }
}

/// Sum over the first `n` columns of the empty cells below each column top.
pub open spec fn gaps(nf: Seq<u16>, n: int) -> int
    decreases n,
{
    if n <= 0 {
        0
    } else {
        gaps(nf, n - 1) + col_height(nf, n - 1) - col_count(nf, n - 1)
    }
}

/// Sum over the first `n` columns of the blocks standing above a gap.
pub open spec fn stacking(nf: Seq<u16>, n: int) -> int
    decreases n,
{
    if n <= 0 {
        0
    } else {
        stacking(nf, n - 1) + col_stack(nf, n - 1)
    }
}

/// Sum of the height differences between adjacent columns among the first `n`.
pub open spec fn bumpiness(nf: Seq<u16>, n: int) -> int
    decreases n,
{
    if n <= 1 {
        0
    } else {
        let d = col_height(nf, n - 2) - col_height(nf, n - 1);
        bumpiness(nf, n - 1) + if d < 0 {
            -d
        } else {
            d
        }
    }
}

/// The non-full rows of the well, bottom first: the stack as it stands once the
/// full rows are cleared.
pub open spec fn stack_of(well: Well) -> Seq<u16> {
    kept_rows(well.field@.subrange(0, well.height as int), well.mask())
}

/// The features of `well` given its hole count.
pub open spec fn features_of(well: Well, holes: int) -> Features {
    let nf = stack_of(well);
    let w = well.width as int;
    Features {
        agg_height: agg_height(nf, w) as i32,
        max_height: max_height(nf, w) as i32,
        complete_lines: (well.height - nf.len()) as i32,
        holes: holes as i32,
        caves: (holes - gaps(nf, w)) as i32,
        bumpiness: bumpiness(nf, w) as i32,
        stacking: stacking(nf, w) as i32,
    }
}

proof fn lemma_col_bounds(nf: Seq<u16>, c: int)
    ensures
        0 <= col_stack(nf, c) <= col_count(nf, c) <= col_height(nf, c) <= nf.len(),
    decreases nf.len(),
{
    if nf.len() > 0 {
        lemma_col_bounds(nf.drop_last(), c);
    }
}

proof fn lemma_sum_bounds(nf: Seq<u16>, n: int)
    requires
        0 <= n <= MAX_WIDTH,
        nf.len() <= 23,
    ensures
        0 <= agg_height(nf, n) <= n * 23,
        0 <= max_height(nf, n) <= 23,
        0 <= gaps(nf, n) <= n * 23,
        0 <= stacking(nf, n) <= n * 23,
        0 <= bumpiness(nf, n) <= n * 23,
    decreases n,
{
    if n > 0 {
        lemma_sum_bounds(nf, n - 1);
        lemma_col_bounds(nf, n - 1);
        if n > 1 {
            lemma_col_bounds(nf, n - 2);
        }
    }
}

proof fn lemma_kept_len(rows: Seq<u16>, m: u16)
    ensures
        kept_rows(rows, m).len() <= rows.len(),
    decreases rows.len(),
{
    if rows.len() > 0 {
        lemma_kept_len(rows.drop_last(), m);
    }
}

impl Weights {
    /// Computes the features of the well, in one scan of its rows from the
    /// bottom up, full rows skipped as though cleared.
    pub fn crunch(well: &Well) -> (r: Features)
        requires
            well.wf(),
        ensures
            0 <= well.holes_of() <= well.width * well.height,
            r == features(*well),
    {
        let w = well.width as usize;
        let h = well.height as usize;
        let ghost rows = well.field@.subrange(0, h as int);
        let ghost m = well.mask();
        let mut heights = [0i32; MAX_WIDTH];
        let mut holes = [0i32; MAX_WIDTH];
        let mut stacks = [0i32; MAX_WIDTH];
        let mut lines: i32 = 0;
        let line_mask = well.line_mask();
        let mut height: i32 = 0;
        let mut i: usize = 0;
        while i < h
            invariant
                well.wf(),
                w == well.width,
                h == well.height,
                rows == well.field@.subrange(0, h as int),
                m == well.mask(),
                line_mask == m,
                0 <= i <= h,
                height == kept_rows(rows.subrange(0, i as int), m).len(),
                lines == i - height,
                forall|c: int| 0 <= c < w ==> #[trigger] heights[c] == col_height(kept_rows(rows.subrange(0, i as int), m), c),
                forall|c: int| 0 <= c < w ==> #[trigger] holes[c] == col_height(kept_rows(rows.subrange(0, i as int), m), c)
                    - col_count(kept_rows(rows.subrange(0, i as int), m), c),
                forall|c: int| 0 <= c < w ==> #[trigger] stacks[c] == col_stack(kept_rows(rows.subrange(0, i as int), m), c),
            decreases h - i,
        {
            let ghost nf = kept_rows(rows.subrange(0, i as int), m);
            proof {
                assert(rows.subrange(0, i + 1).drop_last() =~= rows.subrange(0, i as int));
                lemma_kept_len(rows.subrange(0, i as int), m);
            }
            let line = well.field[i];
            assert(rows.subrange(0, i + 1).last() == line);
            if line == line_mask {
                // Skip cleared lines
                lines += 1;
            } else {
                height += 1;
                let ghost nf2 = nf.push(line);
                assert(nf2.drop_last() =~= nf);
                assert(kept_rows(rows.subrange(0, i + 1), m) == nf2);
                let mut col: usize = 0;
                while col < w
                    invariant
                        w == well.width,
                        4 <= w <= MAX_WIDTH,
                        0 <= col <= w,
                        nf.len() <= 22,
                        height == nf2.len(),
                        nf2 == nf.push(line),
                        nf2.drop_last() == nf,
                        forall|c: int| 0 <= c < col ==> #[trigger] heights[c] == col_height(nf2, c),
                        forall|c: int| 0 <= c < col ==> #[trigger] holes[c] == col_height(nf2, c) - col_count(nf2, c),
                        forall|c: int| 0 <= c < col ==> #[trigger] stacks[c] == col_stack(nf2, c),
                        forall|c: int| col <= c < w ==> #[trigger] heights[c] == col_height(nf, c),
                        forall|c: int| col <= c < w ==> #[trigger] holes[c] == col_height(nf, c) - col_count(nf, c),
                        forall|c: int| col <= c < w ==> #[trigger] stacks[c] == col_stack(nf, c),
                    decreases w - col,
                {
                    proof {
                        lemma_col_bounds(nf, col as int);
                        lemma_col_bounds(nf2, col as int);
                    }
                    if line & (0x8000u16 >> col as u16) != 0 {
                        // Sum the holes for this column
                        holes[col] = holes[col] + (height - heights[col] - 1);
                        // Save the height for this column
                        heights[col] = height;
                        // Save the stacks for this column
                        stacks[col] = stacks[col] + if holes[col] != 0 { 1 } else { 0 };
                    }
                    col += 1;
                }
            }
            i += 1;
        }
        let holes_sum = well.count_holes();
        let ghost nf = kept_rows(rows, m);
        proof {
            assert(rows.subrange(0, h as int) =~= rows);
            lemma_kept_len(rows, m);
        }
        let mut height_sum: i32 = 0;
        let mut heights_max: i32 = 0;
        let mut gaps_sum: i32 = 0;
        let mut stacks_sum: i32 = 0;
        let mut bumps: i32 = 0;
        let mut c: usize = 0;
        while c < w
            invariant
                4 <= w <= MAX_WIDTH,
                0 <= c <= w,
                nf.len() <= 23,
                forall|c: int| 0 <= c < w ==> #[trigger] heights[c] == col_height(nf, c),
                forall|c: int| 0 <= c < w ==> #[trigger] holes[c] == col_height(nf, c) - col_count(nf, c),
                forall|c: int| 0 <= c < w ==> #[trigger] stacks[c] == col_stack(nf, c),
                height_sum == agg_height(nf, c as int),
                heights_max == max_height(nf, c as int),
                gaps_sum == gaps(nf, c as int),
                stacks_sum == stacking(nf, c as int),
                bumps == bumpiness(nf, c as int),
            decreases w - c,
        {
            proof {
                lemma_sum_bounds(nf, c as int);
                lemma_col_bounds(nf, c as int);
                if c > 0 {
                    lemma_col_bounds(nf, c - 1);
                }
            }
            height_sum = height_sum + heights[c];
            if heights[c] > heights_max {
                heights_max = heights[c];
            }
            gaps_sum = gaps_sum + holes[c];
            stacks_sum = stacks_sum + stacks[c];
            if c > 0 {
                let d = heights[c - 1] - heights[c];
                bumps = bumps + if d < 0 { -d } else { d };
            }
            c += 1;
        }
        proof {
            lemma_sum_bounds(nf, w as int);
        }
        Features {
            agg_height: height_sum,
            max_height: heights_max,
            complete_lines: lines,
            holes: holes_sum,
            caves: holes_sum - gaps_sum,
            bumpiness: bumps,
            stacking: stacks_sum,
        }
    }
}

/// The stack reaches into the two top rows: the game is lost.
pub open spec fn lost(well: Well) -> bool {
    well.field[well.height - 1] != 0 || well.field[well.height - 2] != 0
}

/// Weighted sum of the features.
pub open spec fn weigh(w: Weights, f: Features) -> int {
    w.agg_height_f * f.agg_height + w.max_height_f * f.max_height + w.complete_lines_f * f.complete_lines
        + w.holes_f * f.holes + w.caves_f * f.caves + w.bumpiness_f * f.bumpiness + w.stacking_f * f.stacking
}

/// The features of the well.
pub open spec fn features(well: Well) -> Features {
    features_of(well, well.holes_of())
}

/// The evaluation of `well` under the weights: `LOST` for a lost game, else
/// the weighted sum of its features.
pub open spec fn eval_spec(w: Weights, well: Well) -> i64 {
    if lost(well) {
        LOST
    } else {
        weigh(w, features(well)) as i64
    }
}

/// `score` is the evaluation of `well` under the weights.
pub open spec fn scored(w: Weights, well: Well, score: i64) -> bool {
    score == eval_spec(w, well)
}

proof fn lemma_product_bound(a: i32, b: int)
    requires
        -300 <= b <= 300,
    ensures
        -300 * 0x8000_0000 <= a * b <= 300 * 0x8000_0000,
{
    assert(-300 * 0x8000_0000 <= a * b <= 300 * 0x8000_0000) by (nonlinear_arith)
        requires
            -300 <= b <= 300,
            -0x8000_0000 <= a < 0x8000_0000,
    ;
}

impl Weights {
    /// Evaluates a well and returns a score; a higher score is a better well.
    ///
    /// A well whose stack reaches into the two top rows is lost and scores `LOST`.
    pub fn eval(&self, well: &Well) -> (r: i64)
        requires
            well.wf(),
        ensures
            r == eval_spec(*self, *well),
            !lost(*well) ==> r > LOST,
    {
        let lines = well.lines();
        let height = well.height as usize;
        if lines[height - 1] != 0 || lines[height - 2] != 0 {
            return LOST;
        }
        let f = Self::crunch(well);
        proof {
            let nf = stack_of(*well);
            lemma_kept_len(well.field@.subrange(0, well.height as int), well.mask());
            lemma_sum_bounds(nf, well.width as int);
            assert(well.width * well.height <= 12 * 23) by (nonlinear_arith)
                requires
                    0 <= well.width <= 12,
                    0 <= well.height <= 23,
            ;
            lemma_product_bound(self.agg_height_f, f.agg_height as int);
            lemma_product_bound(self.max_height_f, f.max_height as int);
            lemma_product_bound(self.complete_lines_f, f.complete_lines as int);
            lemma_product_bound(self.holes_f, f.holes as int);
            lemma_product_bound(self.caves_f, f.caves as int);
            lemma_product_bound(self.bumpiness_f, f.bumpiness as int);
            lemma_product_bound(self.stacking_f, f.stacking as int);
            assert(f == features(*well));
        }
        self.agg_height_f as i64 * f.agg_height as i64 + self.max_height_f as i64 * f.max_height as i64
            + self.complete_lines_f as i64 * f.complete_lines as i64 + self.holes_f as i64 * f.holes as i64
            + self.caves_f as i64 * f.caves as i64 + self.bumpiness_f as i64 * f.bumpiness as i64
            + self.stacking_f as i64 * f.stacking as i64
    }
}

impl Default for Weights {
    /// Some nice weights, tuned by hand for a near-perfect player.
    fn default() -> (r: Weights)
        ensures
            r == (Weights {
                agg_height_f: -510066i32,
                max_height_f: -510066i32,
                complete_lines_f: 760666i32,
                holes_f: -356630i32,
                caves_f: 0i32,
                bumpiness_f: -184483i32,
                stacking_f: -500000i32,
            }),
    {
        Weights {
            agg_height_f: -510066,
            max_height_f: -510066,
            complete_lines_f: 760666,
            holes_f: -356630,
            caves_f: 0,
            bumpiness_f: -184483,
            stacking_f: -500000,
        }
    }
}

/// Player move.
#[derive(Copy, Clone, Debug, PartialEq, Eq, Structural)]
pub enum Play {
    Idle,
    MoveLeft,
    MoveRight,
    RotateCW,
    RotateCCW,
    SoftDrop,
    HardDrop,
}

/// Result of a search: the best score found, the moves that lead there from
/// the starting player, and the player at rest where it is locked.
#[derive(Clone, Debug, PartialEq)]
pub struct PlayI {
    pub score: i64,
    pub play: Vec<Play>,
    pub player: Option<Player>,
}

/// The number of search states in one row: `MAX_WIDTH` plus `3` (for boxes
/// hanging over the left wall) times `4` (the number of rotations), `(12 + 3) * 4`.
pub const STRIDE: usize = 60;

/// The number of search states, for every row up to two above the top of the
/// box of a piece spawned above the highest well, where a wall kick may lift
/// it: `STRIDE * (MAX_HEIGHT + 6)`.
pub const SIZE: usize = 1740;

/// The player lies on the grid of states that the search keeps track of.
pub open spec fn in_grid(p: Player) -> bool {
    -3 <= p.pt.x < MAX_WIDTH && 0 <= p.pt.y < MAX_HEIGHT + 6
}

/// Index of the player's state in the visited flags.
pub open spec fn grid_index(p: Player) -> int {
    p.pt.y * STRIDE + (p.pt.x + 3) * 4 + rot_index(p.rot)
}

/// Number of states not visited yet.
pub open spec fn count_unvisited(v: Seq<bool>) -> nat
    decreases v.len(),
{
    if v.len() == 0 {
        0
    } else {
        count_unvisited(v.drop_last()) + if v.last() {
            0nat
        } else {
            1nat
        }
    }
}

proof fn lemma_mark(v: Seq<bool>, i: int)
    requires
        0 <= i < v.len(),
        !v[i],
    ensures
        count_unvisited(v.update(i, true)) + 1 == count_unvisited(v),
    decreases v.len(),
{
    if i == v.len() - 1 {
        assert(v.update(i, true).drop_last() =~= v.drop_last());
    } else {
        lemma_mark(v.drop_last(), i);
        assert(v.update(i, true).drop_last() =~= v.drop_last().update(i, true));
    }
}

/// Marks the player's state as visited; returns `true` if it was visited
/// already, or lies off the grid and is never explored.
fn visit(visited: &mut Vec<bool>, p: Player) -> (seen: bool)
    requires
        old(visited)@.len() == SIZE,
    ensures
        final(visited)@.len() == SIZE,
        seen ==> final(visited)@ == old(visited)@,
        seen ==> !in_grid(p) || old(visited)@[grid_index(p)],
        !seen ==> in_grid(p) && 0 <= grid_index(p) < SIZE && !old(visited)@[grid_index(p)] && final(visited)@ == old(visited)@.update(
            grid_index(p),
            true,
        ),
{
    if p.pt.x < -3 || p.pt.x >= MAX_WIDTH as i8 || p.pt.y < 0 || p.pt.y >= (MAX_HEIGHT + 6) as i8 {
        return true;
    }
    assert(0 <= p.pt.y * STRIDE <= 28 * 60);
    let i = (p.pt.y as usize) * STRIDE + ((p.pt.x + 3) as usize) * 4 + p.rot.index() as usize;
    if !visited[i] {
        visited.set(i, true);
        false
    } else {
        true
    }
}

/// `q` follows from `p` by the move `a`: a drop or a shift into a free
/// place, or a rotation with the SRS wall kicks.
pub open spec fn step(well: Well, p: Player, a: Play, q: Player) -> bool {
    match a {
        Play::SoftDrop => q == moved(p, 0, -1) && !well.collides(q.sprite_spec(), q.pt),
        Play::MoveLeft => q == moved(p, -1, 0) && !well.collides(q.sprite_spec(), q.pt),
        Play::MoveRight => q == moved(p, 1, 0) && !well.collides(q.sprite_spec(), q.pt),
        Play::RotateCW => kick_outcome(well, p, Player { rot: cw_of(p.rot), ..p }, kicks_cw(p.piece, p.rot), q),
        Play::RotateCCW => kick_outcome(well, p, Player { rot: ccw_of(p.rot), ..p }, kicks_ccw(p.piece, p.rot), q),
        _ => false,
    }
}

/// Playing the moves `plays` from `start` passes through the players `ps`,
/// one per move; the last move is the one that locks the last player.
pub open spec fn replays(well: Well, start: Player, plays: Seq<Play>, ps: Seq<Player>) -> bool {
    &&& plays.len() > 0
    &&& ps.len() == plays.len()
    &&& ps[0] == start
    &&& forall|i: int| 0 <= i < plays.len() - 1 ==> step(well, ps[i], plays[i], #[trigger] ps[i + 1])
}

/// The player can lock here: it does not collide and cannot move down.
pub open spec fn at_rest(well: Well, q: Player) -> bool {
    !well.collides(q.sprite_spec(), q.pt) && well.collides(q.sprite_spec(), moved(q, 0, -1).pt)
}

/// `r` describes a placement reached from `start`, with its score.
///
/// Either nothing was found, or the player locks at rest in a well that is not
/// lost, the score is the evaluation of the well with the player etched in,
/// and the moves lead there from `start`, the last one a soft drop that locks.
pub open spec fn found(weights: Weights, well: Well, start: Player, r: PlayI) -> bool {
    match r.player {
        None => r.play@.len() == 0 && r.score == LOST,
        Some(q) => {
            &&& r.score > LOST
            &&& at_rest(well, q)
            &&& in_grid(q)
            &&& exists|w2: Well|
                #[trigger] w2.is_etch_of(well, q.sprite_spec(), q.pt) && w2.wf() && !lost(w2) && scored(weights, w2, r.score)
            &&& r.play@.last() == Play::SoftDrop
            &&& exists|ps: Seq<Player>| #[trigger] replays(well, start, r.play@, ps) && ps.last() == q
        },
    }
}

/// Every move from `s`, wall kicks included, leads to a state that needs no visit.
pub open spec fn closed_kick(well: Well, v: Seq<bool>, s: Player) -> bool {
    forall|a: Play, t: Player| #[trigger] step(well, s, a, t) ==> covered(well, v, t)
}

/// `q` is reached from `start` in at most `n` moves, wall kicks included,
/// through states that do not collide.
pub open spec fn reaches_kick(well: Well, start: Player, q: Player, n: nat) -> bool
    decreases n,
{
    !well.collides(q.sprite_spec(), q.pt) && (q == start || (n > 0 && exists|p: Player, a: Play|
        reaches_kick(well, start, p, (n - 1) as nat) && #[trigger] step(well, p, a, q)))
}

/// The search path: the players `ps` from `start`, each but the last followed
/// from its predecessor by the move of the same index in `labels`.
pub open spec fn path_ok(well: Well, start: Player, labels: Seq<Play>, ps: Seq<Player>) -> bool {
    &&& ps.len() > 0
    &&& ps[0] == start
    &&& labels.len() <= ps.len()
    &&& forall|i: int| 0 <= i < ps.len() - 1 ==> step(well, ps[i], labels[i], #[trigger] ps[i + 1])
}

/// A turn leads to one state only.
proof fn lemma_kick_unique(well: Well, p: Player, turned: Player, kicks: [Point; 5], q1: Player, q2: Player)
    requires
        kick_outcome(well, p, turned, kicks, q1),
        kick_outcome(well, p, turned, kicks, q2),
    ensures
        q1 == q2,
{
    let s = sprite_of(turned.piece, turned.rot);
    if q1 != q2 {
        if exists|i: int| 0 <= i < 5 && q1 == (Player { pt: shifted_pt(turned.pt, #[trigger] kicks[i]), ..turned })
            && !well.collides(s, q1.pt) && forall|j: int| 0 <= j < i ==> well.collides(s, shifted_pt(turned.pt, #[trigger] kicks[j])) {
            let i1 = choose|i: int| 0 <= i < 5 && q1 == (Player { pt: shifted_pt(turned.pt, #[trigger] kicks[i]), ..turned })
                && !well.collides(s, q1.pt) && forall|j: int| 0 <= j < i ==> well.collides(s, shifted_pt(turned.pt, #[trigger] kicks[j]));
            if exists|i: int| 0 <= i < 5 && q2 == (Player { pt: shifted_pt(turned.pt, #[trigger] kicks[i]), ..turned })
                && !well.collides(s, q2.pt) && forall|j: int| 0 <= j < i ==> well.collides(s, shifted_pt(turned.pt, #[trigger] kicks[j])) {
                let i2 = choose|i: int| 0 <= i < 5 && q2 == (Player { pt: shifted_pt(turned.pt, #[trigger] kicks[i]), ..turned })
                    && !well.collides(s, q2.pt) && forall|j: int| 0 <= j < i ==> well.collides(s, shifted_pt(turned.pt, #[trigger] kicks[j]));
                if i1 < i2 {
                    assert(well.collides(s, shifted_pt(turned.pt, kicks[i1])));
                } else if i2 < i1 {
                    assert(well.collides(s, shifted_pt(turned.pt, kicks[i2])));
                }
            } else {
                assert(well.collides(s, shifted_pt(turned.pt, kicks[i1])));
            }
        } else {
            let i2 = choose|i: int| 0 <= i < 5 && q2 == (Player { pt: shifted_pt(turned.pt, #[trigger] kicks[i]), ..turned })
                && !well.collides(s, q2.pt) && forall|j: int| 0 <= j < i ==> well.collides(s, shifted_pt(turned.pt, #[trigger] kicks[j]));
            assert(well.collides(s, shifted_pt(turned.pt, kicks[i2])));
        }
    }
}

proof fn lemma_covered_mono(well: Well, v0: Seq<bool>, v1: Seq<bool>, t: Player)
    requires
        v0.len() == SIZE,
        v1.len() == SIZE,
        forall|i: int| 0 <= i < SIZE && v0[i] ==> #[trigger] v1[i],
        covered(well, v0, t),
    ensures
        covered(well, v1, t),
{
    if in_grid(t) {
        lemma_grid_index(t);
    }
}

proof fn lemma_closed_kick_grows(well: Well, v0: Seq<bool>, v1: Seq<bool>, s: Player)
    requires
        v0.len() == SIZE,
        v1.len() == SIZE,
        forall|i: int| 0 <= i < SIZE && v0[i] ==> #[trigger] v1[i],
        closed_kick(well, v0, s),
    ensures
        closed_kick(well, v1, s),
{
    assert forall|a: Play, t: Player| #[trigger] step(well, s, a, t) implies covered(well, v1, t) by {
        lemma_covered_mono(well, v0, v1, t);
    }
}

/// Records the placement at the end of the search path as the best one if
/// it scores higher.
fn record(
    weights: &Weights,
    well: &Well,
    Ghost(start): Ghost<Player>,
    labels: &Vec<Play>,
    Ghost(ps): Ghost<Seq<Player>>,
    cur: Player,
    best: &mut PlayI,
)
    requires
        well.wf(),
        labels@.len() == ps.len(),
        path_ok(*well, start, labels@, ps),
        cur == ps.last(),
        labels@.last() == Play::SoftDrop,
        at_rest(*well, cur),
        in_grid(cur),
        found(*weights, *well, start, *old(best)),
    ensures
        found(*weights, *well, start, *final(best)),
        final(best).score >= old(best).score,
        forall|w2: Well| #[trigger] w2.is_etch_of(*well, cur.sprite_spec(), cur.pt) ==> final(best).score >= eval_spec(*weights, w2),
{
    let n = labels.len();
    let mut w2 = *well;
    let sprite = cur.sprite();
    proof {
        lemma_free_fits(*well, sprite, cur.pt);
    }
    w2.etch(&sprite, cur.pt);
    let score = weights.eval(&w2);
    proof {
        assert forall|w3: Well| #[trigger] w3.is_etch_of(*well, cur.sprite_spec(), cur.pt) implies score == eval_spec(*weights, w3) by {
            assert(w3.field@ =~= w2.field@);
            lemma_eval_by_rows(*weights, w3, w2);
        }
    }
    if score > best.score {
        let mut plays: Vec<Play> = Vec::new();
        let mut k: usize = 0;
        while k < n
            invariant
                0 <= k <= n,
                n == labels@.len(),
                plays@ == labels@.subrange(0, k as int),
            decreases n - k,
        {
            plays.push(labels[k]);
            proof {
                assert(labels@.subrange(0, k + 1) =~= labels@.subrange(0, k as int).push(labels@[k as int]));
            }
            k += 1;
        }
        proof {
            assert(labels@.subrange(0, n as int) =~= labels@);
            assert(replays(*well, start, plays@, ps));
            assert(w2.is_etch_of(*well, cur.sprite_spec(), cur.pt));
        }
        *best = PlayI { score, play: plays, player: Some(cur) };
    }
}

/// Follows the move to `next`, unless its state was visited already or, when
/// `test` is set, it collides with the well.
fn try_move(
    visited: &mut Vec<bool>,
    labels: &mut Vec<Play>,
    Ghost(ps): Ghost<Seq<Player>>,
    weights: &Weights,
    well: &Well,
    player: Player,
    next: Player,
    test: bool,
    best: &mut PlayI,
    Ghost(start): Ghost<Player>,
)
    requires
        well.wf(),
        old(visited)@.len() == SIZE,
        old(labels)@.len() == ps.len(),
        ps.last() == player,
        path_ok(*well, start, old(labels)@, ps),
        !well.collides(next.sprite_spec(), next.pt) ==> step(*well, player, old(labels)@.last(), next),
        !test ==> !well.collides(next.sprite_spec(), next.pt),
        next.piece == player.piece,
        found(*weights, *well, start, *old(best)),
    ensures
        final(visited)@.len() == SIZE,
        count_unvisited(final(visited)@) <= count_unvisited(old(visited)@),
        forall|i: int| 0 <= i < SIZE && old(visited)@[i] ==> #[trigger] final(visited)@[i],
        final(labels)@ == old(labels)@,
        found(*weights, *well, start, *final(best)),
        final(best).score >= old(best).score,
        covered(*well, final(visited)@, next),
        forall|s: Player|
            s.piece == player.piece && #[trigger] newly(old(visited)@, final(visited)@, s) && !well.collides(s.sprite_spec(), s.pt)
                ==> closed_kick(*well, final(visited)@, s),
        forall|s: Player, w2: Well|
            s.piece == player.piece && newly(old(visited)@, final(visited)@, s) && at_rest(*well, s)
                && #[trigger] w2.is_etch_of(*well, s.sprite_spec(), s.pt) ==> final(best).score >= eval_spec(*weights, w2),
    decreases count_unvisited(old(visited)@), 0int,
{
    let ghost v0 = visited@;
    if visit(visited, next) {
        return;
    }
    proof {
        lemma_mark(v0, grid_index(next));
        lemma_grid_index(next);
    }
    let ghost v1 = visited@;
    proof {
        assert forall|s: Player| s.piece == player.piece && #[trigger] newly(v0, v1, s) implies s == next by {
            lemma_grid_index(s);
            if grid_index(s) != grid_index(next) {
                assert(v1[grid_index(s)] == v0[grid_index(s)]);
            }
            lemma_grid_index_unique(s, next);
        }
    }
    if test && test_player(well, next) {
        return;
    }
    explore(visited, labels, Ghost(ps.push(next)), weights, well, next, best, Ghost(start));
    proof {
        let v2 = visited@;
        assert forall|s: Player|
            s.piece == player.piece && #[trigger] newly(v0, v2, s) && !well.collides(s.sprite_spec(), s.pt)
                implies closed_kick(*well, v2, s) by {
            lemma_grid_index(s);
            if !newly(v1, v2, s) {
                assert(newly(v0, v1, s));
            }
        }
        assert forall|s: Player, w2: Well|
            s.piece == player.piece && newly(v0, v2, s) && at_rest(*well, s)
                && #[trigger] w2.is_etch_of(*well, s.sprite_spec(), s.pt) implies best.score >= eval_spec(*weights, w2) by {
            lemma_grid_index(s);
            if !newly(v1, v2, s) {
                assert(newly(v0, v1, s));
            }
        }
    }
}

/// Explores depth first from `player`, marked and free, at the end of the
/// search path: a soft drop, or a lock where it rests, then a shift each way,
/// then a turn each way with wall kicks, each to a state not visited yet.
///
/// Every state this call marks that does not collide, and the player itself,
/// has each of its moves covered, and the best score is at least that of every
/// placement at rest among them.
#[verifier::rlimit(80)]
fn explore(
    visited: &mut Vec<bool>,
    labels: &mut Vec<Play>,
    Ghost(ps): Ghost<Seq<Player>>,
    weights: &Weights,
    well: &Well,
    player: Player,
    best: &mut PlayI,
    Ghost(start): Ghost<Player>,
)
    requires
        well.wf(),
        old(visited)@.len() == SIZE,
        in_grid(player),
        old(visited)@[grid_index(player)],
        !well.collides(player.sprite_spec(), player.pt),
        old(labels)@.len() + 1 == ps.len(),
        ps.last() == player,
        path_ok(*well, start, old(labels)@, ps),
        found(*weights, *well, start, *old(best)),
    ensures
        final(visited)@.len() == SIZE,
        count_unvisited(final(visited)@) <= count_unvisited(old(visited)@),
        forall|i: int| 0 <= i < SIZE && old(visited)@[i] ==> #[trigger] final(visited)@[i],
        final(labels)@ == old(labels)@,
        found(*weights, *well, start, *final(best)),
        final(best).score >= old(best).score,
        closed_kick(*well, final(visited)@, player),
        forall|s: Player|
            s.piece == player.piece && #[trigger] newly(old(visited)@, final(visited)@, s) && !well.collides(s.sprite_spec(), s.pt)
                ==> closed_kick(*well, final(visited)@, s),
        forall|s: Player, w2: Well|
            s.piece == player.piece && (newly(old(visited)@, final(visited)@, s) || s == player) && at_rest(*well, s)
                && #[trigger] w2.is_etch_of(*well, s.sprite_spec(), s.pt) ==> final(best).score >= eval_spec(*weights, w2),
    decreases count_unvisited(old(visited)@), 1int,
{
    let ghost v0 = visited@;
    let ghost l0 = labels@;
    proof {
        lemma_grid_index(player);
    }
    labels.push(Play::SoftDrop);
    let n = labels.len();
    let down = player.move_down();
    let ghost mut rested = false;
    if test_player(well, down) {
        record(weights, well, Ghost(start), labels, Ghost(ps), player, best);
        proof {
            rested = true;
        }
    } else {
        try_move(visited, labels, Ghost(ps), weights, well, player, down, false, best, Ghost(start));
    }
    let ghost v1 = visited@;
    let ghost s1 = best.score;
    labels.set(n - 1, Play::MoveLeft);
    let left = player.move_left();
    try_move(visited, labels, Ghost(ps), weights, well, player, left, true, best, Ghost(start));
    let ghost v2 = visited@;
    labels.set(n - 1, Play::MoveRight);
    let right = player.move_right();
    try_move(visited, labels, Ghost(ps), weights, well, player, right, true, best, Ghost(start));
    let ghost v3 = visited@;
    labels.set(n - 1, Play::RotateCW);
    let cw = srs_cw(well, player);
    proof {
        lemma_turn_free(*well, player, Player { rot: cw_of(player.rot), ..player }, kicks_cw(player.piece, player.rot), cw);
    }
    try_move(visited, labels, Ghost(ps), weights, well, player, cw, false, best, Ghost(start));
    let ghost v4 = visited@;
    labels.set(n - 1, Play::RotateCCW);
    let ccw = srs_ccw(well, player);
    proof {
        lemma_turn_free(*well, player, Player { rot: ccw_of(player.rot), ..player }, kicks_ccw(player.piece, player.rot), ccw);
    }
    try_move(visited, labels, Ghost(ps), weights, well, player, ccw, false, best, Ghost(start));
    let ghost v5 = visited@;
    labels.pop();
    proof {
        assert(labels@ =~= l0);
        // Each move from the player is covered.
        lemma_covered_mono(*well, v2, v5, left);
        lemma_covered_mono(*well, v3, v5, right);
        lemma_covered_mono(*well, v4, v5, cw);
        if !rested {
            lemma_covered_mono(*well, v1, v5, down);
        }
        assert forall|a: Play, t: Player| #[trigger] step(*well, player, a, t) implies covered(*well, v5, t) by {
            if a == Play::RotateCW {
                lemma_kick_unique(*well, player, Player { rot: cw_of(player.rot), ..player }, kicks_cw(player.piece, player.rot), t, cw);
            } else if a == Play::RotateCCW {
                lemma_kick_unique(*well, player, Player { rot: ccw_of(player.rot), ..player }, kicks_ccw(player.piece, player.rot), t, ccw);
            }
        }
        assert forall|s: Player|
            s.piece == player.piece && #[trigger] newly(v0, v5, s) && !well.collides(s.sprite_spec(), s.pt)
                implies closed_kick(*well, v5, s) by {
            lemma_grid_index(s);
            let i = grid_index(s);
            if v1[i] {
                assert(newly(v0, v1, s));
                lemma_closed_kick_grows(*well, v1, v5, s);
            } else if v2[i] {
                assert(newly(v1, v2, s));
                lemma_closed_kick_grows(*well, v2, v5, s);
            } else if v3[i] {
                assert(newly(v2, v3, s));
                lemma_closed_kick_grows(*well, v3, v5, s);
            } else if v4[i] {
                assert(newly(v3, v4, s));
                lemma_closed_kick_grows(*well, v4, v5, s);
            } else {
                assert(newly(v4, v5, s));
            }
        }
        assert forall|s: Player, w2: Well|
            s.piece == player.piece && (newly(v0, v5, s) || s == player) && at_rest(*well, s)
                && #[trigger] w2.is_etch_of(*well, s.sprite_spec(), s.pt) implies best.score >= eval_spec(*weights, w2) by {
            if s == player {
                assert(moved(player, 0, -1) == down);
                assert(rested);
            } else {
                lemma_grid_index(s);
                let i = grid_index(s);
                if v1[i] {
                    assert(newly(v0, v1, s));
                } else if v2[i] {
                    assert(newly(v1, v2, s));
                } else if v3[i] {
                    assert(newly(v2, v3, s));
                } else if v4[i] {
                    assert(newly(v3, v4, s));
                } else {
                    assert(newly(v4, v5, s));
                }
            }
        }
    }
}

/// The outcome of a turn does not collide when the player does not.
proof fn lemma_turn_free(well: Well, p: Player, turned: Player, kicks: [Point; 5], q: Player)
    requires
        kick_outcome(well, p, turned, kicks, q),
        !well.collides(p.sprite_spec(), p.pt),
        turned.piece == p.piece,
    ensures
        !well.collides(q.sprite_spec(), q.pt),
        q.piece == p.piece,
{
}

/// A state reached from a free start has no lower row than the start or two
/// above the top of the box just above the well, and lies on the grid.
proof fn lemma_reach_bound(well: Well, start: Player, q: Player, n: nat)
    requires
        well.wf(),
        in_grid(start),
        reaches_kick(well, start, q, n),
    ensures
        q.piece == start.piece,
        q.pt.y <= start.pt.y || q.pt.y <= well.height + 5,
        in_grid(q),
        !well.collides(start.sprite_spec(), start.pt),
    decreases n,
{
    if q != start {
        let (p, a) = choose|p: Player, a: Play| reaches_kick(well, start, p, (n - 1) as nat) && #[trigger] step(well, p, a, q);
        lemma_reach_bound(well, start, p, (n - 1) as nat);
        if a == Play::RotateCW || a == Play::RotateCCW {
            let turned = if a == Play::RotateCW { Player { rot: cw_of(p.rot), ..p } } else { Player { rot: ccw_of(p.rot), ..p } };
            let kicks = if a == Play::RotateCW { kicks_cw(p.piece, p.rot) } else { kicks_ccw(p.piece, p.rot) };
            assert(kicks[0] == Point { x: 0, y: 0 });
            let s = sprite_of(turned.piece, turned.rot);
            if q != p {
                let i = choose|i: int|
                    0 <= i < 5 && q == (Player { pt: shifted_pt(turned.pt, #[trigger] kicks[i]), ..turned })
                        && !well.collides(s, q.pt) && forall|j: int| 0 <= j < i ==> well.collides(s, shifted_pt(turned.pt, #[trigger] kicks[j]));
                if p.pt.y >= well.height + 4 && i > 0 {
                    assert(well.collides(s, shifted_pt(turned.pt, kicks[0])));
                    assert(shifted_pt(turned.pt, kicks[0]) == p.pt);
                }
            }
        }
    } else {
        assert(reaches_kick(well, start, q, n));
    }
}

/// Every state reached from the start is marked, when the start is marked and
/// each marked state that does not collide has its moves covered.
proof fn lemma_reached_marked_kick(well: Well, start: Player, v: Seq<bool>, q: Player, n: nat)
    requires
        well.wf(),
        v.len() == SIZE,
        in_grid(start),
        v[grid_index(start)],
        forall|s: Player|
            s.piece == start.piece && in_grid(s) && v[grid_index(s)] && !well.collides(s.sprite_spec(), s.pt)
                ==> closed_kick(well, v, s),
        reaches_kick(well, start, q, n),
    ensures
        v[grid_index(q)],
    decreases n,
{
    lemma_reach_bound(well, start, q, n);
    if q != start {
        let (p, a) = choose|p: Player, a: Play| reaches_kick(well, start, p, (n - 1) as nat) && #[trigger] step(well, p, a, q);
        lemma_reached_marked_kick(well, start, v, p, (n - 1) as nat);
        lemma_reach_bound(well, start, p, (n - 1) as nat);
        assert(closed_kick(well, v, p));
        assert(covered(well, v, q));
    }
}

impl PlayI {
    /// Searches for the best placement of `player`, exploring depth first every
    /// state reachable with soft drops, shifts and rotations with wall kicks.
    ///
    /// Each state is visited once, and each state at rest is scored. Returns
    /// no placement if the player collides where it starts or every placement
    /// loses the game.
    pub fn play(weights: &Weights, well: &Well, player: Player) -> (r: PlayI)
        requires
            well.wf(),
            in_grid(player),
        ensures
            found(*weights, *well, player, r),
            well.collides(player.sprite_spec(), player.pt) ==> r.player is None && r.play@.len() == 0 && r.score
                == LOST,
            forall|q: Player, n: nat, w2: Well|
                #![trigger reaches_kick(*well, player, q, n), w2.is_etch_of(*well, q.sprite_spec(), q.pt)]
                reaches_kick(*well, player, q, n) && at_rest(*well, q) && w2.is_etch_of(*well, q.sprite_spec(), q.pt)
                    ==> r.score >= eval_spec(*weights, w2),
    {
        let mut best = PlayI { score: LOST, play: Vec::new(), player: None };
        if test_player(well, player) {
            proof {
                assert forall|q: Player, n: nat| reaches_kick(*well, player, q, n) implies false by {
                    lemma_reach_bound(*well, player, q, n);
                }
            }
            return best;
        }
        let mut visited: Vec<bool> = vec![false; SIZE];
        let ghost v0 = visited@;
        assert forall|i: int| 0 <= i < SIZE implies !v0[i] by {
            assert(cloned(false, v0[i]));
        }
        proof {
            lemma_grid_index(player);
        }
        let seen = visit(&mut visited, player);
        assert(!seen);
        let ghost vs = visited@;
        let mut labels: Vec<Play> = Vec::new();
        let ghost root = seq![player];
        proof {
            assert(path_ok(*well, player, labels@, root));
        }
        explore(&mut visited, &mut labels, Ghost(root), weights, well, player, &mut best, Ghost(player));
        proof {
            let v = visited@;
            assert forall|s: Player|
                s.piece == player.piece && in_grid(s) && v[grid_index(s)] && !well.collides(s.sprite_spec(), s.pt)
                    implies closed_kick(*well, v, s) by {
                lemma_grid_index(s);
                if s != player {
                    if vs[grid_index(s)] {
                        assert(vs[grid_index(s)] == v0[grid_index(s)] || grid_index(s) == grid_index(player));
                        lemma_grid_index_unique(s, player);
                    }
                    assert(newly(vs, v, s));
                }
            }
            assert forall|q: Player, n: nat, w2: Well|
                #![trigger reaches_kick(*well, player, q, n), w2.is_etch_of(*well, q.sprite_spec(), q.pt)]
                reaches_kick(*well, player, q, n) && at_rest(*well, q) && w2.is_etch_of(*well, q.sprite_spec(), q.pt)
                    implies best.score >= eval_spec(*weights, w2) by {
                lemma_reach_bound(*well, player, q, n);
                lemma_reached_marked_kick(*well, player, v, q, n);
                lemma_grid_index(q);
                if q != player {
                    if vs[grid_index(q)] {
                        assert(vs[grid_index(q)] == v0[grid_index(q)] || grid_index(q) == grid_index(player));
                        lemma_grid_index_unique(q, player);
                    }
                    assert(newly(vs, v, q));
                }
            }
        }
        best
    }
}

/// `score` is `LOST`, or the score of a placement of `piece` at rest in the
/// well: the evaluation of the well with that placement etched in.
pub open spec fn placement_score(weights: Weights, well: Well, piece: Piece, score: i64) -> bool {
    score == LOST || exists|q: Player|
        q.piece == piece && at_rest(well, q) && #[trigger] placed_with(weights, well, q, score)
}

/// `score` is the evaluation of the well with the player `q` etched in; a
/// score above `LOST` means that well is not lost.
pub open spec fn placed_with(weights: Weights, well: Well, q: Player, score: i64) -> bool {
    exists|w2: Well|
        #[trigger] w2.is_etch_of(well, q.sprite_spec(), q.pt) && w2.wf() && scored(weights, w2, score) && (score > LOST
            ==> !lost(w2))
}

/// Evaluates the well with the player, which is at rest, etched in.
fn score_at_rest(weights: &Weights, well: &Well, q: Player) -> (r: i64)
    requires
        well.wf(),
        at_rest(*well, q),
    ensures
        placed_with(*weights, *well, q, r),
{
    let mut w2 = *well;
    let sprite = q.sprite();
    proof {
        lemma_free_fits(*well, sprite, q.pt);
    }
    w2.etch(&sprite, q.pt);
    let r = weights.eval(&w2);
    assert(w2.is_etch_of(*well, q.sprite_spec(), q.pt));
    r
}

/// The five states one plain move from `p`: turned either way without kicks,
/// shifted either way, or dropped one row.
pub open spec fn plain_moves(p: Player) -> Seq<Player> {
    seq![
        Player { rot: cw_of(p.rot), ..p },
        Player { rot: ccw_of(p.rot), ..p },
        moved(p, -1, 0),
        moved(p, 1, 0),
        moved(p, 0, -1),
    ]
}

/// The state `t` needs no visit: it collides, lies off the grid, or is marked.
pub open spec fn covered(well: Well, v: Seq<bool>, t: Player) -> bool {
    well.collides(t.sprite_spec(), t.pt) || !in_grid(t) || v[grid_index(t)]
}

/// Every plain move from `s` leads to a state that needs no visit.
pub open spec fn closed_at(well: Well, v: Seq<bool>, s: Player) -> bool {
    forall|i: int| 0 <= i < 5 ==> #[trigger] covered(well, v, plain_moves(s)[i])
}

/// The state `s` is marked in `v1` and was not in `v0`.
pub open spec fn newly(v0: Seq<bool>, v1: Seq<bool>, s: Player) -> bool {
    in_grid(s) && v1[grid_index(s)] && !v0[grid_index(s)]
}

/// `q` is reached from `start` in at most `n` plain moves through states that
/// do not collide.
pub open spec fn reaches(well: Well, start: Player, q: Player, n: nat) -> bool
    decreases n,
{
    !well.collides(q.sprite_spec(), q.pt) && (q == start || (n > 0 && exists|p: Player|
        reaches(well, start, p, (n - 1) as nat) && #[trigger] plain_moves(p).contains(q)))
}

proof fn lemma_grid_index(p: Player)
    requires
        in_grid(p),
    ensures
        0 <= grid_index(p) < SIZE,
{
    assert(0 <= rot_index(p.rot) < 4);
}

proof fn lemma_grid_index_unique(p: Player, q: Player)
    requires
        in_grid(p),
        in_grid(q),
        p.piece == q.piece,
        grid_index(p) == grid_index(q),
    ensures
        p == q,
{
    let a = (p.pt.x + 3) * 4 + rot_index(p.rot);
    let b = (q.pt.x + 3) * 4 + rot_index(q.rot);
    assert(0 <= rot_index(p.rot) < 4 && 0 <= rot_index(q.rot) < 4);
    assert(p.pt.y == q.pt.y && a == b) by (nonlinear_arith)
        requires
            p.pt.y * 60 + a == q.pt.y * 60 + b,
            0 <= a < 60,
            0 <= b < 60,
    ;
    assert(p.pt.x == q.pt.x && rot_index(p.rot) == rot_index(q.rot)) by (nonlinear_arith)
        requires
            (p.pt.x + 3) * 4 + rot_index(p.rot) == (q.pt.x + 3) * 4 + rot_index(q.rot),
            0 <= rot_index(p.rot) < 4,
            0 <= rot_index(q.rot) < 4,
    ;
}

proof fn lemma_covered_grows(well: Well, v0: Seq<bool>, v1: Seq<bool>, s: Player)
    requires
        v0.len() == SIZE,
        v1.len() == SIZE,
        forall|i: int| 0 <= i < SIZE && v0[i] ==> #[trigger] v1[i],
        closed_at(well, v0, s),
    ensures
        closed_at(well, v1, s),
{
    assert forall|i: int| 0 <= i < 5 implies #[trigger] covered(well, v1, plain_moves(s)[i]) by {
        assert(covered(well, v0, plain_moves(s)[i]));
        let t = plain_moves(s)[i];
        if in_grid(t) {
            lemma_grid_index(t);
        }
    }
}

/// `score` is what the search for `piece` owes: `LOST` or the score of a
/// placement at rest, and at least the score of every placement at rest that
/// plain moves reach from the spawn point above the well.
pub open spec fn best_of_piece(weights: Weights, well: Well, piece: Piece, score: i64) -> bool {
    &&& placement_score(weights, well, piece, score)
    &&& score == LOST || exists|q: Player, n: nat|
        #[trigger] reaches(well, search_start(well, piece), q, n) && at_rest(well, q) && q.piece == piece && placed_with(weights, well, q, score)
    &&& forall|q: Player, n: nat, w2: Well|
        #![trigger reaches(well, search_start(well, piece), q, n), w2.is_etch_of(well, q.sprite_spec(), q.pt)]
        reaches(well, search_start(well, piece), q, n) && at_rest(well, q) && w2.is_etch_of(well, q.sprite_spec(), q.pt)
            ==> score >= eval_spec(weights, w2)
}

/// The spawn point that the piece searches start from: centered, with the
/// box just above the top of the well.
pub open spec fn search_start(well: Well, piece: Piece) -> Player {
    Player { piece, rot: Rot::Zero, pt: Point { x: (well.width / 2 - 2) as i8, y: (well.height + 3) as i8 } }
}

/// Every state reached from a marked start, when each marked state that does
/// not collide has its plain moves covered, is marked itself.
proof fn lemma_reached_marked(well: Well, start: Player, v: Seq<bool>, q: Player, n: nat)
    requires
        well.wf(),
        v.len() == SIZE,
        in_grid(start),
        v[grid_index(start)],
        forall|s: Player|
            s.piece == start.piece && in_grid(s) && v[grid_index(s)] && !well.collides(s.sprite_spec(), s.pt)
                ==> closed_at(well, v, s),
        reaches(well, start, q, n),
    ensures
        q.piece == start.piece,
        q.pt.y <= start.pt.y,
        in_grid(q),
        v[grid_index(q)],
    decreases n,
{
    if q != start {
        let p = choose|p: Player| reaches(well, start, p, (n - 1) as nat) && #[trigger] plain_moves(p).contains(q);
        lemma_reached_marked(well, start, v, p, (n - 1) as nat);
        let i = choose|i: int| 0 <= i < plain_moves(p).len() && plain_moves(p)[i] == q;
        assert(closed_at(well, v, p));
        assert(covered(well, v, plain_moves(p)[i]));
        assert(!well.collides(q.sprite_spec(), q.pt));
        assert(q.piece == p.piece && q.pt.y <= p.pt.y);
    }
}

/// Visits every state reachable from `player` by plain rotations, shifts and
/// soft drops, and returns the best score of a placement at rest among them.
///
/// The player, unless it collides, is reached from `start` in `n` plain moves.
/// Marks only ever get set; every state this call marks that does not collide
/// has each of its plain moves covered; and the result is at least the score of
/// every placement at rest among the states this call marks.
#[verifier::rlimit(80)]
fn best_reachable(
    visited: &mut Vec<bool>,
    weights: &Weights,
    well: &Well,
    player: Player,
    Ghost(start): Ghost<Player>,
    Ghost(n): Ghost<nat>,
) -> (r: i64)
    requires
        well.wf(),
        old(visited)@.len() == SIZE,
        !well.collides(player.sprite_spec(), player.pt) ==> reaches(*well, start, player, n),
    ensures
        final(visited)@.len() == SIZE,
        count_unvisited(final(visited)@) <= count_unvisited(old(visited)@),
        placement_score(*weights, *well, player.piece, r),
        r == LOST || exists|q: Player, m: nat|
            #[trigger] reaches(*well, start, q, m) && at_rest(*well, q) && q.piece == player.piece && placed_with(*weights, *well, q, r),
        forall|i: int| 0 <= i < SIZE && old(visited)@[i] ==> #[trigger] final(visited)@[i],
        in_grid(player) ==> final(visited)@[grid_index(player)],
        forall|s: Player|
            s.piece == player.piece && #[trigger] newly(old(visited)@, final(visited)@, s) && !well.collides(s.sprite_spec(), s.pt)
                ==> closed_at(*well, final(visited)@, s),
        forall|s: Player, w2: Well|
            s.piece == player.piece && newly(old(visited)@, final(visited)@, s) && at_rest(*well, s)
                && #[trigger] w2.is_etch_of(*well, s.sprite_spec(), s.pt) ==> r >= eval_spec(*weights, w2),
    decreases count_unvisited(old(visited)@),
{
    let ghost v0 = visited@;
    // Check if the current position has been visited
    if visit(visited, player) {
        return LOST;
    }
    proof {
        lemma_mark(v0, grid_index(player));
        lemma_grid_index(player);
    }
    let ghost v1 = visited@;
    // Test if this is a valid move
    if test_player(well, player) {
        proof {
            assert forall|s: Player| s.piece == player.piece && #[trigger] newly(v0, v1, s) implies s == player by {
                lemma_grid_index(s);
                if grid_index(s) != grid_index(player) {
                    assert(v1[grid_index(s)] == v0[grid_index(s)]);
                }
                lemma_grid_index_unique(s, player);
            }
        }
        return LOST;
    }
    // Try all possible moves from this location
    let cw = {
        let next = player.rotate_cw();
        proof {
            assert(plain_moves(player)[0] == next);
            assert(plain_moves(player).contains(next));
        }
        best_reachable(visited, weights, well, next, Ghost(start), Ghost(n + 1))
    };
    let ghost v2 = visited@;
    let ccw = {
        let next = player.rotate_ccw();
        proof {
            assert(plain_moves(player)[1] == next);
            assert(plain_moves(player).contains(next));
        }
        best_reachable(visited, weights, well, next, Ghost(start), Ghost(n + 1))
    };
    let ghost v3 = visited@;
    let left = {
        let next = player.move_left();
        proof {
            assert(plain_moves(player)[2] == next);
            assert(plain_moves(player).contains(next));
        }
        best_reachable(visited, weights, well, next, Ghost(start), Ghost(n + 1))
    };
    let ghost v4 = visited@;
    let right = {
        let next = player.move_right();
        proof {
            assert(plain_moves(player)[3] == next);
            assert(plain_moves(player).contains(next));
        }
        best_reachable(visited, weights, well, next, Ghost(start), Ghost(n + 1))
    };
    let ghost v5 = visited@;
    // Finally try moving one down, and eval well
    let down = player.move_down();
    let ghost mut here: i64 = LOST;
    let player_down = if test_player(well, down) {
        let s = score_at_rest(weights, well, player);
        assert(placed_with(*weights, *well, player, s));
        proof {
            here = s;
        }
        s
    } else {
        proof {
            assert(plain_moves(player)[4] == down);
            assert(plain_moves(player).contains(down));
        }
        best_reachable(visited, weights, well, down, Ghost(start), Ghost(n + 1))
    };
    let ghost v6 = visited@;
    // Brute force for the highest valued placement
    let mut best = cw;
    if ccw > best {
        best = ccw;
    }
    if left > best {
        best = left;
    }
    if right > best {
        best = right;
    }
    if player_down > best {
        best = player_down;
    }
    assert(best == cw || best == ccw || best == left || best == right || best == player_down);
    proof {
        if player_down == here && here != LOST {
            assert(reaches(*well, start, player, n));
            assert(placed_with(*weights, *well, player, here));
        }
    }
    proof {
        // The moves from this state are all covered at the end.
        assert(closed_at(*well, v6, player)) by {
            assert forall|i: int| 0 <= i < 5 implies #[trigger] covered(*well, v6, plain_moves(player)[i]) by {
                let t = plain_moves(player)[i];
                if in_grid(t) {
                    lemma_grid_index(t);
                }
            }
        }
        assert forall|s: Player|
            s.piece == player.piece && #[trigger] newly(v0, v6, s) && !well.collides(s.sprite_spec(), s.pt)
                implies closed_at(*well, v6, s) by {
            lemma_grid_index(s);
            let i = grid_index(s);
            if !v1[i] {
                if v2[i] {
                    assert(newly(v1, v2, s));
                    lemma_covered_grows(*well, v2, v6, s);
                } else if v3[i] {
                    assert(newly(v2, v3, s));
                    lemma_covered_grows(*well, v3, v6, s);
                } else if v4[i] {
                    assert(newly(v3, v4, s));
                    lemma_covered_grows(*well, v4, v6, s);
                } else if v5[i] {
                    assert(newly(v4, v5, s));
                    lemma_covered_grows(*well, v5, v6, s);
                } else {
                    assert(newly(v5, v6, s));
                }
            } else {
                if i != grid_index(player) {
                    assert(v1[i] == v0[i]);
                }
                lemma_grid_index_unique(s, player);
            }
        }
        assert forall|s: Player, w2: Well|
            s.piece == player.piece && newly(v0, v6, s) && at_rest(*well, s)
                && #[trigger] w2.is_etch_of(*well, s.sprite_spec(), s.pt) implies best >= eval_spec(*weights, w2) by {
            lemma_grid_index(s);
            let i = grid_index(s);
            if !v1[i] {
                if v2[i] {
                    assert(newly(v1, v2, s));
                } else if v3[i] {
                    assert(newly(v2, v3, s));
                } else if v4[i] {
                    assert(newly(v3, v4, s));
                } else if v5[i] {
                    assert(newly(v4, v5, s));
                } else {
                    assert(newly(v5, v6, s));
                }
            } else {
                if i != grid_index(player) {
                    assert(v1[i] == v0[i]);
                }
                lemma_grid_index_unique(s, player);
                assert(moved(player, 0, -1) == down);
                let w3 = choose|w3: Well|
                    #[trigger] w3.is_etch_of(*well, player.sprite_spec(), player.pt) && w3.wf() && scored(*weights, w3, here)
                        && (here > LOST ==> !lost(w3));
                assert(w2.field@ =~= w3.field@);
                lemma_eval_by_rows(*weights, w2, w3);
            }
        }
    }
    best
}

/// The worst of seven scores: the first lowest one, in the order
/// `S, Z, O, I, L, J, T` that the scores are given in.
pub open spec fn worst_index(scores: Seq<i64>, n: int) -> int
    decreases n,
{
    if n <= 1 {
        0
    } else {
        let k = worst_index(scores, n - 1);
        if scores[n - 1] < scores[k] {
            n - 1
        } else {
            k
        }
    }
}

/// The best of seven scores: the first highest one, in the order
/// `T, J, L, I, O, Z, S` that the scores are given in.
pub open spec fn best_index(scores: Seq<i64>, n: int) -> int
    decreases n,
{
    if n <= 1 {
        0
    } else {
        let k = best_index(scores, n - 1);
        if scores[n - 1] > scores[k] {
            n - 1
        } else {
            k
        }
    }
}

/// Pieces in the order the worst piece is picked from.
pub open spec fn worst_order() -> Seq<Piece> {
    seq![Piece::S, Piece::Z, Piece::O, Piece::I, Piece::L, Piece::J, Piece::T]
}

/// Pieces in the order the best piece is picked from.
pub open spec fn best_order() -> Seq<Piece> {
    seq![Piece::T, Piece::J, Piece::L, Piece::I, Piece::O, Piece::Z, Piece::S]
}

impl PlayI {
    /// The best score of a placement of `piece` reachable from the top of the
    /// well, trying plain rotations without wall kicks; `LOST` if none.
    ///
    /// The score is that of a placement at rest, and at least that of every
    /// placement at rest that plain moves reach from the spawn point above the
    /// well.
    pub fn piece_score(weights: &Weights, well: &Well, piece: Piece) -> (r: i64)
        requires
            well.wf(),
        ensures
            best_of_piece(*weights, *well, piece, r),
    {
        let visited: Vec<bool> = vec![false; SIZE];
        let mut visited = visited;
        let ghost v0 = visited@;
        assert forall|i: int| 0 <= i < SIZE implies !v0[i] by {
            assert(cloned(false, v0[i]));
        }
        let start = Player::new(piece, Rot::Zero, Point::new(well.width() / 2 - 2, well.height() + 3));
        assert(start == search_start(*well, piece));
        let r = best_reachable(&mut visited, weights, well, start, Ghost(start), Ghost(0));
        proof {
            let v = visited@;
            lemma_grid_index(start);
            assert forall|s: Player|
                s.piece == start.piece && in_grid(s) && v[grid_index(s)] && !well.collides(s.sprite_spec(), s.pt)
                    implies closed_at(*well, v, s) by {
                lemma_grid_index(s);
                assert(newly(v0, v, s));
            }
            assert forall|q: Player, n: nat, w2: Well|
                #![trigger reaches(*well, start, q, n), w2.is_etch_of(*well, q.sprite_spec(), q.pt)]
                reaches(*well, start, q, n) && at_rest(*well, q) && w2.is_etch_of(*well, q.sprite_spec(), q.pt)
                    implies r >= eval_spec(*weights, w2) by {
                lemma_reached_marked(*well, start, v, q, n);
                lemma_grid_index(q);
                assert(newly(v0, v, q));
            }
        }
        r
    }

    /// The piece with the lowest score among `scores`, given in the order
    /// `S, Z, O, I, L, J, T`; the first one on a tie.
    pub fn pick_worst(scores: &[i64; 7]) -> (r: Piece)
        ensures
            r == worst_order()[worst_index(scores@, 7)],
    {
        let pieces = [Piece::S, Piece::Z, Piece::O, Piece::I, Piece::L, Piece::J, Piece::T];
        let mut k: usize = 0;
        let mut i: usize = 1;
        while i < 7
            invariant
                1 <= i <= 7,
                k == worst_index(scores@, i as int),
                0 <= k < i,
            decreases 7 - i,
        {
            if scores[i] < scores[k] {
                k = i;
            }
            i += 1;
        }
        assert(pieces@ == worst_order());
        pieces[k]
    }

    /// The piece with the highest score among `scores`, given in the order
    /// `T, J, L, I, O, Z, S`; the first one on a tie.
    pub fn pick_best(scores: &[i64; 7]) -> (r: Piece)
        ensures
            r == best_order()[best_index(scores@, 7)],
    {
        let pieces = [Piece::T, Piece::J, Piece::L, Piece::I, Piece::O, Piece::Z, Piece::S];
        let mut k: usize = 0;
        let mut i: usize = 1;
        while i < 7
            invariant
                1 <= i <= 7,
                k == best_index(scores@, i as int),
                0 <= k < i,
            decreases 7 - i,
        {
            if scores[i] > scores[k] {
                k = i;
            }
            i += 1;
        }
        assert(pieces@ == best_order());
        pieces[k]
    }

    /// Brute forces the worst piece for the given well and weights: the one
    /// whose best placement scores lowest.
    pub fn worst_piece(weights: &Weights, well: &Well) -> (r: Piece)
        requires
            well.wf(),
        ensures
            exists|scores: Seq<i64>|
                scores.len() == 7 && (forall|i: int| 0 <= i < 7 ==> best_of_piece(*weights, *well, worst_order()[i], #[trigger] scores[i]))
                    && r == worst_order()[worst_index(scores, 7)],
    {
        let scores = [
            Self::piece_score(weights, well, Piece::S),
            Self::piece_score(weights, well, Piece::Z),
            Self::piece_score(weights, well, Piece::O),
            Self::piece_score(weights, well, Piece::I),
            Self::piece_score(weights, well, Piece::L),
            Self::piece_score(weights, well, Piece::J),
            Self::piece_score(weights, well, Piece::T),
        ];
        let r = Self::pick_worst(&scores);
        let ghost sc = scores@;
        assert(forall|i: int| 0 <= i < 7 ==> best_of_piece(*weights, *well, worst_order()[i], #[trigger] sc[i]));
        assert(sc.len() == 7 && r == worst_order()[worst_index(sc, 7)]);
        r
    }

    /// Brute forces the best piece for the given well and weights: the one
    /// whose best placement scores highest.
    pub fn best_piece(weights: &Weights, well: &Well) -> (r: Piece)
        requires
            well.wf(),
        ensures
            exists|scores: Seq<i64>|
                scores.len() == 7 && (forall|i: int| 0 <= i < 7 ==> best_of_piece(*weights, *well, best_order()[i], #[trigger] scores[i]))
                    && r == best_order()[best_index(scores, 7)],
    {
        let scores = [
            Self::piece_score(weights, well, Piece::T),
            Self::piece_score(weights, well, Piece::J),
            Self::piece_score(weights, well, Piece::L),
            Self::piece_score(weights, well, Piece::I),
            Self::piece_score(weights, well, Piece::O),
            Self::piece_score(weights, well, Piece::Z),
            Self::piece_score(weights, well, Piece::S),
        ];
        let r = Self::pick_best(&scores);
        let ghost sc = scores@;
        assert(forall|i: int| 0 <= i < 7 ==> best_of_piece(*weights, *well, best_order()[i], #[trigger] sc[i]));
        assert(sc.len() == 7 && r == best_order()[best_index(sc, 7)]);
        r
    }

    /// Brute forces the best placement of `piece`: every rotation state and
    /// every column offset in `[-3, width)`, dropped straight down from the
    /// spawn row. The first best one wins, in scan order.
    ///
    /// Returns no player if no placement keeps the game going; the move list
    /// is left empty.
    pub fn best(weights: &Weights, well: &Well, piece: Piece) -> (r: PlayI)
        requires
            well.wf(),
        ensures
            r.play@.len() == 0,
            match r.player {
                None => r.score == LOST,
                Some(q) => r.score > LOST && q.piece == piece && at_rest(*well, q) && placed_with(*weights, *well, q, r.score)
                    && exists|rot: Rot, x: int| #[trigger] grid_placement(*well, piece, rot, x, q) && first_best(*weights, *well, piece, rot, x, r.score),
            },
            forall|rot: Rot, x: int, q: Point, w2: Well|
                #![trigger well.rests_at(sprite_of(piece, rot), Point { x: x as i8, y: well.height }, q), w2.is_etch_of(*well, sprite_of(piece, rot), q)]
                -3 <= x < well.width && !well.collides(sprite_of(piece, rot), Point { x: x as i8, y: well.height })
                    && well.rests_at(sprite_of(piece, rot), Point { x: x as i8, y: well.height }, q)
                    && w2.is_etch_of(*well, sprite_of(piece, rot), q) ==> r.score >= eval_spec(*weights, w2),
    {
        let mut best = PlayI { score: LOST, play: Vec::new(), player: None };
        let rots = [Rot::Zero, Rot::Right, Rot::Two, Rot::Left];
        let ghost mut brot = Rot::Zero;
        let ghost mut bx: int = 0;
        let mut k: usize = 0;
        while k < 4
            invariant
                well.wf(),
                0 <= k <= 4,
                rots@ == seq![Rot::Zero, Rot::Right, Rot::Two, Rot::Left],
                best.play@.len() == 0,
                match best.player {
                    None => best.score == LOST,
                    Some(q) => best.score > LOST && q.piece == piece && at_rest(*well, q) && placed_with(*weights, *well, q, best.score)
                        && grid_placement(*well, piece, brot, bx, q) && first_best(*weights, *well, piece, brot, bx, best.score),
                },
                forall|rot: Rot, x: int, q: Point, w2: Well|
                    #![trigger well.rests_at(sprite_of(piece, rot), Point { x: x as i8, y: well.height }, q), w2.is_etch_of(*well, sprite_of(piece, rot), q)]
                    rot_index(rot) < k && -3 <= x < well.width && !well.collides(sprite_of(piece, rot), Point { x: x as i8, y: well.height })
                        && well.rests_at(sprite_of(piece, rot), Point { x: x as i8, y: well.height }, q)
                        && w2.is_etch_of(*well, sprite_of(piece, rot), q) ==> best.score >= eval_spec(*weights, w2),
            decreases 4 - k,
        {
            let rot = rots[k];
            assert(rot_index(rot) == k);
            let mut x: i8 = -3;
            while x < well.width()
                invariant
                    well.wf(),
                    0 <= k < 4,
                    rot_index(rot) == k,
                    -3 <= x <= well.width,
                    best.play@.len() == 0,
                    match best.player {
                        None => best.score == LOST,
                        Some(q) => best.score > LOST && q.piece == piece && at_rest(*well, q) && placed_with(*weights, *well, q, best.score)
                            && grid_placement(*well, piece, brot, bx, q) && first_best(*weights, *well, piece, brot, bx, best.score),
                    },
                    forall|rr: Rot, xx: int, q: Point, w2: Well|
                        #![trigger well.rests_at(sprite_of(piece, rr), Point { x: xx as i8, y: well.height }, q), w2.is_etch_of(*well, sprite_of(piece, rr), q)]
                        (rot_index(rr) < k || (rr == rot && xx < x)) && -3 <= xx < well.width && !well.collides(sprite_of(piece, rr), Point { x: xx as i8, y: well.height })
                            && well.rests_at(sprite_of(piece, rr), Point { x: xx as i8, y: well.height }, q)
                            && w2.is_etch_of(*well, sprite_of(piece, rr), q) ==> best.score >= eval_spec(*weights, w2),
                decreases well.width - x,
            {
                let player = Player::new(piece, rot, Point::new(x, well.height()));
                let ghost s = sprite_of(piece, rot);
                // Early reject against the walls
                if !test_player(well, player) {
                    // Drop the piece down
                    let rest = trace_down(well, player);
                    proof {
                        if rest.pt.y < player.pt.y {
                            let y = rest.pt.y as int;
                            assert(!well.collides(player.sprite_spec(), Point { x: player.pt.x, y: y as i8 }));
                        }
                        assert(moved(rest, 0, -1).pt == Point { x: rest.pt.x, y: (rest.pt.y - 1) as i8 });
                    }
                    let score = score_at_rest(weights, well, rest);
                    // Keep the best scoring move
                    if score > best.score {
                        proof {
                            assert forall|r2: Rot, x2: int, q2: Point, w2: Well|
                                #![trigger well.rests_at(sprite_of(piece, r2), Point { x: x2 as i8, y: well.height }, q2), w2.is_etch_of(*well, sprite_of(piece, r2), q2)]
                                scan_before(r2, x2, rot, x as int) && -3 <= x2 < well.width && !well.collides(sprite_of(piece, r2), Point { x: x2 as i8, y: well.height })
                                    && well.rests_at(sprite_of(piece, r2), Point { x: x2 as i8, y: well.height }, q2)
                                    && w2.is_etch_of(*well, sprite_of(piece, r2), q2) implies eval_spec(*weights, w2) < score by {
                                assert(best.score >= eval_spec(*weights, w2));
                            }
                            brot = rot;
                            bx = x as int;
                            assert(rest.pt == Point { x: rest.pt.x, y: rest.pt.y });
                        }
                        best = PlayI { score, play: Vec::new(), player: Some(rest) };
                    }
                    proof {
                        let w3 = choose|w3: Well|
                            #[trigger] w3.is_etch_of(*well, rest.sprite_spec(), rest.pt) && w3.wf() && scored(*weights, w3, score)
                                && (score > LOST ==> !lost(w3));
                        assert forall|q: Point, w2: Well|
                            #![trigger well.rests_at(s, Point { x: x as i8, y: well.height }, q), w2.is_etch_of(*well, s, q)]
                            well.rests_at(s, Point { x: x as i8, y: well.height }, q) && w2.is_etch_of(*well, s, q)
                                implies best.score >= eval_spec(*weights, w2) by {
                            assert(player.pt == Point { x: x as i8, y: well.height });
                            lemma_rest_unique(*well, s, player.pt, q, rest.pt);
                            assert(w2.field@ =~= w3.field@);
                            lemma_eval_by_rows(*weights, w2, w3);
                        }
                    }
                }
                x += 1;
            }
            k += 1;
        }
        best
    }
}

/// `(r1, x1)` comes before `(r2, x2)` in the order the grid search scans.
pub open spec fn scan_before(r1: Rot, x1: int, r2: Rot, x2: int) -> bool {
    rot_index(r1) < rot_index(r2) || (r1 == r2 && x1 < x2)
}

/// `q` is the placement the grid search makes for rotation `rot` and column
/// `x`: the piece, free at the top of the well, dropped straight down.
pub open spec fn grid_placement(well: Well, piece: Piece, rot: Rot, x: int, q: Player) -> bool {
    &&& -3 <= x < well.width
    &&& !well.collides(sprite_of(piece, rot), Point { x: x as i8, y: well.height })
    &&& q.piece == piece
    &&& q.rot == rot
    &&& well.rests_at(sprite_of(piece, rot), Point { x: x as i8, y: well.height }, q.pt)
}

/// Every placement the grid search makes before `(rot, x)` scores below `score`.
pub open spec fn first_best(weights: Weights, well: Well, piece: Piece, rot: Rot, x: int, score: i64) -> bool {
    forall|r2: Rot, x2: int, q2: Point, w2: Well|
        #![trigger well.rests_at(sprite_of(piece, r2), Point { x: x2 as i8, y: well.height }, q2), w2.is_etch_of(well, sprite_of(piece, r2), q2)]
        scan_before(r2, x2, rot, x) && -3 <= x2 < well.width && !well.collides(sprite_of(piece, r2), Point { x: x2 as i8, y: well.height })
            && well.rests_at(sprite_of(piece, r2), Point { x: x2 as i8, y: well.height }, q2)
            && w2.is_etch_of(well, sprite_of(piece, r2), q2) ==> eval_spec(weights, w2) < score
}

/// A sprite dropped from a point comes to rest at one point only.
proof fn lemma_rest_unique(well: Well, s: crate::piece::Sprite, p: Point, q1: Point, q2: Point)
    requires
        well.rests_at(s, p, q1),
        well.rests_at(s, p, q2),
    ensures
        q1 == q2,
{
    if q1.y < q2.y {
        let y = q2.y - 1;
        assert(!well.collides(s, Point { x: p.x, y: y as i8 }));
    } else if q2.y < q1.y {
        let y = q1.y - 1;
        assert(!well.collides(s, Point { x: p.x, y: y as i8 }));
    }
}

/// The evaluation reads a well through its dimensions and its rows only.
proof fn lemma_eval_by_rows(weights: Weights, a: Well, b: Well)
    requires
        a.width == b.width,
        a.height == b.height,
        a.field@ == b.field@,
    ensures
        eval_spec(weights, a) == eval_spec(weights, b),
{
    assert(a.field@[a.height - 1] == b.field@[b.height - 1]);
    assert(a.field@[a.height - 2] == b.field@[b.height - 2]);
    assert(stack_of(a) == stack_of(b));
    assert(a.holes_of() == b.holes_of());
}

impl PlayI {
    /// The next move that brings the state's player toward the placement: turn
    /// until the rotation matches, shift until the column matches, then drop.
    ///
    /// `Idle` when there is no placement or no player.
    pub fn next_play(&self, state: &crate::state::State) -> (r: Play)
        ensures
            r == match (self.player, state.player) {
                (Some(q), Some(p)) => if q.rot != p.rot {
                    Play::RotateCW
                } else if q.pt.x < p.pt.x {
                    Play::MoveLeft
                } else if q.pt.x > p.pt.x {
                    Play::MoveRight
                } else {
                    Play::HardDrop
                },
                _ => Play::Idle,
            },
    {
        match (self.player, state.player) {
            (Some(q), Some(p)) => {
                if q.rot != p.rot {
                    Play::RotateCW
                } else if q.pt.x < p.pt.x {
                    Play::MoveLeft
                } else if q.pt.x > p.pt.x {
                    Play::MoveRight
                } else {
                    Play::HardDrop
                }
            },
            _ => Play::Idle,
        }
    }
}

/// `score` is what the grid search owes for `piece`: `LOST` or the score of
/// one of its placements, and at least the score of each of them.
pub open spec fn grid_best(weights: Weights, well: Well, piece: Piece, score: i64) -> bool {
    &&& score == LOST || exists|rot: Rot, x: int, q: Player|
        #[trigger] grid_placement(well, piece, rot, x, q) && placed_with(weights, well, q, score)
    &&& forall|rot: Rot, x: int, q: Point, w2: Well|
        #![trigger well.rests_at(sprite_of(piece, rot), Point { x: x as i8, y: well.height }, q), w2.is_etch_of(well, sprite_of(piece, rot), q)]
        -3 <= x < well.width && !well.collides(sprite_of(piece, rot), Point { x: x as i8, y: well.height })
            && well.rests_at(sprite_of(piece, rot), Point { x: x as i8, y: well.height }, q)
            && w2.is_etch_of(well, sprite_of(piece, rot), q) ==> score >= eval_spec(weights, w2)
}

impl PlayI {
    /// The best score of the grid search for `piece`.
    fn grid_score(weights: &Weights, well: &Well, piece: Piece) -> (r: i64)
        requires
            well.wf(),
        ensures
            grid_best(*weights, *well, piece, r),
    {
        let b = Self::best(weights, well, piece);
        proof {
            if let Some(q) = b.player {
                let (rot, x) = choose|rot: Rot, x: int| #[trigger] grid_placement(*well, piece, rot, x, q) && first_best(*weights, *well, piece, rot, x, b.score);
                assert(grid_placement(*well, piece, rot, x, q) && placed_with(*weights, *well, q, b.score));
            }
        }
        b.score
    }

    /// Brute forces the worst piece with the grid search: the piece whose best
    /// straight drop scores lowest, the first one in the order `S, Z, O, I, L,
    /// J, T` on a tie.
    pub fn worst_piece_grid(weights: &Weights, well: &Well) -> (r: Piece)
        requires
            well.wf(),
        ensures
            exists|scores: Seq<i64>|
                scores.len() == 7 && (forall|i: int| 0 <= i < 7 ==> grid_best(*weights, *well, worst_order()[i], #[trigger] scores[i]))
                    && r == worst_order()[worst_index(scores, 7)],
    {
        let scores = [
            Self::grid_score(weights, well, Piece::S),
            Self::grid_score(weights, well, Piece::Z),
            Self::grid_score(weights, well, Piece::O),
            Self::grid_score(weights, well, Piece::I),
            Self::grid_score(weights, well, Piece::L),
            Self::grid_score(weights, well, Piece::J),
            Self::grid_score(weights, well, Piece::T),
        ];
        let r = Self::pick_worst(&scores);
        let ghost sc = scores@;
        assert(forall|i: int| 0 <= i < 7 ==> grid_best(*weights, *well, worst_order()[i], #[trigger] sc[i]));
        assert(sc.len() == 7 && r == worst_order()[worst_index(sc, 7)]);
        r
    }
}

} // verus!
