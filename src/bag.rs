//! Piece generators.

use rand::rngs::StdRng;
use rand::seq::SliceRandom;
use rand::Rng;
use vstd::prelude::*;
use crate::bot::{PlayI, Weights};
use crate::piece::Piece;
use crate::well::Well;

verus! {

/// rand's `StdRng`, the generator the official bag draws its orders from;
/// opaque here.
#[verifier::external_type_specification]
#[verifier::external_body]
pub struct ExStdRng(StdRng);

/// Relies on rand's `SliceRandom::shuffle`: the pieces come back in an order
/// drawn from the generator, the same pieces as before.
#[verifier::external_body]
fn shuffle_pieces(rng: &mut StdRng, pieces: &mut [Piece; 7])
    ensures
        final(pieces)@.to_multiset() == old(pieces)@.to_multiset(),
{
    pieces.shuffle(rng);
}

/// Relies on rand's `Rng::gen_range`: a number drawn from `[lo, hi)`, which
/// must not be empty.
#[verifier::external_body]
fn draw_in_range(rng: &mut StdRng, lo: i32, hi: i32) -> (r: i32)
    requires
        lo < hi,
    ensures
        lo <= r < hi,
{
    rng.gen_range(lo..hi)
}

/// The seven pieces, each once.
pub open spec fn all_pieces() -> Seq<Piece> {
    seq![Piece::O, Piece::I, Piece::S, Piece::Z, Piece::L, Piece::J, Piece::T]
}

/// The random generator: it produces the next piece.
pub trait Bag {
    /// Produces the next piece.
    fn next(&mut self, well: &Well) -> Option<Piece>
        requires
            well.wf(),
    ;

    /// Lets the player see the queued up pieces.
    fn peek(&self) -> Vec<Piece>;
}

/// Official random generator.
///
/// It deals the seven tetrominoes permuted randomly, as if drawn from a bag,
/// before it permutes the next seven. The bag being dealt from is `left`, from
/// position `pos` on; `right` holds the next bag, so that it can be peeked at.
pub struct OfficialBag {
    pub rng: StdRng,
    pub left: [Piece; 7],
    pub right: [Piece; 7],
    pub pos: u8,
}

impl OfficialBag {
    /// Both bags hold each piece once; `pos` is at most seven once dealing
    /// started, and `255` before.
    pub open spec fn wf(&self) -> bool {
        &&& self.left@.to_multiset() == all_pieces().to_multiset()
        &&& self.right@.to_multiset() == all_pieces().to_multiset()
        &&& self.pos <= 7 || self.pos == 255
    }

    /// Creates the generator; no piece is dealt yet.
    pub fn with_rng(rng: StdRng) -> (r: OfficialBag)
        ensures
            r.wf(),
            r.pos == 255,
    {
        let pieces = [Piece::O, Piece::I, Piece::S, Piece::Z, Piece::L, Piece::J, Piece::T];
        assert(pieces@ == all_pieces());
        OfficialBag { rng, left: pieces, right: pieces, pos: 255 }
    }

    /// Deals the next piece: the one at `pos` in the bag being dealt, after
    /// moving on to a fresh bag when this one is used up.
    pub fn deal(&mut self) -> (r: Piece)
        ensures
            old(self).wf() ==> final(self).wf(),
            1 <= final(self).pos <= 7,
            old(self).pos < 7 ==> final(self).pos == old(self).pos + 1 && final(self).left == old(self).left
                && final(self).right == old(self).right,
            old(self).pos >= 7 ==> final(self).pos == 1,
            old(self).pos == 7 ==> final(self).left == old(self).right,
            r == final(self).left[final(self).pos - 1],
    {
        if self.pos >= 14 {
            shuffle_pieces(&mut self.rng, &mut self.right);
        }
        if self.pos >= 7 {
            self.left = self.right;
            shuffle_pieces(&mut self.rng, &mut self.right);
            self.pos = 0;
        }
        let next_piece = self.left[self.pos as usize];
        self.pos = self.pos + 1;
        next_piece
    }

    /// The pieces still to come from the bag being dealt, then the next bag.
    pub fn queued(&self) -> (r: Vec<Piece>)
        ensures
            self.pos <= 7 ==> r@ == self.left@.subrange(self.pos as int, 7) + self.right@.subrange(0, self.pos as int),
            self.pos > 7 ==> r@.len() == 0,
    {
        let mut r: Vec<Piece> = Vec::new();
        if self.pos > 7 {
            return r;
        }
        let p = self.pos as usize;
        let mut i: usize = p;
        while i < 7
            invariant
                p <= i <= 7,
                r@ == self.left@.subrange(p as int, i as int),
            decreases 7 - i,
        {
            r.push(self.left[i]);
            proof {
                assert(self.left@.subrange(p as int, i + 1) =~= self.left@.subrange(p as int, i as int).push(self.left@[i as int]));
            }
            i += 1;
        }
        let mut j: usize = 0;
        while j < p
            invariant
                0 <= j <= p <= 7,
                r@ == self.left@.subrange(p as int, 7) + self.right@.subrange(0, j as int),
            decreases p - j,
        {
            r.push(self.right[j]);
            proof {
                assert(self.left@.subrange(p as int, 7) + self.right@.subrange(0, j + 1) =~= (self.left@.subrange(p as int, 7) + self.right@.subrange(0, j as int)).push(self.right@[j as int]));
            }
            j += 1;
        }
        r
    }
}

impl Bag for OfficialBag {
    fn next(&mut self, well: &Well) -> Option<Piece> {
        Some(self.deal())
    }

    fn peek(&self) -> Vec<Piece> {
        self.queued()
    }
}

/// Pieces bag generously giving the best pieces.
#[derive(Copy, Clone, Debug, PartialEq, Eq, Structural)]
pub struct BestBag {
    pub weights: Weights,
}

impl BestBag {
    /// A bag that picks with the given weights.
    pub fn new(weights: Weights) -> (r: BestBag)
        ensures
            r.weights == weights,
    {
        BestBag { weights }
    }
}

impl Bag for BestBag {
    fn next(&mut self, well: &Well) -> Option<Piece> {
        Some(PlayI::best_piece(&self.weights, well))
    }

    fn peek(&self) -> Vec<Piece> {
        Vec::new()
    }
}

/// Pieces bag coldly giving the worst pieces.
#[derive(Copy, Clone, Debug, PartialEq, Eq, Structural)]
pub struct WorstBag {
    pub weights: Weights,
}

impl WorstBag {
    /// A bag that picks with the given weights.
    pub fn new(weights: Weights) -> (r: WorstBag)
        ensures
            r.weights == weights,
    {
        WorstBag { weights }
    }
}

impl Bag for WorstBag {
    fn next(&mut self, well: &Well) -> Option<Piece> {
        Some(PlayI::worst_piece(&self.weights, well))
    }

    fn peek(&self) -> Vec<Piece> {
        Vec::new()
    }
}

impl Weights {
    /// Random weights, each drawn from `[-0.5, 0.5)`, in millionths.
    pub fn random(rng: &mut StdRng) -> (r: Weights)
        ensures
            -500_000 <= r.agg_height_f < 500_000,
            -500_000 <= r.max_height_f < 500_000,
            -500_000 <= r.complete_lines_f < 500_000,
            -500_000 <= r.holes_f < 500_000,
            -500_000 <= r.caves_f < 500_000,
            -500_000 <= r.bumpiness_f < 500_000,
            -500_000 <= r.stacking_f < 500_000,
    {
        Weights {
            agg_height_f: draw_in_range(rng, -500_000, 500_000),
            max_height_f: draw_in_range(rng, -500_000, 500_000),
            complete_lines_f: draw_in_range(rng, -500_000, 500_000),
            holes_f: draw_in_range(rng, -500_000, 500_000),
            caves_f: draw_in_range(rng, -500_000, 500_000),
            bumpiness_f: draw_in_range(rng, -500_000, 500_000),
            stacking_f: draw_in_range(rng, -500_000, 500_000),
        }
    }
}

} // verus!
