//! Graphics tiles: a byte telling a renderer what stands in a cell.

use vstd::prelude::*;
use crate::piece::{Piece, piece_index};

verus! {

/// Kind of a tile.
#[derive(Copy, Clone, Debug, PartialEq, Eq, Structural)]
pub enum TileTy {
    /// This tile is a live player.
    Player,
    /// This tile is a location where the piece will land if dropped.
    Shadow,
    /// This tile is a block in the playing field.
    Field,
    /// This tile is a background block.
    Background,
}

/// Position of a tile kind in the order `Player, Shadow, Field, Background`.
pub open spec fn tile_ty_index(t: TileTy) -> int {
    match t {
        TileTy::Player => 0,
        TileTy::Shadow => 1,
        TileTy::Field => 2,
        TileTy::Background => 3,
    }
}

/// Graphics tile: the kind in the two high bits, the piece in the next three
/// (`7` for none) and the part of the piece in the three low bits.
#[derive(Copy, Clone, Debug, PartialEq, Eq, Structural)]
pub struct Tile(pub u8);

impl Tile {
    /// Packs a tile.
    pub fn from(ty: TileTy, part: u8, piece: Option<Piece>) -> (r: Tile)
        ensures
            r.0 == ((tile_ty_index(ty) as u8) << 6u8) | ((match piece {
                Some(p) => piece_index(p) as u8,
                None => 7u8,
            }) << 3u8) | part,
    {
        let ty: u8 = match ty {
            TileTy::Player => 0,
            TileTy::Shadow => 1,
            TileTy::Field => 2,
            TileTy::Background => 3,
        };
        let piece: u8 = match piece {
            Some(p) => p.index(),
            None => 7,
        };
        Tile((ty << 6) | (piece << 3) | part)
    }

    /// The kind of the tile.
    pub fn tile_ty(self) -> (r: TileTy)
        ensures
            tile_ty_index(r) == (self.0 >> 6u8) as int,
    {
        let b = self.0;
        let k = b >> 6;
        assert(b >> 6u8 <= 3) by (bit_vector);
        if k == 0 {
            TileTy::Player
        } else if k == 1 {
            TileTy::Shadow
        } else if k == 2 {
            TileTy::Field
        } else {
            TileTy::Background
        }
    }

    /// The part of the piece the tile shows.
    pub fn part(self) -> (r: u8)
        ensures
            r == self.0 & 7u8,
    {
        self.0 & 0b00_000_111
    }

    /// The piece the tile shows, if any.
    pub fn piece(self) -> (r: Option<Piece>)
        ensures
            match r {
                Some(p) => piece_index(p) == ((self.0 & 0b00_111_000u8) >> 3u8) as int,
                None => (self.0 & 0b00_111_000u8) >> 3u8 == 7,
            },
    {
        let b = self.0;
        let k = (b & 0b00_111_000) >> 3;
        assert((b & 0b00_111_000u8) >> 3u8 <= 7) by (bit_vector);
        if k == 0 {
            Some(Piece::O)
        } else if k == 1 {
            Some(Piece::I)
        } else if k == 2 {
            Some(Piece::S)
        } else if k == 3 {
            Some(Piece::Z)
        } else if k == 4 {
            Some(Piece::L)
        } else if k == 5 {
            Some(Piece::J)
        } else if k == 6 {
            Some(Piece::T)
        } else {
            None
        }
    }

    /// The tile with the given byte.
    pub fn from_byte(byte: u8) -> (r: Tile)
        ensures
            r.0 == byte,
    {
        Tile(byte)
    }

    /// The byte of the tile.
    pub fn into_byte(self) -> (r: u8)
        ensures
            r == self.0,
    {
        self.0
    }
}

} // verus!
