//! The well scene: which tile stands in each cell, for a renderer.

use vstd::prelude::*;
use crate::piece::{Piece, Sprite, piece_index};
use crate::player::Player;
use crate::tile::{Tile, TileTy, tile_ty_index};
use crate::well::{MAX_HEIGHT, MAX_WIDTH};

verus! {

/// Number of cells in a scene.
pub const CELLS: usize = 276;

/// Background tile of the rows below the two top ones.
pub open spec fn bg0() -> Tile {
    Tile(0b11_000_000)
}

/// Background tile of the second row from the top.
pub open spec fn bg1() -> Tile {
    Tile(0b11_001_000)
}

/// Background tile of the top row.
pub open spec fn bg2() -> Tile {
    Tile(0b11_010_000)
}

/// The background tile of row `row` in a scene of height `h`.
pub open spec fn bg_of(h: int, row: int) -> Tile {
    if row == h - 1 {
        bg2()
    } else if row == h - 2 {
        bg1()
    } else {
        bg0()
    }
}

/// The tile of a piece's block: its kind, the piece, and the part number.
pub open spec fn block_tile(ty: TileTy, piece: Piece, part: int) -> Tile {
    Tile(((tile_ty_index(ty) as u8) << 6u8) | ((piece_index(piece) as u8) << 3u8) | (part as u8))
}

/// Number of blocks of the sprite before the cell `(r, c)`, reading the
/// rows from the top and each row from the left.
pub open spec fn part_of(s: Sprite, r: int, c: int) -> int
    decreases r * 4 + c,
{
    if r * 4 + c <= 0 || r < 0 || c < 0 {
        0
    } else {
        let (pr, pc) = if c == 0 { (r - 1, 3int) } else { (r, c - 1) };
        part_of(s, pr, pc) + if s.has(pr, pc) {
            1int
        } else {
            0int
        }
    }
}

/// Well scene.
///
/// The scene tracks the visual tiles of the well, so that a client can draw
/// which pieces were dropped where without the game logic having to work with
/// this less compact structure. `tiles[row * MAX_WIDTH + col]` is the tile of
/// row `row`, counted from the floor, and column `col`.
#[derive(Copy, Clone, Debug, PartialEq, Eq)]
pub struct Scene {
    pub width: i8,
    pub height: i8,
    pub tiles: [Tile; CELLS],
}

impl Scene {
    /// Dimensions in the range of a well's.
    pub open spec fn wf(self) -> bool {
        &&& 4 <= self.width <= MAX_WIDTH
        &&& 4 <= self.height <= MAX_HEIGHT
    }

    /// The tile at `row` and `col`.
    pub open spec fn at(self, row: int, col: int) -> Tile {
        self.tiles[row * MAX_WIDTH + col]
    }

    /// Creates a scene of background tiles, the two top rows shaded apart.
    pub fn new(width: i8, height: i8) -> (r: Scene)
        requires
            4 <= width <= MAX_WIDTH,
            4 <= height <= MAX_HEIGHT,
        ensures
            r.wf(),
            r.width == width,
            r.height == height,
            forall|row: int, col: int|
                0 <= row < MAX_HEIGHT && 0 <= col < MAX_WIDTH ==> #[trigger] r.at(row, col) == bg_of(height as int, row),
    {
        let mut tiles = [Tile(0b11_000_000); CELLS];
        let h = height as usize;
        let mut c: usize = 0;
        while c < MAX_WIDTH
            invariant
                4 <= h <= MAX_HEIGHT,
                0 <= c <= MAX_WIDTH,
                forall|row: int, col: int|
                    0 <= row < MAX_HEIGHT && 0 <= col < MAX_WIDTH ==> #[trigger] tiles[row * MAX_WIDTH + col] == if col < c { bg_of(h as int, row) } else { bg0() },
            decreases MAX_WIDTH - c,
        {
            tiles[(h - 2) * MAX_WIDTH + c] = Tile(0b11_001_000);
            tiles[(h - 1) * MAX_WIDTH + c] = Tile(0b11_010_000);
            proof {
                assert forall|row: int, col: int|
                    0 <= row < MAX_HEIGHT && 0 <= col < MAX_WIDTH implies #[trigger] tiles[row * MAX_WIDTH + col] == if col < c + 1 { bg_of(h as int, row) } else { bg0() } by {
                    lemma_cell_index(row, col);
                    lemma_cell_index(h - 2, c as int);
                    lemma_cell_index(h - 1, c as int);
                }
            }
            c += 1;
        }
        Scene { width, height, tiles }
    }

    /// Returns the width of the scene.
    pub fn width(&self) -> (r: i8)
        ensures
            r == self.width,
    {
        self.width
    }

    /// Returns the height of the scene.
    pub fn height(&self) -> (r: i8)
        ensures
            r == self.height,
    {
        self.height
    }

    /// The tiles of a row, counted from the top, from the left wall.
    pub fn line(&self, row: i8) -> (r: Vec<Tile>)
        requires
            self.wf(),
            0 <= row < self.height,
        ensures
            r@.len() == self.width,
            forall|c: int| 0 <= c < self.width ==> #[trigger] r@[c] == self.at(self.height - 1 - row, c),
    {
        let base = (self.height - 1 - row) as usize * MAX_WIDTH;
        let w = self.width as usize;
        let mut r: Vec<Tile> = Vec::new();
        let mut c: usize = 0;
        while c < w
            invariant
                self.wf(),
                w == self.width,
                0 <= row < self.height,
                0 <= c <= w,
                base == (self.height - 1 - row) * MAX_WIDTH,
                r@.len() == c,
                forall|k: int| 0 <= k < c ==> #[trigger] r@[k] == self.at(self.height - 1 - row, k),
            decreases w - c,
        {
            proof {
                lemma_cell_index(self.height - 1 - row, c as int);
            }
            r.push(self.tiles[base + c]);
            c += 1;
        }
        r
    }

    /// Draws the blocks of the player's sprite that fall inside the scene, as
    /// tiles of the given kind numbered in reading order.
    pub fn draw(&mut self, player: Player, tile_ty: TileTy)
        requires
            old(self).wf(),
        ensures
            final(self).drawn(*old(self), player, tile_ty),
    {
        self.draw_blocks(player, tile_ty);
    }

    /// `self` is `old` with the blocks of the player's sprite that fall inside
    /// the scene drawn as tiles of the given kind, numbered in reading order.
    pub open spec fn drawn(self, old: Scene, player: Player, tile_ty: TileTy) -> bool {
        &&& self.width == old.width
        &&& self.height == old.height
        &&& forall|row: int, col: int|
                0 <= row < MAX_HEIGHT && 0 <= col < MAX_WIDTH ==> #[trigger] self.at(row, col) == if 0 <= row
                    < old.height && 0 <= col < old.width && player.sprite_spec().has(player.pt.y - row, col
                    - player.pt.x) {
                    block_tile(tile_ty, player.piece, part_of(player.sprite_spec(), player.pt.y - row, col - player.pt.x))
                } else {
                    old.at(row, col)
                }
    }

    fn draw_blocks(&mut self, player: Player, tile_ty: TileTy)
        requires
            old(self).wf(),
        ensures
            final(self).wf(),
            final(self).width == old(self).width,
            final(self).height == old(self).height,
            forall|row: int, col: int|
                0 <= row < MAX_HEIGHT && 0 <= col < MAX_WIDTH ==> #[trigger] final(self).at(row, col) == if 0 <= row
                    < old(self).height && 0 <= col < old(self).width && player.sprite_spec().has(player.pt.y - row, col
                    - player.pt.x) {
                    block_tile(tile_ty, player.piece, part_of(player.sprite_spec(), player.pt.y - row, col - player.pt.x))
                } else {
                    old(self).at(row, col)
                },
    {
        let ghost s0 = *self;
        let sprite = player.sprite();
        let mut part_id: u8 = 0;
        let mut y: i8 = 0;
        while y < 4
            invariant
                0 <= y <= 4,
                self.wf(),
                self.width == s0.width,
                self.height == s0.height,
                sprite == player.sprite_spec(),
                sprite.wf(),
                part_id == part_of(sprite, y as int, 0),
                part_id <= 4 * y,
                forall|row: int, col: int|
                    0 <= row < MAX_HEIGHT && 0 <= col < MAX_WIDTH ==> #[trigger] self.at(row, col) == if 0 <= row
                        < s0.height && 0 <= col < s0.width && 0 <= player.pt.y - row < y && sprite.has(player.pt.y - row, col - player.pt.x) {
                        block_tile(tile_ty, player.piece, part_of(sprite, player.pt.y - row, col - player.pt.x))
                    } else {
                        s0.at(row, col)
                    },
            decreases 4 - y,
        {
            let mut x: i8 = 0;
            while x < 4
                invariant
                    0 <= y < 4,
                    0 <= x <= 4,
                    self.wf(),
                    self.width == s0.width,
                    self.height == s0.height,
                    sprite == player.sprite_spec(),
                    sprite.wf(),
                    part_id == part_of(sprite, y as int, x as int),
                    part_id <= 4 * y + x,
                    forall|row: int, col: int|
                        0 <= row < MAX_HEIGHT && 0 <= col < MAX_WIDTH ==> #[trigger] self.at(row, col) == if 0 <= row
                            < s0.height && 0 <= col < s0.width && ((0 <= player.pt.y - row < y) || (player.pt.y - row == y && 0 <= col - player.pt.x < x)) && sprite.has(player.pt.y - row, col - player.pt.x) {
                            block_tile(tile_ty, player.piece, part_of(sprite, player.pt.y - row, col - player.pt.x))
                        } else {
                            s0.at(row, col)
                        },
                decreases 4 - x,
            {
                let bit: u8 = 8u8 >> (x as u8);
                assert(bit == crate::piece::nib(x as int)) by {
                    assert(8u8 >> 0u8 == 8u8 && 8u8 >> 1u8 == 4u8 && 8u8 >> 2u8 == 2u8 && 8u8 >> 3u8 == 1u8) by (bit_vector);
                }
                let ghost before = *self;
                if sprite.pix[y as usize] & bit != 0 {
                    let row: i16 = player.pt.y as i16 - y as i16;
                    let col: i16 = player.pt.x as i16 + x as i16;
                    if col >= 0 && col < self.width as i16 && row >= 0 && row < self.height as i16 {
                        let tile = Tile::from(tile_ty, part_id, Some(player.piece));
                        let i = row as usize * MAX_WIDTH + col as usize;
                        proof {
                            lemma_cell_index(row as int, col as int);
                        }
                        self.tiles[i] = tile;
                        proof {
                            assert forall|rr: int, cc: int|
                                0 <= rr < MAX_HEIGHT && 0 <= cc < MAX_WIDTH && (rr != row || cc != col) implies #[trigger] self.at(rr, cc) == before.at(rr, cc) by {
                                lemma_cell_index(rr, cc);
                                if rr * MAX_WIDTH + cc == row * MAX_WIDTH + col {
                                    lemma_cell_index_unique(rr, cc, row as int, col as int);
                                }
                            }
                        }
                    }
                    part_id = part_id + 1;
                }
                proof {
                    assert(part_of(sprite, y as int, x + 1) == part_of(sprite, y as int, x as int) + if sprite.has(y as int, x as int) { 1int } else { 0int });
                }
                x += 1;
            }
            proof {
                assert(part_of(sprite, y + 1, 0) == part_of(sprite, y as int, 3) + if sprite.has(y as int, 3) { 1int } else { 0int });
            }
            y += 1;
        }
    }
}

proof fn lemma_cell_index(row: int, col: int)
    requires
        0 <= row < MAX_HEIGHT,
        0 <= col < MAX_WIDTH,
    ensures
        0 <= row * MAX_WIDTH + col < CELLS,
{
    assert(0 <= row * 12 + col < 276) by (nonlinear_arith)
        requires
            0 <= row < 23,
            0 <= col < 12,
    ;
}

proof fn lemma_cell_index_unique(r1: int, c1: int, r2: int, c2: int)
    requires
        0 <= c1 < MAX_WIDTH,
        0 <= c2 < MAX_WIDTH,
        r1 * MAX_WIDTH + c1 == r2 * MAX_WIDTH + c2,
    ensures
        r1 == r2 && c1 == c2,
{
    assert(r1 == r2 && c1 == c2) by (nonlinear_arith)
        requires
            0 <= c1 < 12,
            0 <= c2 < 12,
            r1 * 12 + c1 == r2 * 12 + c2,
    ;
}

/// The background tile that `fix_bg` puts in row `row` in place of a
/// background tile `t`: rows near the top are shaded apart.
pub open spec fn refreshed(h: int, row: int, t: Tile) -> Tile {
    if (row == h - 1 || row == h - 2 || row == h - 3) && t.0 >> 6u8 == 3 {
        bg_of(h, row)
    } else {
        t
    }
}

/// The tile at `(r, c)` once row `row` is removed and the rows above, up to
/// the one below the top, come down.
pub open spec fn after_removal(old: Scene, row: int, r: int, c: int) -> Tile {
    let top = old.height - 2;
    if row <= top {
        if r < row || r > top {
            old.at(r, c)
        } else if r < top {
            old.at(r + 1, c)
        } else {
            bg0()
        }
    } else if r == row {
        bg0()
    } else {
        old.at(r, c)
    }
}

impl Scene {
    /// `self` is `old` with row `row` removed, the rows above, up to the one
    /// below the top, come down, and the shading of the top rows fixed.
    pub open spec fn removed_from(self, old: Scene, row: int) -> bool {
        &&& self.width == old.width
        &&& self.height == old.height
        &&& forall|r: int, c: int|
            0 <= r < MAX_HEIGHT && 0 <= c < MAX_WIDTH ==> #[trigger] self.at(r, c) == refreshed(
                old.height as int,
                r,
                after_removal(old, row, r, c),
            )
    }

    /// Removes a row, the rows above coming down, and fixes the shading of
    /// the background in the top rows.
    pub fn remove_line(&mut self, row: i8)
        requires
            old(self).wf(),
            0 <= row < old(self).height,
        ensures
            final(self).wf(),
            final(self).removed_from(*old(self), row as int),
    {
        let ghost s0 = *self;
        let h = self.height as usize;
        let top = h - 2;
        let row = row as usize;
        if row <= top {
            let mut i: usize = row;
            while i < top
                invariant
                    self.wf(),
                    self.width == s0.width,
                    self.height == s0.height,
                    h == s0.height,
                    top == h - 2,
                    row <= i <= top,
                    forall|r: int, c: int|
                        0 <= r < MAX_HEIGHT && 0 <= c < MAX_WIDTH ==> #[trigger] self.at(r, c) == if row <= r < i {
                            s0.at(r + 1, c)
                        } else {
                            s0.at(r, c)
                        },
                decreases top - i,
            {
                self.copy_row(i, i + 1);
                i += 1;
            }
            self.fill_row(top, Tile(0b11_000_000));
        } else {
            self.fill_row(row, Tile(0b11_000_000));
        }
        proof {
            assert forall|r: int, c: int| 0 <= r < MAX_HEIGHT && 0 <= c < MAX_WIDTH implies #[trigger] self.at(r, c)
                == after_removal(s0, row as int, r, c) by {}
        }
        self.fix_bg();
    }

    /// Copies row `src` into row `dst`.
    fn copy_row(&mut self, dst: usize, src: usize)
        requires
            dst < MAX_HEIGHT,
            src < MAX_HEIGHT,
        ensures
            final(self).width == old(self).width,
            final(self).height == old(self).height,
            forall|r: int, c: int|
                0 <= r < MAX_HEIGHT && 0 <= c < MAX_WIDTH ==> #[trigger] final(self).at(r, c) == if r == dst {
                    old(self).at(src as int, c)
                } else {
                    old(self).at(r, c)
                },
    {
        let ghost s0 = *self;
        let mut c: usize = 0;
        while c < MAX_WIDTH
            invariant
                dst < MAX_HEIGHT,
                src < MAX_HEIGHT,
                0 <= c <= MAX_WIDTH,
                self.width == s0.width,
                self.height == s0.height,
                forall|r: int, cc: int|
                    0 <= r < MAX_HEIGHT && 0 <= cc < MAX_WIDTH ==> #[trigger] self.at(r, cc) == if r == dst && cc < c {
                        s0.at(src as int, cc)
                    } else {
                        s0.at(r, cc)
                    },
            decreases MAX_WIDTH - c,
        {
            proof {
                lemma_cell_index(dst as int, c as int);
                lemma_cell_index(src as int, c as int);
            }
            let t = self.tiles[src * MAX_WIDTH + c];
            assert(t == self.at(src as int, c as int));
            assert(t == s0.at(src as int, c as int));
            let ghost before = *self;
            self.tiles[dst * MAX_WIDTH + c] = t;
            proof {
                assert forall|r: int, cc: int| 0 <= r < MAX_HEIGHT && 0 <= cc < MAX_WIDTH && (r != dst || cc != c) implies #[trigger] self.at(r, cc) == before.at(r, cc) by {
                    lemma_cell_index(r, cc);
                    if r * MAX_WIDTH + cc == dst * MAX_WIDTH + c {
                        lemma_cell_index_unique(r, cc, dst as int, c as int);
                    }
                }
            }
            c += 1;
        }
    }

    /// Sets every tile of row `dst` to `t`.
    fn fill_row(&mut self, dst: usize, t: Tile)
        requires
            dst < MAX_HEIGHT,
        ensures
            final(self).width == old(self).width,
            final(self).height == old(self).height,
            forall|r: int, c: int|
                0 <= r < MAX_HEIGHT && 0 <= c < MAX_WIDTH ==> #[trigger] final(self).at(r, c) == if r == dst {
                    t
                } else {
                    old(self).at(r, c)
                },
    {
        let ghost s0 = *self;
        let mut c: usize = 0;
        while c < MAX_WIDTH
            invariant
                dst < MAX_HEIGHT,
                0 <= c <= MAX_WIDTH,
                self.width == s0.width,
                self.height == s0.height,
                forall|r: int, cc: int|
                    0 <= r < MAX_HEIGHT && 0 <= cc < MAX_WIDTH ==> #[trigger] self.at(r, cc) == if r == dst && cc < c {
                        t
                    } else {
                        s0.at(r, cc)
                    },
            decreases MAX_WIDTH - c,
        {
            proof {
                lemma_cell_index(dst as int, c as int);
            }
            let ghost before = *self;
            self.tiles[dst * MAX_WIDTH + c] = t;
            proof {
                assert forall|r: int, cc: int| 0 <= r < MAX_HEIGHT && 0 <= cc < MAX_WIDTH && (r != dst || cc != c) implies #[trigger] self.at(r, cc) == before.at(r, cc) by {
                    lemma_cell_index(r, cc);
                    if r * MAX_WIDTH + cc == dst * MAX_WIDTH + c {
                        lemma_cell_index_unique(r, cc, dst as int, c as int);
                    }
                }
            }
            c += 1;
        }
    }

    /// Shades the background of the three top rows apart.
    fn fix_bg(&mut self)
        requires
            old(self).wf(),
        ensures
            final(self).wf(),
            final(self).width == old(self).width,
            final(self).height == old(self).height,
            forall|r: int, c: int|
                0 <= r < MAX_HEIGHT && 0 <= c < MAX_WIDTH ==> #[trigger] final(self).at(r, c) == refreshed(
                    old(self).height as int,
                    r,
                    old(self).at(r, c),
                ),
    {
        let h = self.height as usize;
        self.refresh_row(h - 1, Tile(0b11_010_000));
        self.refresh_row(h - 2, Tile(0b11_001_000));
        self.refresh_row(h - 3, Tile(0b11_000_000));
    }

    /// Replaces each background tile of row `dst` by `t`.
    fn refresh_row(&mut self, dst: usize, t: Tile)
        requires
            dst < MAX_HEIGHT,
        ensures
            final(self).width == old(self).width,
            final(self).height == old(self).height,
            forall|r: int, c: int|
                0 <= r < MAX_HEIGHT && 0 <= c < MAX_WIDTH ==> #[trigger] final(self).at(r, c) == if r == dst
                    && old(self).at(r, c).0 >> 6u8 == 3 {
                    t
                } else {
                    old(self).at(r, c)
                },
    {
        let ghost s0 = *self;
        let mut c: usize = 0;
        while c < MAX_WIDTH
            invariant
                dst < MAX_HEIGHT,
                0 <= c <= MAX_WIDTH,
                self.width == s0.width,
                self.height == s0.height,
                forall|r: int, cc: int|
                    0 <= r < MAX_HEIGHT && 0 <= cc < MAX_WIDTH ==> #[trigger] self.at(r, cc) == if r == dst && cc < c
                        && s0.at(r, cc).0 >> 6u8 == 3 {
                        t
                    } else {
                        s0.at(r, cc)
                    },
            decreases MAX_WIDTH - c,
        {
            proof {
                lemma_cell_index(dst as int, c as int);
            }
            let i = dst * MAX_WIDTH + c;
            assert(self.tiles[i as int] == self.at(dst as int, c as int));
            assert(self.tiles[i as int] == s0.at(dst as int, c as int));
            if self.tiles[i].tile_ty() == TileTy::Background {
                let ghost before = *self;
                self.tiles[i] = t;
                proof {
                    assert forall|r: int, cc: int| 0 <= r < MAX_HEIGHT && 0 <= cc < MAX_WIDTH && (r != dst || cc != c) implies #[trigger] self.at(r, cc) == before.at(r, cc) by {
                        lemma_cell_index(r, cc);
                        if r * MAX_WIDTH + cc == dst * MAX_WIDTH + c {
                            lemma_cell_index_unique(r, cc, dst as int, c as int);
                        }
                    }
                }
            }
            c += 1;
        }
    }
}

} // verus!
