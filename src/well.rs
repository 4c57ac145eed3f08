//! The playing field: one bit mask per row, bottom row first.

use vstd::prelude::*;
use vstd::string::StringExecFns;
use crate::piece::{Sprite, nib};
use crate::pt::{Point, can_add, shifted};

verus! {

/// Row in the well: one bit per column, column 0 in the highest bit.
pub type Line = u16;

/// Number of bits in a `Line`.
pub const SIZE_OF_WIDTH: usize = 16;

/// Maximum well height.
///
/// The well keeps its field in a fixed size array, which makes it cheap to copy.
pub const MAX_HEIGHT: usize = 23;

/// Maximum well width.
///
/// The four low bits of a line stay free, so that a sprite sticking out of
/// either wall can be rendered into a line and detected.
pub const MAX_WIDTH: usize = 12;

/// Bit of column `col` in a line.
pub open spec fn col_bit(col: int) -> u16 {
    0x8000u16 >> (col as u16)
}

/// Line with the `width` leftmost columns set.
pub open spec fn mask_of(width: int) -> u16 {
    !(((1u16 << ((16 - width) as u16)) - 1) as u16)
}

/// Rotation of a 16 bit line to the right by `k` bits, `k < 16`.
pub open spec fn rotr(v: u16, k: u16) -> u16 {
    if k == 0 {
        v
    } else {
        ((v >> k) | (v << ((16 - k) as u16))) as u16
    }
}

/// A sprite row rendered into a line at column offset `x`.
pub open spec fn render_row(pix: u8, x: int) -> u16 {
    rotr(pix as u16, ((x + 4) % 16) as u16)
}

/// Playing field.
///
/// `field[i]` is row `i` counted from the floor; only the first `height` rows
/// and the `width` leftmost columns are used.
#[derive(Copy, Clone, Debug, PartialEq, Eq)]
pub struct Well {
    pub width: i8,
    pub height: i8,
    pub field: [Line; MAX_HEIGHT],
}

impl Well {
    /// Dimensions in range, no block outside the columns, unused rows empty.
    pub open spec fn wf(self) -> bool {
        &&& 4 <= self.width <= MAX_WIDTH
        &&& 4 <= self.height <= MAX_HEIGHT
        &&& forall|i: int| 0 <= i < MAX_HEIGHT ==> #[trigger] self.field[i] & !self.mask() == 0
        &&& forall|i: int| self.height <= i < MAX_HEIGHT ==> #[trigger] self.field[i] == 0
    }

    /// A line with all columns set.
    pub open spec fn mask(self) -> u16 {
        mask_of(self.width as int)
    }

    /// The cell at `row` (from the floor) and `col` (from the left wall) holds a block.
    pub open spec fn cell(self, row: int, col: int) -> bool {
        &&& 0 <= row < self.height
        &&& 0 <= col < self.width
        &&& self.field[row] & col_bit(col) != 0
    }

    /// A block may not go to this cell: it is beyond a wall, below the floor, or taken.
    pub open spec fn blocked(self, row: int, col: int) -> bool {
        col < 0 || col >= self.width || row < 0 || self.cell(row, col)
    }

    /// The sprite with its top-left corner at `p` is out of bounds or overlaps a block.
    ///
    /// A sprite whose box lies wholly above the field (`p.y >= height + 4`) never collides.
    pub open spec fn collides(self, s: Sprite, p: Point) -> bool {
        p.x <= -4 || p.x >= self.width || p.y < 0 || (p.y < self.height + 4 && exists|r: int, c: int|
            #[trigger] s.has(r, c) && self.blocked(p.y - r, p.x + c))
    }

    /// Every block of the sprite that lands on a row of the field lies between the walls.
    pub open spec fn fits_walls(self, s: Sprite, p: Point) -> bool {
        forall|r: int, c: int|
            #![trigger s.has(r, c)]
            s.has(r, c) && 0 <= p.y - r < self.height ==> 0 <= p.x + c < self.width
    }

    /// Row `i` of the field after etching the sprite at `p`.
    pub open spec fn etched_row(self, s: Sprite, p: Point, i: int) -> u16 {
        if 0 <= i < self.height && 0 <= p.y - i < 4 {
            self.field[i] | render_row(s.pix[p.y - i], p.x as int)
        } else {
            self.field[i]
        }
    }

    /// `self` is `old` with the sprite etched at `p`.
    pub open spec fn is_etch_of(self, old: Well, s: Sprite, p: Point) -> bool {
        &&& self.width == old.width
        &&& self.height == old.height
        &&& forall|i: int| 0 <= i < MAX_HEIGHT ==> #[trigger] self.field[i] == old.etched_row(s, p, i)
    }

    /// The sprite fits at `p` shifted by the kick `d`: the point has
    /// coordinates in range and the sprite does not collide there.
    pub open spec fn kick_fits(self, s: Sprite, p: Point, d: Point) -> bool {
        can_add(p, d) && !self.collides(s, shifted(p, d))
    }

    /// `q` is where the sprite comes to rest when dropped straight down from `p`:
    /// every step from `p` down to `q` is free and the step below `q` collides,
    /// as it does below the floor, from row zero down.
    pub open spec fn rests_at(self, s: Sprite, p: Point, q: Point) -> bool {
        &&& q.x == p.x
        &&& q.y <= p.y
        &&& q.y <= 0 || self.collides(s, Point { x: q.x, y: (q.y - 1) as i8 })
        &&& forall|y: int| q.y <= y < p.y ==> !#[trigger] self.collides(s, Point { x: p.x, y: y as i8 })
    }
}

/// Facts about one rendered sprite row, at the bit level: which sprite columns
/// fall beyond the walls, which hit blocks of a line, and whether it is empty.
proof fn lemma_render_bits(p: u8, k: u16, w: u16, f: u16)
    requires
        p < 16,
        1 <= k <= 15,
        4 <= w <= 12,
    ensures
        (rotr(p as u16, k) & !mask_of(w as int) != 0) == ((p & 8 != 0 && !(4 <= k && k < w + 4)) || (p
            & 4 != 0 && !(4 <= k + 1 && k + 1 < w + 4)) || (p & 2 != 0 && !(4 <= k + 2 && k + 2 < w
            + 4)) || (p & 1 != 0 && !(4 <= k + 3 && k + 3 < w + 4))),
        f & !mask_of(w as int) == 0 ==> ((rotr(p as u16, k) & f != 0) == ((p & 8 != 0 && 4 <= k
            && k < w + 4 && f & (0x8000u16 >> ((k - 4) as u16)) != 0) || (p & 4 != 0 && 4 <= k + 1
            && k + 1 < w + 4 && f & (0x8000u16 >> ((k - 3) as u16)) != 0) || (p & 2 != 0 && 4 <= k
            + 2 && k + 2 < w + 4 && f & (0x8000u16 >> ((k - 2) as u16)) != 0) || (p & 1 != 0 && 4
            <= k + 3 && k + 3 < w + 4 && f & (0x8000u16 >> ((k - 1) as u16)) != 0))),
        (rotr(p as u16, k) != 0) == (p != 0),
{
    assert(p < 16 && 1 <= k <= 15 && 4 <= w <= 12 ==> ((((p as u16) >> k) | ((p as u16) << ((16
        - k) as u16))) as u16 & !(!(((1u16 << ((16 - w) as u16)) - 1) as u16)) != 0) == ((p & 8
        != 0 && !(4 <= k && k < w + 4)) || (p & 4 != 0 && !(4 <= k + 1 && k + 1 < w + 4)) || (p & 2
        != 0 && !(4 <= k + 2 && k + 2 < w + 4)) || (p & 1 != 0 && !(4 <= k + 3 && k + 3 < w + 4))))
        by (bit_vector);
    assert(p < 16 && 1 <= k <= 15 && 4 <= w <= 12 && f & !(!(((1u16 << ((16 - w) as u16)) - 1) as u16)) == 0
        ==> ((((p as u16) >> k) | ((p as u16) << ((16 - k) as u16))) as u16 & f != 0) == ((p & 8
        != 0 && 4 <= k && k < w + 4 && f & (0x8000u16 >> ((k - 4) as u16)) != 0) || (p & 4 != 0
        && 4 <= k + 1 && k + 1 < w + 4 && f & (0x8000u16 >> ((k - 3) as u16)) != 0) || (p & 2 != 0
        && 4 <= k + 2 && k + 2 < w + 4 && f & (0x8000u16 >> ((k - 2) as u16)) != 0) || (p & 1 != 0
        && 4 <= k + 3 && k + 3 < w + 4 && f & (0x8000u16 >> ((k - 1) as u16)) != 0))) by (bit_vector);
    assert(p < 16 && 1 <= k <= 15 ==> (((((p as u16) >> k) | ((p as u16) << ((16 - k) as u16))) as u16
        != 0) == (p != 0))) by (bit_vector);
}

impl Well {
    /// Some block of sprite row `r` may not go where it lands with the box at `p`.
    pub open spec fn row_hit(self, s: Sprite, p: Point, r: int) -> bool {
        exists|c: int| #[trigger] s.has(r, c) && self.blocked(p.y - r, p.x + c)
    }

    /// What the bit masks say of sprite row `r` at `p`.
    pub open spec fn row_test(self, s: Sprite, p: Point, r: int) -> bool {
        let part = render_row(s.pix[r], p.x as int);
        let row = p.y - r;
        (part & !self.mask() != 0) || (row < 0 && part != 0) || (0 <= row < self.height && part
            & self.field[row] != 0)
    }

    proof fn lemma_row(self, s: Sprite, p: Point, r: int)
        requires
            self.wf(),
            s.wf(),
            -4 < p.x < self.width,
            0 <= r < 4,
        ensures
            self.row_test(s, p, r) == self.row_hit(s, p, r),
            (render_row(s.pix[r], p.x as int) != 0) == (exists|c: int| #[trigger] s.has(r, c)),
            (render_row(s.pix[r], p.x as int) & !self.mask() != 0) == (exists|c: int|
                #[trigger] s.has(r, c) && (p.x + c < 0 || p.x + c >= self.width)),
    {
        let v = s.pix[r];
        let k = (p.x + 4) as u16;
        assert(((p.x + 4) % 16) as u16 == k);
        let w = self.width as u16;
        let row = p.y - r;
        let f: u16 = if 0 <= row < self.height { self.field[row] } else { 0 };
        assert(f & !mask_of(w as int) == 0) by {
            if !(0 <= row < self.height) {
                assert(0u16 & !mask_of(w as int) == 0) by (bit_vector);
            }
        }
        lemma_render_bits(v, k, w, f);
        let part = render_row(s.pix[r], p.x as int);
        assert(part == rotr(v as u16, k));
        assert(self.mask() == mask_of(w as int));
        assert(0 <= row < self.height ==> part & self.field[row] == part & f);
        assert(v < 16);
        assert(v < 16 ==> ((v != 0) == (v & 8 != 0 || v & 4 != 0 || v & 2 != 0 || v & 1 != 0)))
            by (bit_vector);
        assert(k as int == p.x + 4);
        assert forall|c: int| #[trigger] s.has(r, c) implies self.blocked(row, p.x + c) == ((p.x + c
            < 0 || p.x + c >= self.width) || row < 0 || (0 <= row < self.height && f & col_bit(p.x
            + c) != 0)) by {}
        assert(s.has(r, 0) == (v & 8 != 0));
        assert(s.has(r, 1) == (v & 4 != 0));
        assert(s.has(r, 2) == (v & 2 != 0));
        assert(s.has(r, 3) == (v & 1 != 0));
        assert(col_bit(p.x + 0) == 0x8000u16 >> ((k - 4) as u16));
        assert(col_bit(p.x + 1) == 0x8000u16 >> ((k - 3) as u16));
        assert(col_bit(p.x + 2) == 0x8000u16 >> ((k - 2) as u16));
        assert(col_bit(p.x + 3) == 0x8000u16 >> ((k - 1) as u16));
        let d = s.has(r, 0) && self.blocked(row, p.x + 0) || s.has(r, 1) && self.blocked(row, p.x + 1)
            || s.has(r, 2) && self.blocked(row, p.x + 2) || s.has(r, 3) && self.blocked(row, p.x + 3);
        assert(self.row_hit(s, p, r) ==> d) by {
            if self.row_hit(s, p, r) {
                let c = choose|c: int| #[trigger] s.has(r, c) && self.blocked(p.y - r, p.x + c);
                assert(c == 0 || c == 1 || c == 2 || c == 3);
            }
        }
        assert(d ==> self.row_hit(s, p, r));
        assert(self.row_test(s, p, r) == d);
        let e = s.has(r, 0) || s.has(r, 1) || s.has(r, 2) || s.has(r, 3);
        assert((exists|c: int| #[trigger] s.has(r, c)) ==> e) by {
            if exists|c: int| #[trigger] s.has(r, c) {
                let c = choose|c: int| #[trigger] s.has(r, c);
                assert(c == 0 || c == 1 || c == 2 || c == 3);
            }
        }
        assert(e ==> exists|c: int| #[trigger] s.has(r, c));
        assert((v != 0) == e);
        let g = s.has(r, 0) && (p.x + 0 < 0 || p.x + 0 >= self.width) || s.has(r, 1) && (p.x + 1 < 0
            || p.x + 1 >= self.width) || s.has(r, 2) && (p.x + 2 < 0 || p.x + 2 >= self.width) || s.has(
            r, 3) && (p.x + 3 < 0 || p.x + 3 >= self.width);
        assert((exists|c: int| #[trigger] s.has(r, c) && (p.x + c < 0 || p.x + c >= self.width)) ==> g)
            by {
            if exists|c: int| #[trigger] s.has(r, c) && (p.x + c < 0 || p.x + c >= self.width) {
                let c = choose|c: int| #[trigger] s.has(r, c) && (p.x + c < 0 || p.x + c >= self.width);
                assert(c == 0 || c == 1 || c == 2 || c == 3);
            }
        }
        assert((part & !self.mask() != 0) == g);
    }
}

/// Rotates a line right by `k` bits.
fn rotate_right(v: u16, k: u16) -> (r: u16)
    requires
        k < 16,
    ensures
        r == rotr(v, k),
{
    if k == 0 {
        v
    } else {
        (v >> k) | (v << (16 - k))
    }
}

impl Well {
    /// Creates an empty well with the given dimensions.
    ///
    /// The width must be in `[4, 12]` and the height in `[4, 23]`.
    pub fn new(width: i8, height: i8) -> (r: Well)
        requires
            4 <= width <= MAX_WIDTH,
            4 <= height <= MAX_HEIGHT,
        ensures
            r.wf(),
            r.width == width,
            r.height == height,
            forall|i: int| 0 <= i < MAX_HEIGHT ==> #[trigger] r.field[i] == 0,
    {
        let r = Well { width, height, field: [0; MAX_HEIGHT] };
        assert forall|i: int| 0 <= i < MAX_HEIGHT implies #[trigger] r.field[i] & !r.mask() == 0 by {
            let m = r.mask();
            assert(0u16 & !m == 0) by (bit_vector);
        }
        r
    }

    /// Creates a new well of the given width from rows listed top row first.
    ///
    /// Internally the rows are stored bottom row first; the `width` low bits of
    /// each given row are its columns, the leftmost column in the highest of them.
    pub fn from_data(width: i8, lines: &[Line]) -> (r: Well)
        requires
            4 <= width <= MAX_WIDTH,
            4 <= lines@.len() <= MAX_HEIGHT,
        ensures
            r.wf(),
            r.width == width,
            r.height == lines@.len(),
            forall|i: int|
                0 <= i < lines@.len() ==> #[trigger] r.field[i] == (lines@[lines@.len() - 1 - i] << ((
                16 - width) as u16)) as u16,
    {
        let n = lines.len();
        let mut well = Well::new(width, n as i8);
        let shift: u16 = (16 - width) as u16;
        let mut i: usize = 0;
        while i < n
            invariant
                0 <= i <= n,
                n == lines@.len(),
                4 <= n <= MAX_HEIGHT,
                shift == 16 - width,
                well.wf(),
                well.width == width,
                well.height == n,
                forall|j: int|
                    0 <= j < i ==> #[trigger] well.field[j] == (lines@[n - 1 - j] << shift) as u16,
            decreases n - i,
        {
            let l = lines[n - 1 - i];
            let line = l << shift;
            assert(4 <= shift <= 12 ==> ((l << shift) as u16) & !(!(((1u16 << shift)
                - 1) as u16)) == 0) by (bit_vector);
            well.field[i] = line;
            i += 1;
        }
        well
    }

    /// Returns the width of the well.
    pub fn width(&self) -> (r: i8)
        ensures
            r == self.width,
    {
        self.width
    }

    /// Returns the height of the well.
    pub fn height(&self) -> (r: i8)
        ensures
            r == self.height,
    {
        self.height
    }

    /// Returns the rows of the field, the bottom row first.
    pub fn lines(&self) -> (r: &[Line])
        requires
            self.wf(),
        ensures
            r@ == self.field@.subrange(0, self.height as int),
    {
        let h = self.height as usize;
        &self.field[0..h]
    }

    /// Gets a line with all columns set.
    pub fn line_mask(&self) -> (r: Line)
        requires
            self.wf(),
        ensures
            r == self.mask(),
    {
        let shift: u16 = (16 - self.width) as u16;
        assert(4 <= shift <= 12 ==> 1u16 << shift >= 1) by (bit_vector);
        !((1u16 << shift) - 1)
    }

    /// Gets a line.
    pub fn line(&self, row: i8) -> (r: Line)
        requires
            0 <= row < MAX_HEIGHT,
        ensures
            r == self.field[row as int],
    {
        self.field[row as usize]
    }

    /// Tests if any block is set on this line.
    pub fn test_line(&self, row: i8) -> (r: bool)
        requires
            0 <= row < MAX_HEIGHT,
        ensures
            r == (self.field[row as int] != 0),
    {
        self.field[row as usize] != 0
    }

    /// Renders the rows of a sprite into lines at column offset `x`.
    pub fn render(sprite: &Sprite, x: i8) -> (r: [Line; 4])
        ensures
            forall|i: int| 0 <= i < 4 ==> #[trigger] r[i] == render_row(sprite.pix[i], x as int),
    {
        let k: u16 = ((x as i16 + 132) as u16) % 16;
        assert(k == ((x + 4) % 16) as u16);
        [
            rotate_right(sprite.pix[0] as u16, k),
            rotate_right(sprite.pix[1] as u16, k),
            rotate_right(sprite.pix[2] as u16, k),
            rotate_right(sprite.pix[3] as u16, k),
        ]
    }

    /// Tests if the sprite with its top-left corner at `pt` collides with the well.
    pub fn test(&self, sprite: &Sprite, pt: Point) -> (r: bool)
        requires
            self.wf(),
            sprite.wf(),
        ensures
            r == self.collides(*sprite, pt),
    {
        // Early reject out of bounds
        if pt.x <= -4 || pt.x >= self.width || pt.y < 0 {
            return true;
        }
        if pt.y >= self.height + 4 {
            return false;
        }
        let rendered = Self::render(sprite, pt.x);
        let line_mask = self.line_mask();
        let mut y: i8 = 0;
        while y < 4
            invariant
                0 <= y <= 4,
                self.wf(),
                sprite.wf(),
                -4 < pt.x < self.width,
                0 <= pt.y < self.height + 4,
                line_mask == self.mask(),
                forall|i: int| 0 <= i < 4 ==> #[trigger] rendered[i] == render_row(sprite.pix[i], pt.x as int),
                forall|r: int| 0 <= r < y ==> !#[trigger] self.row_hit(*sprite, pt, r),
            decreases 4 - y,
        {
            proof {
                self.lemma_row(*sprite, pt, y as int);
            }
            let part = rendered[y as usize];
            // A part sticking out of a wall
            if part & !line_mask != 0 {
                return true;
            }
            let row = pt.y - y;
            if row < 0 {
                // Below the floor
                if part != 0 {
                    return true;
                }
            } else if row < self.height {
                // Overlapping a block of the field
                if part & self.field[row as usize] != 0 {
                    return true;
                }
            }
            y += 1;
        }
        proof {
            if exists|r: int, c: int| #[trigger] sprite.has(r, c) && self.blocked(pt.y - r, pt.x + c) {
                let (r, c) = choose|r: int, c: int|
                    #[trigger] sprite.has(r, c) && self.blocked(pt.y - r, pt.x + c);
                assert(self.row_hit(*sprite, pt, r));
            }
        }
        false
    }

    /// Tests a list of kicks and returns the first point, `pt` shifted by a kick,
    /// where the sprite fits: the point's coordinates are in range and the
    /// sprite does not collide there.
    ///
    /// Results in `None` if the sprite fits at no kick.
    pub fn wall_kick(&self, sprite: &Sprite, kicks: &[Point], pt: Point) -> (r: Option<Point>)
        requires
            self.wf(),
            sprite.wf(),
        ensures
            match r {
                Some(q) => exists|i: int|
                    0 <= i < kicks@.len() && q == shifted(pt, #[trigger] kicks@[i]) && self.kick_fits(*sprite, pt, kicks@[i])
                        && forall|j: int| 0 <= j < i ==> !self.kick_fits(*sprite, pt, #[trigger] kicks@[j]),
                None => forall|i: int| 0 <= i < kicks@.len() ==> !self.kick_fits(*sprite, pt, #[trigger] kicks@[i]),
            },
    {
        let mut i: usize = 0;
        while i < kicks.len()
            invariant
                0 <= i <= kicks@.len(),
                self.wf(),
                sprite.wf(),
                forall|j: int| 0 <= j < i ==> !self.kick_fits(*sprite, pt, #[trigger] kicks@[j]),
            decreases kicks@.len() - i,
        {
            let k = kicks[i];
            let x: i16 = pt.x as i16 + k.x as i16;
            let y: i16 = pt.y as i16 + k.y as i16;
            // A point beyond the range of coordinates does not fit.
            if -128 <= x && x <= 127 && -128 <= y && y <= 127 {
                let next = pt.add(k);
                if !self.test(sprite, next) {
                    return Some(next);
                }
            }
            i += 1;
        }
        None
    }

    /// Traces the sprite down from `pt` and returns the lowest point reached
    /// before it would collide with the well.
    pub fn trace_down(&self, sprite: &Sprite, pt: Point) -> (r: Point)
        requires
            self.wf(),
            sprite.wf(),
        ensures
            self.rests_at(*sprite, pt, r),
    {
        if pt.y <= 0 {
            // Every step below row zero collides.
            return pt;
        }
        let mut p = pt;
        loop
            invariant
                self.wf(),
                sprite.wf(),
                p.x == pt.x,
                0 < p.y <= pt.y,
                forall|y: int| p.y <= y < pt.y ==> !#[trigger] self.collides(*sprite, Point { x: pt.x, y: y as i8 }),
            decreases p.y + 128,
        {
            let next = Point::new(p.x, p.y - 1);
            if self.test(sprite, next) {
                return p;
            }
            if next.y == 0 {
                return next;
            }
            p = next;
        }
    }

    /// Etches the sprite with its top-left corner at `pt` into the well.
    ///
    /// Rows of the sprite outside the field are clipped. The caller checks the
    /// placement first: blocks may overlap, but none may stand beyond a wall.
    pub fn etch(&mut self, sprite: &Sprite, pt: Point)
        requires
            old(self).wf(),
            sprite.wf(),
            old(self).fits_walls(*sprite, pt),
        ensures
            final(self).wf(),
            final(self).is_etch_of(*old(self), *sprite, pt),
    {
        let rendered = Self::render(sprite, pt.x);
        let ghost w0 = *self;
        let mut y: i8 = 0;
        while y < 4
            invariant
                0 <= y <= 4,
                sprite.wf(),
                w0.wf(),
                w0.fits_walls(*sprite, pt),
                self.wf(),
                self.width == w0.width,
                self.height == w0.height,
                forall|i: int| 0 <= i < 4 ==> #[trigger] rendered[i] == render_row(sprite.pix[i], pt.x as int),
                forall|i: int|
                    0 <= i < MAX_HEIGHT ==> #[trigger] self.field[i] == (if 0 <= i < w0.height && 0
                        <= pt.y - i < y {
                        w0.field[i] | render_row(sprite.pix[pt.y - i], pt.x as int)
                    } else {
                        w0.field[i]
                    }),
            decreases 4 - y,
        {
            let row: i16 = pt.y as i16 - y as i16;
            if row >= 0 && row < self.height as i16 {
                let part = rendered[y as usize];
                let ghost m = self.mask();
                proof {
                    let v = sprite.pix[y as int];
                    if v == 0 {
                        let k = ((pt.x + 4) % 16) as u16;
                        assert(rotr(0u16, k) & !m == 0) by (bit_vector);
                    } else {
                        assert(v < 16 && v != 0 ==> (v & 8 != 0 || v & 4 != 0 || v & 2 != 0 || v & 1 != 0))
                            by (bit_vector);
                        assert(sprite.has(y as int, 0) || sprite.has(y as int, 1) || sprite.has(y as int, 2)
                            || sprite.has(y as int, 3));
                        assert(-4 < pt.x < self.width);
                        w0.lemma_row(*sprite, pt, y as int);
                    }
                    let f = self.field[row as int];
                    assert(f & !m == 0 && part & !m == 0 ==> (f | part) & !m == 0) by (bit_vector);
                }
                self.field[row as usize] = self.field[row as usize] | part;
            }
            y += 1;
        }
    }

    /// Sets a line.
    ///
    /// Returns the erased line.
    pub fn set_line(&mut self, row: i8, line: Line) -> (r: Line)
        requires
            old(self).wf(),
            0 <= row < old(self).height,
            line & !old(self).mask() == 0,
        ensures
            final(self).wf(),
            r == old(self).field[row as int],
            final(self).width == old(self).width,
            final(self).height == old(self).height,
            final(self).field@ == old(self).field@.update(row as int, line),
    {
        let old_line = self.field[row as usize];
        self.field[row as usize] = line;
        old_line
    }

    /// Removes a line.
    ///
    /// The lines above it are shifted down and an empty line comes in at the top.
    /// Returns the removed line.
    pub fn remove_line(&mut self, row: i8) -> (r: Line)
        requires
            old(self).wf(),
            0 <= row < old(self).height,
        ensures
            final(self).wf(),
            r == old(self).field[row as int],
            final(self).width == old(self).width,
            final(self).height == old(self).height,
            final(self).field@ == old(self).field@.remove(row as int).push(0),
    {
        let ghost w0 = *self;
        let line = self.field[row as usize];
        let mut field = self.field;
        let mut i: usize = row as usize;
        while i < MAX_HEIGHT - 1
            invariant
                0 <= row <= i <= MAX_HEIGHT - 1,
                forall|j: int| 0 <= j < row ==> #[trigger] field@[j] == w0.field@[j],
                forall|j: int| row <= j < i ==> #[trigger] field@[j] == w0.field@[j + 1],
                forall|j: int| i <= j < MAX_HEIGHT ==> #[trigger] field@[j] == w0.field@[j],
            decreases MAX_HEIGHT - i,
        {
            field[i] = field[i + 1];
            i += 1;
        }
        field[MAX_HEIGHT - 1] = 0;
        self.field = field;
        proof {
            let m = self.mask();
            assert(0u16 & !m == 0) by (bit_vector);
            assert(self.field@ =~= w0.field@.remove(row as int).push(0));
        }
        line
    }

    /// Inserts a line at `row`.
    ///
    /// The lines from `row` up are shifted up and the top line that got bumped
    /// out is returned.
    pub fn insert_line(&mut self, row: i8, line: Line) -> (r: Line)
        requires
            old(self).wf(),
            0 <= row < old(self).height,
            line & !old(self).mask() == 0,
        ensures
            final(self).wf(),
            r == old(self).field[old(self).height - 1],
            final(self).width == old(self).width,
            final(self).height == old(self).height,
            final(self).field@ == old(self).field@.subrange(0, row as int).push(line) + old(
                self,
            ).field@.subrange(row as int, old(self).height - 1) + old(self).field@.subrange(
                old(self).height as int,
                MAX_HEIGHT as int,
            ),
    {
        let ghost w0 = *self;
        let h = self.height as usize;
        let bumped = self.field[h - 1];
        let mut i: usize = h - 1;
        while i > row as usize
            invariant
                row <= i <= h - 1,
                h == w0.height,
                h <= MAX_HEIGHT,
                self.width == w0.width,
                self.height == w0.height,
                forall|j: int| 0 <= j <= i ==> #[trigger] self.field[j] == w0.field[j],
                forall|j: int| i < j < h ==> #[trigger] self.field[j] == w0.field[j - 1],
                forall|j: int| h <= j < MAX_HEIGHT ==> #[trigger] self.field[j] == w0.field[j],
            decreases i,
        {
            self.field[i] = self.field[i - 1];
            i -= 1;
        }
        self.field[row as usize] = line;
        proof {
            assert(self.field@ =~= w0.field@.subrange(0, row as int).push(line) + w0.field@.subrange(
                row as int,
                h - 1,
            ) + w0.field@.subrange(h as int, MAX_HEIGHT as int));
        }
        bumped
    }
}

/// Etching a sprite where it does not collide makes that same placement
/// collide, as long as some block of the sprite lands on a row of the field.
pub proof fn lemma_etch_then_collides(w: Well, s: Sprite, p: Point, w2: Well)
    requires
        w.wf(),
        w2.wf(),
        s.wf(),
        !w.collides(s, p),
        w2.is_etch_of(w, s, p),
        exists|r: int, c: int| #[trigger] s.has(r, c) && 0 <= p.y - r < w.height,
    ensures
        w2.collides(s, p),
{
    let (r, c) = choose|r: int, c: int| #[trigger] s.has(r, c) && 0 <= p.y - r < w.height;
    let row = p.y - r;
    w.lemma_row(s, p, r);
    w2.lemma_row(s, p, r);
    let part = render_row(s.pix[r], p.x as int);
    let f = w.field[row];
    assert(w2.field[row] == f | part);
    assert(part != 0 ==> part & (f | part) != 0) by (bit_vector);
    assert(w2.row_test(s, p, r));
    let c2 = choose|c2: int| #[trigger] s.has(r, c2) && w2.blocked(p.y - r, p.x + c2);
    assert(s.has(r, c2) && w2.blocked(p.y - r, p.x + c2));
}

/// Tracing down from a resting point stays there: if `q` is where the sprite
/// rests when dropped from `p`, and `q2` where it rests when dropped from `q`,
/// then `q2 == q`.
pub proof fn lemma_trace_down_idempotent(w: Well, s: Sprite, p: Point, q: Point, q2: Point)
    requires
        w.rests_at(s, p, q),
        w.rests_at(s, q, q2),
    ensures
        q2 == q,
{
    if q2.y < q.y {
        let y = q.y - 1;
        assert(!w.collides(s, Point { x: q.x, y: y as i8 }));
    }
}

/// A row of the field is full, every column holding a block, exactly when it
/// equals the line mask.
pub proof fn lemma_full_row(w: Well, row: int)
    requires
        w.wf(),
        0 <= row < w.height,
    ensures
        (forall|c: int| 0 <= c < w.width ==> #[trigger] w.cell(row, c)) == (w.field[row] == w.mask()),
{
    let f = w.field[row];
    let wd = w.width as u16;
    assert(f & !w.mask() == 0);
    assert(4 <= wd <= 12 && f & !mask_of(wd as int) == 0 ==> ((f == mask_of(wd as int)) == ((0 < wd ==> f
        & (0x8000u16 >> 0u16) != 0) && (1 < wd ==> f & (0x8000u16 >> 1u16) != 0) && (2 < wd ==> f & (
        0x8000u16 >> 2u16) != 0) && (3 < wd ==> f & (0x8000u16 >> 3u16) != 0) && (4 < wd ==> f & (
        0x8000u16 >> 4u16) != 0) && (5 < wd ==> f & (0x8000u16 >> 5u16) != 0) && (6 < wd ==> f & (
        0x8000u16 >> 6u16) != 0) && (7 < wd ==> f & (0x8000u16 >> 7u16) != 0) && (8 < wd ==> f & (
        0x8000u16 >> 8u16) != 0) && (9 < wd ==> f & (0x8000u16 >> 9u16) != 0) && (10 < wd ==> f & (
        0x8000u16 >> 10u16) != 0) && (11 < wd ==> f & (0x8000u16 >> 11u16) != 0)))) by (bit_vector);
    if forall|c: int| 0 <= c < w.width ==> #[trigger] w.cell(row, c) {
        assert(w.cell(row, 0) && w.cell(row, 1) && w.cell(row, 2) && w.cell(row, 3));
        assert(4 < wd ==> w.cell(row, 4));
        assert(5 < wd ==> w.cell(row, 5));
        assert(6 < wd ==> w.cell(row, 6));
        assert(7 < wd ==> w.cell(row, 7));
        assert(8 < wd ==> w.cell(row, 8));
        assert(9 < wd ==> w.cell(row, 9));
        assert(10 < wd ==> w.cell(row, 10));
        assert(11 < wd ==> w.cell(row, 11));
    }
    if f == w.mask() {
        assert forall|c: int| 0 <= c < w.width implies #[trigger] w.cell(row, c) by {
            assert(c == 0 || c == 1 || c == 2 || c == 3 || c == 4 || c == 5 || c == 6 || c == 7 || c
                == 8 || c == 9 || c == 10 || c == 11);
        }
    }
}

/// Number of blocks among the first `n` columns of a line.
pub open spec fn row_blocks(f: u16, n: int) -> int
    decreases n,
{
    if n <= 0 {
        0
    } else {
        row_blocks(f, n - 1) + if f & col_bit(n - 1) != 0 {
            1int
        } else {
            0int
        }
    }
}

/// Line with the columns in `[lc, rc)` set.
pub open spec fn range_mask(lc: u16, rc: u16) -> u16 {
    ((((0x8000u16 >> lc) - (0x8000u16 >> rc)) as u16) << 1u16) as u16
}

/// `b` holds every block of `a`, row by row.
pub open spec fn gains(a: Well, b: Well) -> bool {
    forall|i: int| 0 <= i < MAX_HEIGHT ==> #[trigger] a.field[i] & !b.field[i] == 0
}

/// Cell `(r, c)` of the rows `f` holds a block.
pub open spec fn is_set(f: Seq<u16>, r: int, c: int) -> bool {
    f[r] & col_bit(c) != 0
}

/// Cell `(r, c)` lies in a field of `w` columns and `h` rows.
pub open spec fn in_field(w: int, h: int, r: int, c: int) -> bool {
    0 <= r < h && 0 <= c < w
}

/// Cells `(r1, c1)` and `(r, c)` share a side.
pub open spec fn adjacent(r1: int, c1: int, r: int, c: int) -> bool {
    (r1 == r && (c1 == c + 1 || c1 == c - 1)) || (c1 == c && (r1 == r + 1 || r1 == r - 1))
}

/// The empty cell `(r, c)` of the rows `f0` is reached from the empty cell
/// `(r0, c0)` in at most `n` steps between empty cells that share a side.
pub open spec fn linked(f0: Seq<u16>, w: int, h: int, r0: int, c0: int, r: int, c: int, n: nat) -> bool
    decreases n,
{
    in_field(w, h, r, c) && !is_set(f0, r, c) && ((r == r0 && c == c0) || (n > 0 && exists|r1: int, c1: int|
        linked(f0, w, h, r0, c0, r1, c1, (n - 1) as nat) && #[trigger] adjacent(r1, c1, r, c)))
}

/// The empty cell `(r, c)` is connected to the empty cell `(r0, c0)` through
/// empty cells that share a side.
pub open spec fn reachable_cell(f0: Seq<u16>, w: int, h: int, r0: int, c0: int, r: int, c: int) -> bool {
    exists|n: nat| #[trigger] linked(f0, w, h, r0, c0, r, c, n)
}

/// The rows `f` are the rows `f0` with exactly the empty cells connected to
/// `(r0, c0)` filled.
pub open spec fn fills(f0: Seq<u16>, f: Seq<u16>, w: int, h: int, r0: int, c0: int) -> bool {
    forall|r: int, c: int|
        in_field(w, h, r, c) ==> (#[trigger] is_set(f, r, c) == (is_set(f0, r, c) || reachable_cell(f0, w, h, r0, c0, r, c)))
}

/// The rows `f` hold every block of `f0`, and each other block is an empty
/// cell of `f0` connected to `(r0, c0)`.
pub open spec fn sound(f0: Seq<u16>, f: Seq<u16>, w: int, h: int, r0: int, c0: int) -> bool {
    &&& forall|r: int, c: int|
        in_field(w, h, r, c) && #[trigger] is_set(f, r, c) && !is_set(f0, r, c) ==> reachable_cell(f0, w, h, r0, c0, r, c)
    &&& forall|r: int, c: int| in_field(w, h, r, c) && #[trigger] is_set(f0, r, c) ==> is_set(f, r, c)
}

/// Every cell of the field that shares a side with `(r, c)` holds a block.
pub open spec fn closed_cell(f: Seq<u16>, w: int, h: int, r: int, c: int) -> bool {
    &&& c == 0 || is_set(f, r, c - 1)
    &&& c + 1 >= w || is_set(f, r, c + 1)
    &&& r == 0 || is_set(f, r - 1, c)
    &&& r + 1 >= h || is_set(f, r + 1, c)
}

/// Number of empty cells of the field.
pub open spec fn unset_cells(w: Well) -> int {
    w.width * w.height - rows_blocks(w.field@, w.width as int, w.height as int)
}

proof fn lemma_bit_mono(a: u16, b: u16, m: u16)
    requires
        a & !b == 0,
    ensures
        a & m != 0 ==> b & m != 0,
{
    assert(a & !b == 0 ==> (a & m != 0 ==> b & m != 0)) by (bit_vector);
}

proof fn lemma_range_mask(lc: u16, rc: u16, c: u16)
    requires
        lc <= rc <= 12,
        c < 16,
    ensures
        (range_mask(lc, rc) & (0x8000u16 >> c) != 0) == (lc <= c && c < rc),
{
    assert(lc <= rc <= 12 && c < 16 ==> ((range_mask(lc, rc) & (0x8000u16 >> c) != 0) == (lc <= c && c < rc)))
        by (bit_vector);
}

proof fn lemma_row_count_mono(a: u16, b: u16, n: int)
    requires
        a & !b == 0,
        0 <= n <= 16,
    ensures
        row_blocks(a, n) <= row_blocks(b, n),
        (exists|c: int| 0 <= c < n && a & #[trigger] col_bit(c) == 0 && b & col_bit(c) != 0) ==> row_blocks(a, n) < row_blocks(b, n),
    decreases n,
{
    if n > 0 {
        lemma_row_count_mono(a, b, n - 1);
        lemma_bit_mono(a, b, col_bit(n - 1));
        if exists|c: int| 0 <= c < n && a & #[trigger] col_bit(c) == 0 && b & col_bit(c) != 0 {
            let c = choose|c: int| 0 <= c < n && a & #[trigger] col_bit(c) == 0 && b & col_bit(c) != 0;
            if c < n - 1 {
                assert(exists|c: int| 0 <= c < n - 1 && a & #[trigger] col_bit(c) == 0 && b & col_bit(c) != 0);
            }
        }
    }
}

proof fn lemma_rows_count_mono(fa: Seq<u16>, fb: Seq<u16>, w: int, n: int)
    requires
        0 <= n <= fa.len(),
        n <= fb.len(),
        0 <= w <= 16,
        forall|i: int| 0 <= i < n ==> #[trigger] fa[i] & !fb[i] == 0,
    ensures
        rows_blocks(fa, w, n) <= rows_blocks(fb, w, n),
        (exists|r: int, c: int| in_field(w, n, r, c) && !is_set(fa, r, c) && #[trigger] is_set(fb, r, c)) ==> rows_blocks(fa, w, n)
            < rows_blocks(fb, w, n),
    decreases n,
{
    if n > 0 {
        lemma_rows_count_mono(fa, fb, w, n - 1);
        assert(fa[n - 1] & !fb[n - 1] == 0);
        lemma_row_count_mono(fa[n - 1], fb[n - 1], w);
        if exists|r: int, c: int| in_field(w, n, r, c) && !is_set(fa, r, c) && #[trigger] is_set(fb, r, c) {
            let (r, c) = choose|r: int, c: int| in_field(w, n, r, c) && !is_set(fa, r, c) && #[trigger] is_set(fb, r, c);
            if r < n - 1 {
                assert(in_field(w, n - 1, r, c) && !is_set(fa, r, c) && is_set(fb, r, c));
            } else {
                assert(fa[n - 1] & col_bit(c) == 0 && fb[n - 1] & col_bit(c) != 0);
            }
        }
    }
}

proof fn lemma_row_count_eq(a: u16, b: u16, n: int)
    requires
        forall|c: int| 0 <= c < n ==> (a & #[trigger] col_bit(c) != 0) == (b & col_bit(c) != 0),
    ensures
        row_blocks(a, n) == row_blocks(b, n),
    decreases n,
{
    if n > 0 {
        lemma_row_count_eq(a, b, n - 1);
    }
}

proof fn lemma_rows_count_eq(fa: Seq<u16>, fb: Seq<u16>, w: int, n: int)
    requires
        forall|r: int, c: int| in_field(w, n, r, c) ==> #[trigger] is_set(fa, r, c) == is_set(fb, r, c),
    ensures
        rows_blocks(fa, w, n) == rows_blocks(fb, w, n),
    decreases n,
{
    if n > 0 {
        lemma_rows_count_eq(fa, fb, w, n - 1);
        assert forall|c: int| 0 <= c < w implies (fa[n - 1] & #[trigger] col_bit(c) != 0) == (fb[n - 1] & col_bit(c) != 0) by {
            assert(is_set(fa, n - 1, c) == is_set(fb, n - 1, c));
        }
        lemma_row_count_eq(fa[n - 1], fb[n - 1], w);
    }
}

proof fn lemma_row_count_full(a: u16, n: int)
    requires
        0 <= n,
        forall|c: int| 0 <= c < n ==> a & #[trigger] col_bit(c) != 0,
    ensures
        row_blocks(a, n) == n,
    decreases n,
{
    if n > 0 {
        lemma_row_count_full(a, n - 1);
    }
}

proof fn lemma_rows_count_full(f: Seq<u16>, w: int, n: int)
    requires
        0 <= n,
        0 <= w,
        forall|r: int, c: int| in_field(w, n, r, c) ==> #[trigger] is_set(f, r, c),
    ensures
        rows_blocks(f, w, n) == n * w,
    decreases n,
{
    if n > 0 {
        lemma_rows_count_full(f, w, n - 1);
        assert forall|c: int| 0 <= c < w implies f[n - 1] & #[trigger] col_bit(c) != 0 by {
            assert(is_set(f, n - 1, c));
        }
        lemma_row_count_full(f[n - 1], w);
        assert((n - 1) * w + w == n * w) by (nonlinear_arith);
    } else {
        assert(0 * w == 0);
    }
}

/// An empty cell next to a connected cell is connected, one step further.
proof fn lemma_link_step(f0: Seq<u16>, w: int, h: int, r0: int, c0: int, r1: int, c1: int, m: nat, r: int, c: int)
    requires
        linked(f0, w, h, r0, c0, r1, c1, m),
        adjacent(r1, c1, r, c),
        in_field(w, h, r, c),
        !is_set(f0, r, c),
    ensures
        linked(f0, w, h, r0, c0, r, c, m + 1),
{
    assert(linked(f0, w, h, r0, c0, r1, c1, ((m + 1) - 1) as nat));
}

/// An empty cell next to a connected cell is connected.
proof fn lemma_reach_step(f0: Seq<u16>, w: int, h: int, r0: int, c0: int, r1: int, c1: int, r: int, c: int)
    requires
        reachable_cell(f0, w, h, r0, c0, r1, c1),
        adjacent(r1, c1, r, c),
        in_field(w, h, r, c),
        !is_set(f0, r, c),
    ensures
        reachable_cell(f0, w, h, r0, c0, r, c),
{
    let m = choose|m: nat| #[trigger] linked(f0, w, h, r0, c0, r1, c1, m);
    lemma_link_step(f0, w, h, r0, c0, r1, c1, m, r, c);
}

/// The cells of row `y` in columns `[lo, hi]` lie in the field and are empty.
pub open spec fn empty_stretch(f0: Seq<u16>, w: int, h: int, y: int, lo: int, hi: int) -> bool {
    forall|k: int| lo <= k <= hi ==> in_field(w, h, y, k) && !#[trigger] is_set(f0, y, k)
}

/// Every cell of a stretch of empty cells of one row is connected to the seed
/// when one of them is.
proof fn lemma_segment_reached(f0: Seq<u16>, w: int, h: int, r0: int, c0: int, y: int, lo: int, hi: int, xc: int, c: int)
    requires
        empty_stretch(f0, w, h, y, lo, hi),
        lo <= xc <= hi,
        lo <= c <= hi,
        reachable_cell(f0, w, h, r0, c0, y, xc),
    ensures
        reachable_cell(f0, w, h, r0, c0, y, c),
    decreases if c >= xc { c - xc } else { xc - c },
{
    if c < xc {
        lemma_segment_reached(f0, w, h, r0, c0, y, lo, hi, xc, c + 1);
        assert(!is_set(f0, y, c));
        lemma_reach_step(f0, w, h, r0, c0, y, c + 1, y, c);
    } else if c > xc {
        lemma_segment_reached(f0, w, h, r0, c0, y, lo, hi, xc, c - 1);
        assert(!is_set(f0, y, c));
        lemma_reach_step(f0, w, h, r0, c0, y, c - 1, y, c);
    }
}

/// A cell connected to the seed is empty, so an occupied seed reaches nothing.
proof fn lemma_linked_start(f0: Seq<u16>, w: int, h: int, r0: int, c0: int, r: int, c: int, n: nat)
    requires
        linked(f0, w, h, r0, c0, r, c, n),
    ensures
        !is_set(f0, r0, c0),
        in_field(w, h, r0, c0),
    decreases n,
{
    if !(r == r0 && c == c0) {
        let (r1, c1) = choose|r1: int, c1: int| linked(f0, w, h, r0, c0, r1, c1, (n - 1) as nat) && #[trigger] adjacent(r1, c1, r, c);
        lemma_linked_start(f0, w, h, r0, c0, r1, c1, (n - 1) as nat);
    }
}

proof fn lemma_column_linked(f0: Seq<u16>, w: int, h: int, r0: int, c0: int, r: int)
    requires
        forall|rr: int, cc: int| in_field(w, h, rr, cc) ==> !#[trigger] is_set(f0, rr, cc),
        in_field(w, h, r0, c0),
        0 <= r < h,
    ensures
        reachable_cell(f0, w, h, r0, c0, r, c0),
    decreases if r >= r0 { r - r0 } else { r0 - r },
{
    if r > r0 {
        lemma_column_linked(f0, w, h, r0, c0, r - 1);
        lemma_reach_step(f0, w, h, r0, c0, r - 1, c0, r, c0);
    } else if r < r0 {
        lemma_column_linked(f0, w, h, r0, c0, r + 1);
        lemma_reach_step(f0, w, h, r0, c0, r + 1, c0, r, c0);
    } else {
        assert(linked(f0, w, h, r0, c0, r, c0, 0));
    }
}

proof fn lemma_row_linked(f0: Seq<u16>, w: int, h: int, r0: int, c0: int, r: int, c: int)
    requires
        forall|rr: int, cc: int| in_field(w, h, rr, cc) ==> !#[trigger] is_set(f0, rr, cc),
        in_field(w, h, r0, c0),
        in_field(w, h, r, c),
    ensures
        reachable_cell(f0, w, h, r0, c0, r, c),
    decreases if c >= c0 { c - c0 } else { c0 - c },
{
    if c > c0 {
        lemma_row_linked(f0, w, h, r0, c0, r, c - 1);
        lemma_reach_step(f0, w, h, r0, c0, r, c - 1, r, c);
    } else if c < c0 {
        lemma_row_linked(f0, w, h, r0, c0, r, c + 1);
        lemma_reach_step(f0, w, h, r0, c0, r, c + 1, r, c);
    } else {
        lemma_column_linked(f0, w, h, r0, c0, r);
    }
}

/// Number of blocks in the first `n` rows of `f`, over `w` columns.
pub open spec fn rows_blocks(f: Seq<u16>, w: int, n: int) -> int
    decreases n,
{
    if n <= 0 {
        0
    } else {
        rows_blocks(f, w, n - 1) + row_blocks(f[n - 1], w)
    }
}

impl Well {
    /// Number of blocks in the field.
    pub open spec fn blocks(self) -> int {
        rows_blocks(self.field@, self.width as int, self.height as int)
    }

    /// The number of holes: the empty cells not connected to the middle cell
    /// of the top row through empty cells that share a side.
    pub open spec fn holes_of(self) -> int {
        let w = self.width as int;
        let h = self.height as int;
        let f = choose|f: Seq<u16>| f.len() == MAX_HEIGHT && fills(self.field@, f, w, h, h - 1, w / 2);
        w * h - rows_blocks(f, w, h)
    }

    /// Every row of the field is empty.
    pub open spec fn is_empty(self) -> bool {
        forall|i: int| 0 <= i < self.height ==> #[trigger] self.field[i] == 0
    }

}

proof fn lemma_row_blocks_bound(f: u16, n: int)
    requires
        n >= 0,
    ensures
        0 <= row_blocks(f, n) <= n,
    decreases n,
{
    if n > 0 {
        lemma_row_blocks_bound(f, n - 1);
    }
}

proof fn lemma_blocks_bound(f: Seq<u16>, wd: int, n: int)
    requires
        0 <= n <= f.len(),
        0 <= wd,
    ensures
        0 <= rows_blocks(f, wd, n) <= n * wd,
    decreases n,
{
    if n > 0 {
        lemma_blocks_bound(f, wd, n - 1);
        lemma_row_blocks_bound(f[n - 1], wd);
        assert((n - 1) * wd + wd == n * wd) by (nonlinear_arith);
    }
}

proof fn lemma_gains_trans(a: Well, b: Well, c: Well)
    requires
        gains(a, b),
        gains(b, c),
    ensures
        gains(a, c),
{
    assert forall|i: int| 0 <= i < MAX_HEIGHT implies #[trigger] a.field[i] & !c.field[i] == 0 by {
        let x = a.field[i];
        let y = b.field[i];
        let z = c.field[i];
        assert(a.field[i] & !b.field[i] == 0 && b.field[i] & !c.field[i] == 0);
        assert(x & !y == 0 && y & !z == 0 ==> x & !z == 0) by (bit_vector);
    }
}

/// A range of columns as a pair of line bits: `start` is the bit of the first
/// column, `end` the bit of the column just past the last one.
#[derive(Copy, Clone, Debug, PartialEq, Eq, Structural)]
pub struct ColRange {
    pub start: Line,
    pub end: Line,
}

impl ColRange {
    /// Creates a mask with all bits set in the range.
    pub fn mask(&self) -> (r: Line)
        requires
            self.start >= self.end,
        ensures
            r == (((self.start - self.end) as u16) << 1u16) as u16,
    {
        (self.start - self.end) << 1
    }

    /// Takes the first column bit of the range, if any.
    pub fn next(&mut self) -> (r: Option<Line>)
        ensures
            old(self).start != old(self).end ==> r == Some(old(self).start) && *final(self) == (ColRange {
                start: old(self).start >> 1u16,
                end: old(self).end,
            }),
            old(self).start == old(self).end ==> r == None::<Line> && *final(self) == *old(self),
    {
        if self.start != self.end {
            let it = self.start;
            self.start = self.start >> 1;
            Some(it)
        } else {
            None
        }
    }

    /// Takes the last column bit of the range, if any.
    pub fn next_back(&mut self) -> (r: Option<Line>)
        ensures
            old(self).start != old(self).end ==> r == Some((old(self).end << 1u16) as u16) && *final(self)
                == (ColRange { start: old(self).start, end: (old(self).end << 1u16) as u16 }),
            old(self).start == old(self).end ==> r == None::<Line> && *final(self) == *old(self),
    {
        if self.start != self.end {
            self.end = self.end << 1;
            Some(self.end)
        } else {
            None
        }
    }
}

impl Well {
    /// The range of all the columns of the well.
    pub fn col_range(&self) -> (r: ColRange)
        requires
            self.wf(),
        ensures
            r.start == col_bit(0),
            r.end == col_bit(self.width as int),
    {
        let w = self.width as u16;
        assert(4 <= w <= 12 ==> 1u16 << (15 - w) as u16 == 0x8000u16 >> w) by (bit_vector);
        assert(1u16 << 15u16 == 0x8000u16 >> 0u16) by (bit_vector);
        ColRange { start: 1 << (SIZE_OF_WIDTH - 1), end: 1 << (SIZE_OF_WIDTH - self.width as usize - 1) }
    }

    /// Returns the number of blocks in the field.
    pub fn count_blocks(&self) -> (r: u32)
        requires
            self.wf(),
        ensures
            r == self.blocks(),
    {
        let h = self.height as usize;
        let w = self.width as u16;
        let mut total: u32 = 0;
        let mut i: usize = 0;
        while i < h
            invariant
                self.wf(),
                h == self.height,
                w == self.width,
                0 <= i <= h,
                total == rows_blocks(self.field@, w as int, i as int),
            decreases h - i,
        {
            proof {
                lemma_blocks_bound(self.field@, w as int, i as int);
                lemma_row_blocks_bound(self.field[i as int], w as int);
                assert(i * w <= 23 * 12) by (nonlinear_arith)
                    requires
                        i <= 23,
                        w <= 12,
                ;
            }
            let f = self.field[i];
            let mut c: u16 = 0;
            let mut n: u32 = 0;
            while c < w
                invariant
                    0 <= c <= w,
                    w <= 12,
                    n == row_blocks(f, c as int),
                    n <= c,
                decreases w - c,
            {
                if f & (0x8000u16 >> c) != 0 {
                    n += 1;
                }
                c += 1;
            }
            total += n;
            i += 1;
        }
        total
    }

    /// Flood fills the field from the given seeding cell: exactly the empty
    /// cells connected to it through empty cells that share a side are
    /// filled. Nothing is filled if the seed holds a block.
    pub fn flood_fill(&mut self, seed: Point)
        requires
            old(self).wf(),
            0 <= seed.x < old(self).width,
            0 <= seed.y < old(self).height,
        ensures
            final(self).wf(),
            final(self).width == old(self).width,
            final(self).height == old(self).height,
            gains(*old(self), *final(self)),
            fills(old(self).field@, final(self).field@, old(self).width as int, old(self).height as int, seed.y as int, seed.x as int),
    {
        let ghost w0 = *self;
        let ghost wi = self.width as int;
        let ghost hi = self.height as int;
        let ghost f0 = self.field@;
        let y = seed.y as usize;
        let x = seed.x as u16;
        proof {
            lemma_gains_refl(w0);
        }
        if self.field[y] & (0x8000u16 >> x) != 0 {
            proof {
                assert(is_set(f0, y as int, x as int));
                assert forall|r: int, c: int| in_field(wi, hi, r, c) implies (#[trigger] is_set(f0, r, c) == (is_set(f0, r, c)
                    || reachable_cell(f0, wi, hi, y as int, x as int, r, c))) by {
                    if reachable_cell(f0, wi, hi, y as int, x as int, r, c) {
                        let n = choose|n: nat| #[trigger] linked(f0, wi, hi, y as int, x as int, r, c, n);
                        lemma_linked_start(f0, wi, hi, y as int, x as int, r, c, n);
                    }
                }
            }
            return;
        }
        proof {
            assert(linked(f0, wi, hi, y as int, x as int, y as int, x as int, 0));
            lemma_blocks_bound(f0, wi, hi);
            assert(hi * wi == wi * hi) by (nonlinear_arith);
        }
        self.fill_from(y, x, Ghost(f0), Ghost(y as int), Ghost(x as int), Ghost(unset_cells(w0) as nat));
        proof {
            let f = self.field@;
            assert forall|r: int, c: int| in_field(wi, hi, r, c) implies (#[trigger] is_set(f, r, c) == (is_set(f0, r, c)
                || reachable_cell(f0, wi, hi, y as int, x as int, r, c))) by {
                if reachable_cell(f0, wi, hi, y as int, x as int, r, c) {
                    let n = choose|n: nat| #[trigger] linked(f0, wi, hi, y as int, x as int, r, c, n);
                    lemma_linked_filled(w0, *self, y as int, x as int, r, c, n);
                }
            }
        }
    }

    /// Fills the run of empty cells around `(y, xc)`, which is empty, then goes
    /// on from each empty cell below and above the run.
    ///
    /// `bound` bounds the number of empty cells, which each call lowers.
    fn fill_from(
        &mut self,
        y: usize,
        xc: u16,
        Ghost(f0): Ghost<Seq<u16>>,
        Ghost(r0): Ghost<int>,
        Ghost(c0): Ghost<int>,
        Ghost(bound): Ghost<nat>,
    )
        requires
            old(self).wf(),
            y < old(self).height,
            xc < old(self).width,
            f0.len() == MAX_HEIGHT,
            !is_set(old(self).field@, y as int, xc as int),
            reachable_cell(f0, old(self).width as int, old(self).height as int, r0, c0, y as int, xc as int),
            sound(f0, old(self).field@, old(self).width as int, old(self).height as int, r0, c0),
            unset_cells(*old(self)) <= bound,
        ensures
            final(self).wf(),
            final(self).width == old(self).width,
            final(self).height == old(self).height,
            gains(*old(self), *final(self)),
            sound(f0, final(self).field@, old(self).width as int, old(self).height as int, r0, c0),
            is_set(final(self).field@, y as int, xc as int),
            forall|r: int, c: int|
                in_field(old(self).width as int, old(self).height as int, r, c) && #[trigger] is_set(final(self).field@, r, c)
                    && !is_set(old(self).field@, r, c) ==> closed_cell(final(self).field@, old(self).width as int, old(self).height as int, r, c),
        decreases bound,
    {
        let ghost w0 = *self;
        let ghost wi = self.width as int;
        let ghost hi = self.height as int;
        let w = self.width as u16;
        let h = self.height as usize;
        let row = self.field[y];
        assert(row == w0.field@[y as int]);
        // The run of empty cells [lc, rc) around the seed column
        let mut lc: u16 = xc;
        while lc > 0 && row & (0x8000u16 >> (lc - 1)) == 0
            invariant
                lc <= xc < w <= 12,
                y < MAX_HEIGHT,
                row == w0.field@[y as int],
                forall|c: int| lc <= c <= xc ==> !#[trigger] is_set(w0.field@, y as int, c),
            decreases lc,
        {
            proof {
                assert(col_bit(lc - 1) == 0x8000u16 >> (lc - 1) as u16);
                assert(!is_set(w0.field@, y as int, lc - 1));
            }
            lc -= 1;
        }
        let mut rc: u16 = xc;
        while rc < w && row & (0x8000u16 >> rc) == 0
            invariant
                lc <= xc <= rc <= w <= 12,
                y < MAX_HEIGHT,
                row == w0.field@[y as int],
                forall|c: int| lc <= c <= xc ==> !#[trigger] is_set(w0.field@, y as int, c),
                forall|c: int| xc <= c < rc ==> !#[trigger] is_set(w0.field@, y as int, c),
            decreases w - rc,
        {
            proof {
                assert(col_bit(rc as int) == 0x8000u16 >> rc);
                assert(!is_set(w0.field@, y as int, rc as int));
            }
            rc += 1;
        }
        proof {
            assert(!is_set(w0.field@, y as int, xc as int));
            assert(rc > xc) by {
                assert(col_bit(xc as int) == 0x8000u16 >> xc);
            }
            // Every cell of the run is connected to the seed.
            assert forall|k: int| lc <= k <= rc - 1 implies in_field(wi, hi, y as int, k) && !#[trigger] is_set(f0, y as int, k) by {
                assert(!is_set(w0.field@, y as int, k));
            }
            assert(empty_stretch(f0, wi, hi, y as int, lc as int, rc - 1));
            assert forall|c: int| lc <= c < rc implies #[trigger] reachable_cell(f0, wi, hi, r0, c0, y as int, c) by {
                lemma_segment_reached(f0, wi, hi, r0, c0, y as int, lc as int, rc - 1, xc as int, c);
            }
        }
        assert(lc <= rc <= w && 4 <= w <= 12 ==> (0x8000u16 >> lc) >= (0x8000u16 >> rc)) by (bit_vector);
        let mask: Line = ((0x8000u16 >> lc) - (0x8000u16 >> rc)) << 1;
        proof {
            let m = self.mask();
            assert(lc <= rc <= w && 4 <= w <= 12 ==> range_mask(lc, rc) & !mask_of(w as int) == 0) by (bit_vector);
            assert(mask == range_mask(lc, rc));
            assert(w as int == self.width as int);
            assert(row & !m == 0 && mask & !m == 0 ==> (row | mask) & !m == 0) by (bit_vector);
            assert(row & !(row | mask) == 0) by (bit_vector);
        }
        self.field[y] = row | mask;
        let ghost w1 = *self;
        proof {
            assert forall|i: int| 0 <= i < MAX_HEIGHT implies #[trigger] w0.field[i] & !self.field[i] == 0 by {
                let a = w0.field[i];
                assert(a & !a == 0) by (bit_vector);
            }
            assert forall|c: int| 0 <= c < 16 implies #[trigger] is_set(self.field@, y as int, c) == (is_set(w0.field@, y as int, c)
                || (lc <= c && c < rc)) by {
                let b = 0x8000u16 >> (c as u16);
                lemma_range_mask(lc, rc, c as u16);
                assert((row | mask) & b != 0 <==> (row & b != 0 || mask & b != 0)) by (bit_vector);
                assert(col_bit(c) == b);
            }
            assert(sound(f0, self.field@, wi, hi, r0, c0)) by {
                assert forall|r: int, c: int| in_field(wi, hi, r, c) && #[trigger] is_set(self.field@, r, c) && !is_set(f0, r, c)
                    implies reachable_cell(f0, wi, hi, r0, c0, r, c) by {
                    if r != y || !(lc <= c < rc) {
                        assert(is_set(w0.field@, r, c));
                    }
                }
                assert forall|r: int, c: int| in_field(wi, hi, r, c) && #[trigger] is_set(f0, r, c) implies is_set(self.field@, r, c) by {
                    assert(is_set(w0.field@, r, c));
                    lemma_set_mono(w0, *self, r, c);
                }
            }
            lemma_rows_count_mono(w0.field@, self.field@, wi, hi);
            assert(in_field(wi, hi, y as int, xc as int) && !is_set(w0.field@, y as int, xc as int) && is_set(self.field@, y as int, xc as int));
            assert(unset_cells(*self) < unset_cells(w0));
        }
        if y >= 1 {
            let r2: usize = y - 1;
        {
            let ghost ws = *self;
            proof {
                lemma_gains_refl(ws);
            }
            let mut c = lc;
            while c < rc
                invariant
                    lc <= c <= rc <= wi <= 12,
                    wi == ws.width,
                    hi == ws.height,
                    wi == w0.width,
                    hi == w0.height,
                    w0.wf(),
                    y < hi,
                    r2 < hi,
                    r2 + 1 == y || y + 1 == r2,
                    f0.len() == MAX_HEIGHT,
                    self.wf(),
                    self.width == ws.width,
                    self.height == ws.height,
                    gains(ws, *self),
                    unset_cells(w0) <= bound,
                    unset_cells(*self) < unset_cells(w0),
                    forall|cc: int| lc <= cc < rc ==> #[trigger] reachable_cell(f0, wi, hi, r0, c0, y as int, cc),
                    sound(f0, self.field@, wi, hi, r0, c0),
                    forall|cc: int| lc <= cc < c ==> #[trigger] is_set(self.field@, r2 as int, cc),
                    forall|r: int, cc: int|
                        in_field(wi, hi, r, cc) && #[trigger] is_set(self.field@, r, cc) && !is_set(ws.field@, r, cc)
                            ==> closed_cell(self.field@, wi, hi, r, cc),
                decreases rc - c,
            {
                let ghost mid = *self;
                if self.field[r2] & (0x8000u16 >> c) == 0 {
                    proof {
                        assert(!is_set(self.field@, r2 as int, c as int));
                        assert(in_field(wi, hi, r2 as int, c as int));
                        assert(!is_set(f0, r2 as int, c as int));
                        assert(adjacent(y as int, c as int, r2 as int, c as int));
                        lemma_reach_step(f0, wi, hi, r0, c0, y as int, c as int, r2 as int, c as int);
                        lemma_blocks_bound(self.field@, wi, hi);
                        assert(hi * wi == wi * hi) by (nonlinear_arith);
                    }
                    self.fill_from(r2, c, Ghost(f0), Ghost(r0), Ghost(c0), Ghost((bound - 1) as nat));
                    proof {
                        let now = *self;
                        lemma_gains_trans(ws, mid, now);
                        lemma_rows_count_mono(mid.field@, now.field@, wi, hi);
                        assert forall|cc: int| lc <= cc < c + 1 implies #[trigger] is_set(now.field@, r2 as int, cc) by {
                            if cc < c {
                                lemma_set_mono(mid, now, r2 as int, cc);
                            }
                        }
                        assert forall|r: int, cc: int|
                            in_field(wi, hi, r, cc) && #[trigger] is_set(now.field@, r, cc) && !is_set(ws.field@, r, cc)
                                implies closed_cell(now.field@, wi, hi, r, cc) by {
                            if is_set(mid.field@, r, cc) {
                                lemma_closed_mono(mid, now, r, cc);
                            }
                        }
                    }
                } else {
                    proof {
                        assert(is_set(self.field@, r2 as int, c as int)) by {
                            assert(col_bit(c as int) == 0x8000u16 >> c);
                        }
                    }
                }
                c += 1;
            }
        }
        }
        let ghost w2 = *self;
        proof {
            lemma_gains_refl(*self);
        }
        if y + 1 < h {
            let r2: usize = y + 1;
        {
            let ghost ws = *self;
            proof {
                lemma_gains_refl(ws);
            }
            let mut c = lc;
            while c < rc
                invariant
                    lc <= c <= rc <= wi <= 12,
                    wi == ws.width,
                    hi == ws.height,
                    wi == w0.width,
                    hi == w0.height,
                    w0.wf(),
                    y < hi,
                    r2 < hi,
                    r2 + 1 == y || y + 1 == r2,
                    f0.len() == MAX_HEIGHT,
                    self.wf(),
                    self.width == ws.width,
                    self.height == ws.height,
                    gains(ws, *self),
                    unset_cells(w0) <= bound,
                    unset_cells(*self) < unset_cells(w0),
                    forall|cc: int| lc <= cc < rc ==> #[trigger] reachable_cell(f0, wi, hi, r0, c0, y as int, cc),
                    sound(f0, self.field@, wi, hi, r0, c0),
                    forall|cc: int| lc <= cc < c ==> #[trigger] is_set(self.field@, r2 as int, cc),
                    forall|r: int, cc: int|
                        in_field(wi, hi, r, cc) && #[trigger] is_set(self.field@, r, cc) && !is_set(ws.field@, r, cc)
                            ==> closed_cell(self.field@, wi, hi, r, cc),
                decreases rc - c,
            {
                let ghost mid = *self;
                if self.field[r2] & (0x8000u16 >> c) == 0 {
                    proof {
                        assert(!is_set(self.field@, r2 as int, c as int));
                        assert(in_field(wi, hi, r2 as int, c as int));
                        assert(!is_set(f0, r2 as int, c as int));
                        assert(adjacent(y as int, c as int, r2 as int, c as int));
                        lemma_reach_step(f0, wi, hi, r0, c0, y as int, c as int, r2 as int, c as int);
                        lemma_blocks_bound(self.field@, wi, hi);
                        assert(hi * wi == wi * hi) by (nonlinear_arith);
                    }
                    self.fill_from(r2, c, Ghost(f0), Ghost(r0), Ghost(c0), Ghost((bound - 1) as nat));
                    proof {
                        let now = *self;
                        lemma_gains_trans(ws, mid, now);
                        lemma_rows_count_mono(mid.field@, now.field@, wi, hi);
                        assert forall|cc: int| lc <= cc < c + 1 implies #[trigger] is_set(now.field@, r2 as int, cc) by {
                            if cc < c {
                                lemma_set_mono(mid, now, r2 as int, cc);
                            }
                        }
                        assert forall|r: int, cc: int|
                            in_field(wi, hi, r, cc) && #[trigger] is_set(now.field@, r, cc) && !is_set(ws.field@, r, cc)
                                implies closed_cell(now.field@, wi, hi, r, cc) by {
                            if is_set(mid.field@, r, cc) {
                                lemma_closed_mono(mid, now, r, cc);
                            }
                        }
                    }
                } else {
                    proof {
                        assert(is_set(self.field@, r2 as int, c as int)) by {
                            assert(col_bit(c as int) == 0x8000u16 >> c);
                        }
                    }
                }
                c += 1;
            }
        }
        }
        proof {
            let wf = *self;
            lemma_gains_refl(wf);
            if y >= 1 {
                assert(gains(w1, w2));
            } else {
                lemma_gains_refl(w1);
                assert(w2 == w1);
            }
            lemma_gains_trans(w1, w2, wf);
            lemma_gains_trans(w0, w1, wf);
            lemma_set_mono(w1, wf, y as int, xc as int);
            if y >= 1 {
                assert forall|c: int| lc <= c < rc implies #[trigger] is_set(wf.field@, y - 1, c) by {
                    lemma_set_mono(w2, wf, y - 1, c);
                }
            }
            assert forall|r: int, c: int|
                in_field(wi, hi, r, c) && #[trigger] is_set(wf.field@, r, c) && !is_set(w0.field@, r, c)
                    implies closed_cell(wf.field@, wi, hi, r, c) by {
                if r == y && lc <= c < rc {
                    if c > lc {
                        lemma_set_mono(w1, wf, r, c - 1);
                    } else if c > 0 {
                        assert(is_set(w0.field@, r, c - 1)) by {
                            assert(col_bit(c - 1) == 0x8000u16 >> (lc - 1) as u16);
                        }
                        lemma_set_mono(w0, wf, r, c - 1);
                    }
                    if c + 1 < rc {
                        lemma_set_mono(w1, wf, r, c + 1);
                    } else if c + 1 < wi {
                        assert(is_set(w0.field@, r, c + 1)) by {
                            assert(col_bit(c + 1) == 0x8000u16 >> rc);
                        }
                        lemma_set_mono(w0, wf, r, c + 1);
                    }
                } else {
                    assert(!is_set(w1.field@, r, c));
                    if is_set(w2.field@, r, c) {
                        lemma_closed_mono(w2, wf, r, c);
                    }
                }
            }
        }
    }

    /// Counts the number of holes: the empty cells not connected to the
    /// middle cell of the top row through empty cells that share a side.
    pub fn count_holes(&self) -> (r: i32)
        requires
            self.wf(),
        ensures
            r == self.holes_of(),
            0 <= r <= self.width * self.height,
            self.is_empty() ==> r == 0,
    {
        let mut well = *self;
        let wd = self.width;
        assert(wd >= 1 ==> wd >> 1 >= 0 && wd >> 1 < wd) by (bit_vector);
        assert(wd >= 0 ==> wd >> 1 == wd / 2) by (bit_vector);
        let seed = Point::new(wd >> 1, self.height - 1);
        well.flood_fill(seed);
        let blocks = well.count_blocks();
        proof {
            let wi = self.width as int;
            let hi = self.height as int;
            lemma_blocks_bound(well.field@, wi, hi);
            assert(well.field@.len() == MAX_HEIGHT && fills(self.field@, well.field@, wi, hi, hi - 1, wi / 2));
            let f = choose|f: Seq<u16>| f.len() == MAX_HEIGHT && fills(self.field@, f, wi, hi, hi - 1, wi / 2);
            lemma_rows_count_eq(f, well.field@, wi, hi);
            if self.is_empty() {
                assert forall|rr: int, cc: int| in_field(wi, hi, rr, cc) implies !#[trigger] is_set(self.field@, rr, cc) by {
                    let b = col_bit(cc);
                    assert(self.field[rr] == 0);
                    assert(0u16 & b == 0) by (bit_vector);
                }
                assert forall|r: int, c: int| in_field(wi, hi, r, c) implies #[trigger] is_set(well.field@, r, c) by {
                    lemma_row_linked(self.field@, wi, hi, hi - 1, wi / 2, r, c);
                }
                lemma_rows_count_full(well.field@, wi, hi);
            }
            assert(self.width * self.height <= 12 * 23) by (nonlinear_arith)
                requires
                    self.width <= 12,
                    self.height <= 23,
                    self.width >= 0,
                    self.height >= 0,
            ;
        }
        self.width as i32 * self.height as i32 - blocks as i32
    }
}

proof fn lemma_gains_refl(a: Well)
    ensures
        gains(a, a),
{
    assert forall|i: int| 0 <= i < MAX_HEIGHT implies #[trigger] a.field[i] & !a.field[i] == 0 by {
        let x = a.field[i];
        assert(x & !x == 0) by (bit_vector);
    }
}

proof fn lemma_set_mono(a: Well, b: Well, r: int, c: int)
    requires
        gains(a, b),
        0 <= r < MAX_HEIGHT,
        is_set(a.field@, r, c),
    ensures
        is_set(b.field@, r, c),
{
    assert(a.field[r] & !b.field[r] == 0);
    lemma_bit_mono(a.field[r], b.field[r], col_bit(c));
}

proof fn lemma_closed_mono(a: Well, b: Well, r: int, c: int)
    requires
        gains(a, b),
        0 <= r < MAX_HEIGHT,
        0 <= c,
        0 <= a.height <= MAX_HEIGHT,
        closed_cell(a.field@, a.width as int, a.height as int, r, c),
    ensures
        closed_cell(b.field@, a.width as int, a.height as int, r, c),
{
    if c > 0 {
        lemma_set_mono(a, b, r, c - 1);
    }
    if c + 1 < a.width {
        lemma_set_mono(a, b, r, c + 1);
    }
    if r > 0 {
        lemma_set_mono(a, b, r - 1, c);
    }
    if r + 1 < a.height {
        lemma_set_mono(a, b, r + 1, c);
    }
}

/// After the fill, every cell connected to the seed holds a block: the seed
/// was filled, and each filled cell has its neighbours filled.
proof fn lemma_linked_filled(a: Well, b: Well, r0: int, c0: int, r: int, c: int, n: nat)
    requires
        a.wf(),
        b.height == a.height,
        b.width == a.width,
        is_set(b.field@, r0, c0),
        forall|rr: int, cc: int|
            in_field(a.width as int, a.height as int, rr, cc) && #[trigger] is_set(b.field@, rr, cc) && !is_set(a.field@, rr, cc)
                ==> closed_cell(b.field@, a.width as int, a.height as int, rr, cc),
        linked(a.field@, a.width as int, a.height as int, r0, c0, r, c, n),
    ensures
        is_set(b.field@, r, c),
    decreases n,
{
    if !(r == r0 && c == c0) {
        let (r1, c1) = choose|r1: int, c1: int| linked(a.field@, a.width as int, a.height as int, r0, c0, r1, c1, (n - 1) as nat)
            && #[trigger] adjacent(r1, c1, r, c);
        lemma_linked_filled(a, b, r0, c0, r1, c1, (n - 1) as nat);
        assert(closed_cell(b.field@, a.width as int, a.height as int, r1, c1));
    }
}

/// The cells of the first `n` columns of a line: a block for each set bit, a
/// blank for each clear one.
pub open spec fn row_text(f: u16, n: int) -> Seq<char>
    decreases n,
{
    if n <= 0 {
        Seq::empty()
    } else {
        row_text(f, n - 1).push(if f & col_bit(n - 1) != 0 {
            '\u{25a1}'
        } else {
            ' '
        })
    }
}

/// `n` copies of `c`.
pub open spec fn repeat_char(c: char, n: int) -> Seq<char>
    decreases n,
{
    if n <= 0 {
        Seq::empty()
    } else {
        repeat_char(c, n - 1).push(c)
    }
}

impl Well {
    /// The text of the `n` top rows, each between walls and ending a line.
    pub open spec fn rows_text(self, n: int) -> Seq<char>
        decreases n,
    {
        if n <= 0 {
            Seq::empty()
        } else {
            self.rows_text(n - 1) + seq!['|'] + row_text(self.field[self.height - n], self.width as int)
                + seq!['|', '\n']
        }
    }

    /// The well drawn as text: its rows from the top, walls on both sides, and
    /// the floor below.
    pub open spec fn text(self) -> Seq<char> {
        self.rows_text(self.height as int) + seq!['+'] + repeat_char('-', self.width as int) + seq!['+']
    }

    /// Draws the well as text: a line per row from the top, `|` for the walls,
    /// `\u{25a1}` for a block and a blank for an empty cell, then the floor as
    /// `+`, a `-` per column and `+`.
    pub fn to_text(&self) -> (r: String)
        requires
            self.wf(),
        ensures
            r@ == self.text(),
    {
        let mut s = String::new();
        let h = self.height as usize;
        let w = self.width as u16;
        let mut k: usize = 0;
        while k < h
            invariant
                self.wf(),
                h == self.height,
                w == self.width,
                0 <= k <= h,
                s@ == self.rows_text(k as int),
            decreases h - k,
        {
            let f = self.field[h - 1 - k];
            proof {
                reveal_strlit("|");
            }
            s.append("|");
            let ghost before = s@;
            let mut c: u16 = 0;
            while c < w
                invariant
                    0 <= c <= w,
                    w <= 12,
                    s@ == before + row_text(f, c as int),
                decreases w - c,
            {
                if f & (0x8000u16 >> c) != 0 {
                    proof {
                        reveal_strlit("\u{25a1}");
                    }
                    s.append("\u{25a1}");
                } else {
                    proof {
                        reveal_strlit(" ");
                    }
                    s.append(" ");
                }
                proof {
                    assert(before + row_text(f, c + 1) =~= before + row_text(f, c as int) + seq![if f & col_bit(c as int) != 0 { '\u{25a1}' } else { ' ' }]);
                }
                c += 1;
            }
            proof {
                reveal_strlit("|\n");
            }
            s.append("|\n");
            proof {
                assert(self.field[self.height - (k + 1)] == f);
                assert(self.rows_text(k + 1) =~= self.rows_text(k as int) + seq!['|'] + row_text(f, w as int) + seq!['|', '\n']);
            }
            k += 1;
        }
        proof {
            reveal_strlit("+");
        }
        s.append("+");
        let ghost before = s@;
        let mut c: u16 = 0;
        while c < w
            invariant
                0 <= c <= w,
                s@ == before + repeat_char('-', c as int),
            decreases w - c,
        {
            proof {
                reveal_strlit("-");
                assert(before + repeat_char('-', c + 1) =~= before + repeat_char('-', c as int) + seq!['-']);
            }
            s.append("-");
            c += 1;
        }
        proof {
            reveal_strlit("+");
        }
        s.append("+");
        proof {
            assert(s@ =~= self.text());
        }
        s
    }
}

/// `a` comes before `b` reading the field from the floor up, each row from
/// the left wall.
pub open spec fn reads_before(a: Point, b: Point) -> bool {
    a.y < b.y || (a.y == b.y && a.x < b.x)
}

impl Well {
    /// Lists the cells holding a block, from the bottom row up and from the
    /// left wall in each row.
    pub fn describe(&self) -> (r: Vec<Point>)
        requires
            self.wf(),
        ensures
            forall|k: int| 0 <= k < r@.len() ==> self.cell((#[trigger] r@[k]).y as int, r@[k].x as int),
            forall|row: int, col: int|
                #![trigger self.cell(row, col)]
                self.cell(row, col) ==> exists|k: int| 0 <= k < r@.len() && #[trigger] r@[k] == (Point { x: col as i8, y: row as i8 }),
            forall|a: int, b: int| 0 <= a < b < r@.len() ==> #[trigger] reads_before(r@[a], r@[b]),
    {
        let h = self.height;
        let w = self.width;
        let mut r: Vec<Point> = Vec::new();
        let mut row: i8 = 0;
        while row < h
            invariant
                self.wf(),
                h == self.height,
                w == self.width,
                0 <= row <= h,
                forall|k: int| 0 <= k < r@.len() ==> self.cell((#[trigger] r@[k]).y as int, r@[k].x as int),
                forall|k: int| 0 <= k < r@.len() ==> (#[trigger] r@[k]).y < row,
                forall|rr: int, col: int|
                    #![trigger self.cell(rr, col)]
                    0 <= rr < row && self.cell(rr, col) ==> exists|k: int| 0 <= k < r@.len() && #[trigger] r@[k] == (Point { x: col as i8, y: rr as i8 }),
                forall|a: int, b: int| 0 <= a < b < r@.len() ==> #[trigger] reads_before(r@[a], r@[b]),
            decreases h - row,
        {
            let line = self.field[row as usize];
            let mut col: i8 = 0;
            while col < w
                invariant
                    self.wf(),
                    h == self.height,
                    w == self.width,
                    0 <= row < h,
                    0 <= col <= w,
                    line == self.field[row as int],
                    forall|k: int| 0 <= k < r@.len() ==> self.cell((#[trigger] r@[k]).y as int, r@[k].x as int),
                    forall|k: int| 0 <= k < r@.len() ==> (#[trigger] r@[k]).y < row || (r@[k].y == row && r@[k].x < col),
                    forall|rr: int, c: int|
                        #![trigger self.cell(rr, c)]
                        ((0 <= rr < row) || (rr == row && c < col)) && self.cell(rr, c) ==> exists|k: int| 0 <= k < r@.len() && #[trigger] r@[k] == (Point { x: c as i8, y: rr as i8 }),
                    forall|a: int, b: int| 0 <= a < b < r@.len() ==> #[trigger] reads_before(r@[a], r@[b]),
                decreases w - col,
            {
                if line & (0x8000u16 >> col as u16) != 0 {
                    let ghost before = r@;
                    r.push(Point::new(col, row));
                    proof {
                        assert(r@[before.len() as int] == Point { x: col, y: row });
                        assert forall|rr: int, c: int|
                            #![trigger self.cell(rr, c)]
                            ((0 <= rr < row) || (rr == row && c < col + 1)) && self.cell(rr, c) implies exists|k: int| 0 <= k < r@.len() && #[trigger] r@[k] == (Point { x: c as i8, y: rr as i8 }) by {
                            if rr == row && c == col {
                                assert(r@[before.len() as int] == Point { x: c as i8, y: rr as i8 });
                            } else {
                                let k = choose|k: int| 0 <= k < before.len() && #[trigger] before[k] == (Point { x: c as i8, y: rr as i8 });
                                assert(r@[k] == before[k]);
                            }
                        }
                    }
                }
                col += 1;
            }
            row += 1;
        }
        r
    }
}

impl Well {
    /// The blocks of `self` that `rhs` does not hold, row by row.
    pub fn difference(&self, rhs: &Well) -> (r: Well)
        requires
            self.wf(),
            rhs.wf(),
            self.width == rhs.width,
            self.height == rhs.height,
        ensures
            r.wf(),
            r.width == self.width,
            r.height == self.height,
            forall|i: int| 0 <= i < MAX_HEIGHT ==> #[trigger] r.field[i] == self.field[i] & !rhs.field[i],
    {
        let mut r = *self;
        let mut i: usize = 0;
        while i < MAX_HEIGHT
            invariant
                0 <= i <= MAX_HEIGHT,
                self.wf(),
                r.width == self.width,
                r.height == self.height,
                forall|j: int| 0 <= j < i ==> #[trigger] r.field[j] == self.field[j] & !rhs.field[j],
                forall|j: int| i <= j < MAX_HEIGHT ==> #[trigger] r.field[j] == self.field[j],
            decreases MAX_HEIGHT - i,
        {
            r.field[i] = self.field[i] & !rhs.field[i];
            i += 1;
        }
        proof {
            let m = self.mask();
            assert forall|j: int| 0 <= j < MAX_HEIGHT implies #[trigger] r.field[j] & !m == 0 by {
                let a = self.field[j];
                let b = rhs.field[j];
                assert(a & !m == 0 ==> (a & !b) & !m == 0) by (bit_vector);
            }
            assert forall|j: int| self.height <= j < MAX_HEIGHT implies #[trigger] r.field[j] == 0 by {
                let b = rhs.field[j];
                assert(0u16 & !b == 0) by (bit_vector);
            }
        }
        r
    }
}

} // verus!
