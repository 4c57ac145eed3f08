//! Reading a well from text.
//!
//! Each row is a line between two `|` walls, the top row first; a blank is an
//! empty cell and any other character a block.

use vstd::prelude::*;
use crate::well::{Well, MAX_HEIGHT, MAX_WIDTH, col_bit};

verus! {

/// Errors when parsing a well from text.
#[derive(Copy, Clone, Debug, PartialEq, Eq, Structural)]
pub enum ParseWellError {
    /// The string holds no line.
    Empty,
    /// A line is shorter than two walls and a cell, or lacks a wall.
    BadWalls,
    /// The rows have different widths.
    InWidth,
    /// The well is wider than `MAX_WIDTH` or narrower than four columns.
    OutWidth,
    /// The well is higher than `MAX_HEIGHT` or lower than four rows.
    OutHeight,
}

/// A white space character, as Unicode defines them.
pub open spec fn is_ws(c: char) -> bool {
    let u = c as u32;
    (9 <= u <= 13) || u == 32 || u == 0x85 || u == 0xa0 || u == 0x1680 || (0x2000 <= u <= 0x200a)
        || u == 0x2028 || u == 0x2029 || u == 0x202f || u == 0x205f || u == 0x3000
}

/// The text cut at each line feed: one piece more than there are line breaks.
pub open spec fn split_nl(t: Seq<char>) -> Seq<Seq<char>>
    decreases t.len(),
{
    if t.len() == 0 {
        seq![Seq::empty()]
    } else if t.last() == '\n' {
        split_nl(t.drop_last()).push(Seq::empty())
    } else {
        let p = split_nl(t.drop_last());
        p.update(p.len() - 1, p.last().push(t.last()))
    }
}

/// The lines of the text: a final line break ends the last line rather than
/// starting an empty one.
pub open spec fn lines_of(t: Seq<char>) -> Seq<Seq<char>> {
    if t.len() == 0 {
        Seq::empty()
    } else if t.last() == '\n' {
        split_nl(t).drop_last()
    } else {
        split_nl(t)
    }
}

/// The line without its trailing white space.
pub open spec fn trimmed(l: Seq<char>) -> Seq<char>
    decreases l.len(),
{
    if l.len() > 0 && is_ws(l.last()) {
        trimmed(l.drop_last())
    } else {
        l
    }
}

/// The trimmed lines of the text.
pub open spec fn text_lines(t: Seq<char>) -> Seq<Seq<char>> {
    lines_of(t).map_values(|l: Seq<char>| trimmed(l))
}

/// The line starts and ends with a wall, with at least one cell between.
pub open spec fn walled(l: Seq<char>) -> bool {
    l.len() >= 3 && l[0] == '|' && l.last() == '|'
}

/// The cells of a walled line.
pub open spec fn cells(l: Seq<char>) -> Seq<char> {
    l.subrange(1, l.len() - 1)
}

/// The row of blocks that the cells stand for.
pub open spec fn line_bits(cs: Seq<char>) -> u16
    decreases cs.len(),
{
    if cs.len() == 0 {
        0
    } else if cs.last() != ' ' {
        line_bits(cs.drop_last()) | col_bit(cs.len() - 1)
    } else {
        line_bits(cs.drop_last())
    }
}

/// What is wrong with line `k` of the trimmed lines, if anything.
pub open spec fn line_error(ts: Seq<Seq<char>>, k: int) -> Option<ParseWellError> {
    let l = ts[k];
    if !walled(l) {
        Some(ParseWellError::BadWalls)
    } else if cells(l).len() > MAX_WIDTH {
        Some(ParseWellError::OutWidth)
    } else if cells(l).len() != cells(ts[0]).len() {
        Some(ParseWellError::InWidth)
    } else if k >= MAX_HEIGHT {
        Some(ParseWellError::OutHeight)
    } else {
        None
    }
}

/// The error of the first faulty line from `k` on, if any.
pub open spec fn first_error(ts: Seq<Seq<char>>, k: int) -> Option<ParseWellError>
    decreases ts.len() - k,
{
    if k >= ts.len() || k < 0 {
        None
    } else if line_error(ts, k) is Some {
        line_error(ts, k)
    } else {
        first_error(ts, k + 1)
    }
}

/// The outcome of parsing the text `t`.
pub open spec fn parsed(t: Seq<char>, r: Result<Well, ParseWellError>) -> bool {
    let ts = text_lines(t);
    if ts.len() == 0 {
        r == Err::<Well, ParseWellError>(ParseWellError::Empty)
    } else if first_error(ts, 0) is Some {
        r == Err::<Well, ParseWellError>(first_error(ts, 0)->0)
    } else if cells(ts[0]).len() < 4 {
        r == Err::<Well, ParseWellError>(ParseWellError::OutWidth)
    } else if ts.len() < 4 {
        r == Err::<Well, ParseWellError>(ParseWellError::OutHeight)
    } else {
        match r {
            Ok(well) => {
                &&& well.wf()
                &&& well.width == cells(ts[0]).len()
                &&& well.height == ts.len()
                &&& forall|i: int| 0 <= i < ts.len() ==> #[trigger] well.field[i] == line_bits(cells(ts[ts.len() - 1 - i]))
            },
            Err(_) => false,
        }
    }
}

/// The characters of a string.
fn chars_of(s: &str) -> (r: Vec<char>)
    ensures
        r@ == s@,
{
    let mut r: Vec<char> = Vec::new();
    for c in it: s.chars()
        invariant
            r@ == it.seq().take(it.index() as int),
    {
        r.push(c);
        proof {
            assert(it.seq().take(it.index() + 1) =~= it.seq().take(it.index() as int).push(c));
        }
    }
    r
}

/// Whether a character is white space, as Unicode defines it.
fn is_white(c: char) -> (r: bool)
    ensures
        r == is_ws(c),
{
    let u = c as u32;
    (9 <= u && u <= 13) || u == 32 || u == 0x85 || u == 0xa0 || u == 0x1680 || (0x2000 <= u && u <= 0x200a)
        || u == 0x2028 || u == 0x2029 || u == 0x202f || u == 0x205f || u == 0x3000
}

/// Cuts the characters into lines.
fn split_lines(t: &Vec<char>) -> (r: Vec<Vec<char>>)
    ensures
        r@.len() == lines_of(t@).len(),
        forall|k: int| 0 <= k < r@.len() ==> #[trigger] r@[k]@ == lines_of(t@)[k],
{
    let mut r: Vec<Vec<char>> = Vec::new();
    let mut cur: Vec<char> = Vec::new();
    let mut i: usize = 0;
    while i < t.len()
        invariant
            0 <= i <= t@.len(),
            split_nl(t@.take(i as int)).len() == r@.len() + 1,
            forall|k: int| 0 <= k < r@.len() ==> #[trigger] r@[k]@ == split_nl(t@.take(i as int))[k],
            split_nl(t@.take(i as int)).last() == cur@,
        decreases t@.len() - i,
    {
        let c = t[i];
        let ghost before = split_nl(t@.take(i as int));
        assert(t@.take(i + 1).drop_last() =~= t@.take(i as int));
        assert(t@.take(i + 1).last() == c);
        if c == '\n' {
            r.push(cur);
            cur = Vec::new();
            proof {
                assert(cur@ =~= Seq::<char>::empty());
            }
        } else {
            cur.push(c);
        }
        i += 1;
    }
    assert(t@.take(t@.len() as int) =~= t@);
    if t.len() > 0 && t[t.len() - 1] != '\n' {
        r.push(cur);
    }
    r
}

/// The length of the line without its trailing white space.
fn trim_len(l: &Vec<char>) -> (n: usize)
    ensures
        n <= l@.len(),
        l@.subrange(0, n as int) == trimmed(l@),
{
    let mut n = l.len();
    assert(l@.subrange(0, n as int) =~= l@);
    while n > 0 && is_white(l[n - 1])
        invariant
            n <= l@.len(),
            trimmed(l@.subrange(0, n as int)) == trimmed(l@),
        decreases n,
    {
        assert(l@.subrange(0, n as int).drop_last() =~= l@.subrange(0, n - 1));
        n -= 1;
    }
    n
}

impl Well {
    /// Parses a well from text, the top row first.
    ///
    /// Lines are cut at line feeds and stripped of trailing white space; each
    /// must be a row of cells between two `|` walls, a blank for an empty cell
    /// and any other character for a block. The first faulty line gives the
    /// error.
    pub fn parse(s: &str) -> (r: Result<Well, ParseWellError>)
        ensures
            parsed(s@, r),
    {
        let chars = chars_of(s);
        let lines = split_lines(&chars);
        let ghost ts = text_lines(s@);
        let n = lines.len();
        if n == 0 {
            return Err(ParseWellError::Empty);
        }
        let mut rows: [u16; MAX_HEIGHT] = [0; MAX_HEIGHT];
        let mut width: usize = 0;
        let mut height: usize = 0;
        while height < n
            invariant
                n == lines@.len(),
                n == ts.len(),
                ts == text_lines(s@),
                forall|k: int| 0 <= k < n ==> #[trigger] ts[k] == trimmed(lines@[k]@),
                0 <= height <= n,
                height <= MAX_HEIGHT,
                height > 0 ==> width == cells(ts[0]).len(),
                width <= MAX_WIDTH,
                forall|k: int| 0 <= k < height ==> line_error(ts, k) is None,
                forall|k: int| 0 <= k < height ==> #[trigger] rows[k] == line_bits(cells(ts[k])),
                first_error(ts, 0) == first_error(ts, height as int),
            decreases n - height,
        {
            let l = &lines[height];
            let len = trim_len(l);
            let ghost tl = ts[height as int];
            assert(tl == l@.subrange(0, len as int));
            if len < 3 || l[0] != '|' || l[len - 1] != '|' {
                assert(line_error(ts, height as int) == Some(ParseWellError::BadWalls));
                return Err(ParseWellError::BadWalls);
            }
            let cw = len - 2;
            assert(cells(tl).len() == cw);
            if cw > MAX_WIDTH {
                return Err(ParseWellError::OutWidth);
            }
            if height > 0 && cw != width {
                return Err(ParseWellError::InWidth);
            }
            if height >= MAX_HEIGHT {
                return Err(ParseWellError::OutHeight);
            }
            let mut row: u16 = 0;
            let mut j: usize = 0;
            while j < cw
                invariant
                    0 <= j <= cw,
                    cw <= MAX_WIDTH,
                    cw + 2 == len,
                    len <= l@.len(),
                    tl == l@.subrange(0, len as int),
                    row == line_bits(cells(tl).take(j as int)),
                decreases cw - j,
            {
                let c = l[1 + j];
                proof {
                    assert(cells(tl).take(j + 1).drop_last() =~= cells(tl).take(j as int));
                    assert(cells(tl).take(j + 1).last() == c);
                }
                if c != ' ' {
                    row = row | (0x8000u16 >> j as u16);
                }
                j += 1;
            }
            proof {
                assert(cells(tl).take(cw as int) =~= cells(tl));
            }
            rows[height] = row;
            if height == 0 {
                width = cw;
            }
            height += 1;
        }
        proof {
            assert(first_error(ts, n as int) is None);
        }
        if width < 4 {
            return Err(ParseWellError::OutWidth);
        }
        if height < 4 {
            return Err(ParseWellError::OutHeight);
        }
        let mut well = Well::new(width as i8, height as i8);
        let mut i: usize = 0;
        while i < height
            invariant
                0 <= i <= height,
                4 <= height <= MAX_HEIGHT,
                4 <= width <= MAX_WIDTH,
                well.wf(),
                well.width == width,
                well.height == height,
                forall|k: int| 0 <= k < height ==> #[trigger] rows[k] == line_bits(cells(ts[k])),
                forall|k: int| 0 <= k < height ==> line_error(ts, k) is None,
                height > 0 ==> width == cells(ts[0]).len(),
                forall|k: int| 0 <= k < i ==> #[trigger] well.field[k] == line_bits(cells(ts[height - 1 - k])),
            decreases height - i,
        {
            let row = rows[height - 1 - i];
            proof {
                let cs = cells(ts[height - 1 - i]);
                assert(line_error(ts, height - 1 - i) is None);
                lemma_line_bits_in_mask(cs, width as int);
                let m = well.mask();
                assert(row & !m == 0);
            }
            well.field[i] = row;
            i += 1;
        }
        Ok(well)
    }
}

/// The row of a line of `w` cells has no block beyond `w` columns.
proof fn lemma_line_bits_in_mask(cs: Seq<char>, w: int)
    requires
        cs.len() == w,
        4 <= w <= MAX_WIDTH,
    ensures
        line_bits(cs) & !crate::well::mask_of(w) == 0,
{
    lemma_line_bits_prefix(cs, cs.len() as int, w);
    assert(cs.take(cs.len() as int) =~= cs);
}

proof fn lemma_line_bits_prefix(cs: Seq<char>, j: int, w: int)
    requires
        0 <= j <= cs.len() == w,
        4 <= w <= MAX_WIDTH,
    ensures
        line_bits(cs.take(j)) & !crate::well::mask_of(w) == 0,
    decreases j,
{
    let m = crate::well::mask_of(w);
    let wd = w as u16;
    if j == 0 {
        assert(cs.take(0).len() == 0);
        assert(0u16 & !m == 0) by (bit_vector);
    } else {
        lemma_line_bits_prefix(cs, j - 1, w);
        assert(cs.take(j).drop_last() =~= cs.take(j - 1));
        let prev = line_bits(cs.take(j - 1));
        let c = (j - 1) as u16;
        assert(c < wd && 4 <= wd <= 12 && prev & !mask_of_w(wd) == 0 ==> (prev | (0x8000u16 >> c)) & !mask_of_w(wd) == 0) by (bit_vector);
        assert(mask_of_w(wd) == m);
    }
}

spec fn mask_of_w(w: u16) -> u16 {
    !(((1u16 << ((16 - w) as u16)) - 1) as u16)
}

impl core::str::FromStr for Well {
    type Err = ParseWellError;

    fn from_str(s: &str) -> Result<Well, ParseWellError> {
        Well::parse(s)
    }
}

} // verus!
