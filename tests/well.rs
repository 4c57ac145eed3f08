use tetrs::{ColRange, Line, Point, Sprite, Well, MAX_HEIGHT, MAX_WIDTH, SIZE_OF_WIDTH};

#[test]
fn static_assert() {
    let size_of_line = std::mem::size_of::<Line>() * 8;
    assert_eq!(size_of_line, SIZE_OF_WIDTH);
    assert_eq!(size_of_line, MAX_WIDTH + 4);
    assert!(MAX_HEIGHT < 123);
}

#[test]
fn render() {
    let sprite = Sprite { pix: [0b1000, 0b0111, 0b1110, 0b0001] };
    let rendered = Well::render(&sprite, 1);
    assert_eq!(rendered, [0b1000 << 11, 0b0111 << 11, 0b1110 << 11, 0b0001 << 11]);
}

#[test]
fn col_range() {
    let well = Well::new(4, 4);
    let mut range: ColRange = well.col_range();

    assert_eq!(0b1111 << 12, range.mask());

    assert_eq!(Some(0b1000 << 12), range.next());
    assert_eq!(0b0111 << 12, range.mask());

    assert_eq!(Some(0b0100 << 12), range.next());
    assert_eq!(0b0011 << 12, range.mask());

    assert_eq!(Some(0b0001 << 12), range.next_back());
    assert_eq!(0b0010 << 12, range.mask());

    assert_eq!(Some(0b0010 << 12), range.next());

    assert_eq!(None, range.next());
    assert_eq!(None, range.next_back());
}

#[test]
fn well_etch() {
    let mut well = Well::new(10, 4);
    let sprite_o = Sprite { pix: [0b0000, 0b0110, 0b0110, 0b0110] };
    let sprite_l = Sprite { pix: [0b0001, 0b0111, 0b0000, 0b0000] };
    let sprite_i = Sprite { pix: [0b0010, 0b0010, 0b0010, 0b0010] };
    well.etch(&sprite_o, Point::new(-1, 2));
    well.etch(&sprite_l, Point::new(2, 1));
    well.etch(&sprite_i, Point::new(7, 3));

    let result = Well::from_data(10, &[0b0000000001, 0b0000000001, 0b1100010001, 0b1101110001]);
    assert_eq!(result, well);
}

#[test]
fn flood_fill() {
    let mut well = Well::from_data(
        10,
        &[0b0000000011, 0b0000011011, 0b0001100100, 0b1000000100, 0b0100101000, 0b0011010000],
    );
    well.flood_fill(Point::new(5, 5));
    let result = Well::from_data(
        10,
        &[0b1111111111, 0b1111111111, 0b1111111100, 0b1111111100, 0b0111111000, 0b0011010000],
    );
    assert_eq!(result, well);
}

#[test]
fn line_mask_is_full_row() {
    let well = Well::from_data(10, &[0, 0, 0, 0b1111111111]);
    assert_eq!(well.line(0), well.line_mask());
    assert_eq!(well.line_mask(), 0b1111111111 << 6);
    let narrow = Well::new(4, 4);
    assert_eq!(narrow.line_mask(), 0b1111 << 12);
}

#[test]
fn count_holes_empty_and_bounded() {
    let empty = Well::new(10, 6);
    assert_eq!(empty.count_holes(), 0);
    let well = Well::from_data(10, &[0, 0b1111111111, 0b1000000001, 0b1111111111]);
    // Two rows of eight cells walled in below a full row.
    assert_eq!(well.count_holes(), 8);
    let h = well.count_holes();
    assert!(h >= 0 && h <= 10 * 4);
}

#[test]
fn count_blocks_counts_cells() {
    let well = Well::from_data(10, &[0, 0b1000000001, 0b1111111111, 0b0000110000]);
    assert_eq!(well.count_blocks(), 14);
}

#[test]
fn etch_then_test_collides() {
    let mut well = Well::new(10, 6);
    let sprite = Sprite { pix: [0b0000, 0b0110, 0b0110, 0b0000] };
    let pt = Point::new(3, 2);
    assert!(!well.test(&sprite, pt));
    well.etch(&sprite, pt);
    assert!(well.test(&sprite, pt));
}

#[test]
fn etch_o_partly_off_left_edge() {
    let mut well = Well::new(10, 6);
    let sprite = Sprite { pix: [0b0000, 0b0110, 0b0110, 0b0000] };
    well.etch(&sprite, Point::new(-1, 2));
    assert_eq!(well.line(1), 0b1100000000 << 6);
    assert_eq!(well.line(0), 0b1100000000 << 6);
    assert_eq!(well.line(2), 0);
}

#[test]
fn three_piece_fixture_rows() {
    let mut well = Well::new(10, 4);
    let l = Sprite { pix: [0b0001, 0b0111, 0b0000, 0b0000] };
    let o = Sprite { pix: [0b0000, 0b0110, 0b0110, 0b0000] };
    let i = Sprite { pix: [0b0010, 0b0010, 0b0010, 0b0010] };
    well.etch(&l, Point::new(2, 1));
    well.etch(&o, Point::new(-1, 2));
    well.etch(&i, Point::new(7, 3));
    assert_eq!(well.line(0), 0b1101110001 << 6);
    assert_eq!(well.line(3), 0b0000000001 << 6);
}

#[test]
fn trace_down_is_idempotent() {
    let well = Well::from_data(10, &[0, 0, 0, 0b0000110000, 0b1111111111]);
    let sprite = Sprite { pix: [0b0000, 0b0110, 0b0110, 0b0000] };
    let rest = well.trace_down(&sprite, Point::new(3, 5));
    assert_eq!(rest, Point::new(3, 4));
    assert_eq!(well.trace_down(&sprite, rest), rest);
}

#[test]
fn test_bounds() {
    let well = Well::new(10, 6);
    let sprite = Sprite { pix: [0b0000, 0b0110, 0b0110, 0b0000] };
    assert!(well.test(&sprite, Point::new(-4, 3)));
    assert!(well.test(&sprite, Point::new(10, 3)));
    assert!(well.test(&sprite, Point::new(3, -1)));
    assert!(!well.test(&sprite, Point::new(9, 10)));
    assert!(well.test(&sprite, Point::new(-2, 3)));
    assert!(!well.test(&sprite, Point::new(-1, 3)));
    assert!(well.test(&sprite, Point::new(8, 3)));
    assert!(well.test(&sprite, Point::new(3, 1)));
}

#[test]
fn wall_kick_takes_first_fitting_offset() {
    let well = Well::from_data(10, &[0, 0, 0, 0, 0b0000110000, 0b0000110000]);
    let sprite = Sprite { pix: [0b0000, 0b0110, 0b0110, 0b0000] };
    let kicks = [Point::new(0, 0), Point::new(-1, 0), Point::new(-2, 0), Point::new(3, 0)];
    // The O sprite at x = 2 overlaps the blocks; one and two to the left both fit.
    assert!(well.test(&sprite, Point::new(2, 2)));
    assert!(!well.test(&sprite, Point::new(1, 2)));
    assert!(!well.test(&sprite, Point::new(0, 2)));
    assert_eq!(well.wall_kick(&sprite, &kicks, Point::new(2, 2)), Some(Point::new(1, 2)));
    assert_eq!(well.wall_kick(&sprite, &kicks[..1], Point::new(2, 2)), None);
}

#[test]
fn lines_set_remove_insert() {
    let mut well = Well::from_data(10, &[0, 0b0000000001, 0b1100010001, 0b1101110001]);
    assert_eq!(well.lines().len(), 4);
    assert_eq!(well.lines()[0], 0b1101110001 << 6);
    let removed = well.remove_line(0);
    assert_eq!(removed, 0b1101110001 << 6);
    assert_eq!(well.line(0), 0b1100010001 << 6);
    assert_eq!(well.line(3), 0);
    let bumped = well.insert_line(0, removed);
    assert_eq!(bumped, 0);
    assert_eq!(well.line(0), 0b1101110001 << 6);
    assert_eq!(well.line(2), 0b0000000001 << 6);
    let erased = well.set_line(3, 0b1000000000 << 6);
    assert_eq!(erased, 0);
    assert!(well.test_line(3));
    assert_eq!(well.width(), 10);
    assert_eq!(well.height(), 4);
}

#[test]
fn holes_reached_from_below() {
    // The empty top-right cell is reached from the seed through the row below.
    let well = Well::from_data(6, &[0b111010, 0b100000, 0b100000, 0b100000]);
    assert_eq!(well.count_holes(), 0);
    let mut filled = well;
    filled.flood_fill(Point::new(3, 3));
    assert_eq!(filled.count_blocks(), 24);
}
