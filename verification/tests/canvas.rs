use gif_controls_decoder::{Canvas, Color, ColorTable, DecodeError, IoErrorKind, LZWError, Reader};

const T: Color = Color(0, 0, 0, false);

fn c(n: u8) -> Color {
    Color(n, n, n, true)
}

fn canvas(width: usize, height: usize, data: Vec<Color>) -> Canvas {
    assert_eq!(data.len(), width * height);
    Canvas { width, height, data }
}

/// Packs codes of the given widths into bytes, the first bit lowest.
fn pack(codes: &[(usize, u8)]) -> Vec<u8> {
    let mut bits = vec![];
    for &(code, width) in codes {
        for i in 0..width {
            bits.push((code >> i) & 1 == 1);
        }
    }
    bits.chunks(8)
        .map(|byte| byte.iter().enumerate().map(|(i, &b)| (b as u8) << i).sum())
        .collect()
}

/// Frame data: the minimum code size 2, then `codes` in one sub-block.
fn frame_data(codes: &[(usize, u8)]) -> Vec<u8> {
    let packed = pack(codes);
    let mut data = vec![2, packed.len() as u8];
    data.extend(packed);
    data.push(0);
    data
}

fn palette(n: u8) -> ColorTable {
    ColorTable { table: (0..n).map(|i| c(10 + i)).collect() }
}

#[test]
fn a_canvas_of_one_color() {
    let cvs = Canvas::from_bg_color(c(5), 3, 2);
    assert_eq!(cvs.width, 3);
    assert_eq!(cvs.height, 2);
    assert_eq!(cvs.data, vec![c(5); 6]);
    let none = Canvas::from_bg_color(c(5), 0, 7);
    assert!(none.data.is_empty());
    assert_eq!((none.width, none.height), (0, 7));
}

#[test]
fn blit_draws_at_the_offset() {
    let dst = Canvas::from_bg_color(c(0), 4, 3);
    let src = canvas(2, 2, vec![c(1), c(2), c(3), c(4)]);
    let out = dst.blit(&src, 1, 2);
    let expected = vec![
        c(0), c(0), c(0), c(0),
        c(0), c(0), c(1), c(2),
        c(0), c(0), c(3), c(4),
    ];
    assert_eq!(out.data, expected);
    assert_eq!((out.width, out.height), (4, 3));
    // The canvas that was drawn on stays as it was.
    assert_eq!(dst.data, vec![c(0); 12]);
}

#[test]
fn transparent_pixels_leave_what_is_below() {
    let mut dst = canvas(3, 2, vec![c(1), c(2), c(3), c(4), c(5), c(6)]);
    let src = canvas(3, 2, vec![T, c(9), T, c(8), T, T]);
    dst.blit_mut(&src, 0, 0);
    assert_eq!(dst.data, vec![c(1), c(9), c(3), c(8), c(5), c(6)]);
}

#[test]
fn transparent_pixels_do_not_erase() {
    let mut dst = canvas(2, 1, vec![T, c(1)]);
    let src = canvas(2, 1, vec![c(2), T]);
    dst.blit_mut(&src, 0, 0);
    assert_eq!(dst.data, vec![c(2), c(1)]);
    let all_clear = canvas(2, 1, vec![T, T]);
    dst.blit_mut(&all_clear, 0, 0);
    assert_eq!(dst.data, vec![c(2), c(1)]);
}

#[test]
fn what_falls_off_the_canvas_is_cut_off() {
    let src = canvas(3, 3, (1..=9).map(c).collect());
    let mut dst = Canvas::from_bg_color(c(0), 4, 4);
    dst.blit_mut(&src, 2, 2);
    let expected = vec![
        c(0), c(0), c(0), c(0),
        c(0), c(0), c(0), c(0),
        c(0), c(0), c(1), c(2),
        c(0), c(0), c(4), c(5),
    ];
    assert_eq!(dst.data, expected);
}

#[test]
fn a_frame_outside_the_canvas_changes_nothing() {
    let src = canvas(2, 2, vec![c(1); 4]);
    for (top, left) in [(0, 3), (0, 4), (0, 100), (2, 0), (9, 0), (5, 5), (usize::MAX, 0), (0, usize::MAX)] {
        let mut dst = Canvas::from_bg_color(c(0), 3, 2);
        dst.blit_mut(&src, top, left);
        assert_eq!(dst.data, vec![c(0); 6], "at ({}, {})", top, left);
    }
}

#[test]
fn empty_canvases_blit_to_nothing() {
    let mut dst = Canvas::from_bg_color(c(0), 2, 2);
    dst.blit_mut(&Canvas::from_bg_color(c(1), 0, 5), 0, 0);
    dst.blit_mut(&Canvas::from_bg_color(c(1), 5, 0), 0, 0);
    assert_eq!(dst.data, vec![c(0); 4]);
    let mut none = Canvas::from_bg_color(c(0), 0, 0);
    none.blit_mut(&Canvas::from_bg_color(c(1), 2, 2), 0, 0);
    assert!(none.data.is_empty());
}

#[test]
fn the_spans_of_a_rectangle() {
    let cvs = Canvas::from_bg_color(c(0), 5, 4);
    // A rectangle 3 wide and 3 high at row 2, column 3: two rows and two
    // columns of it are on the canvas.
    assert_eq!(cvs.blit_iter(2, 3, 3, 3), vec![(0, 2, 13, 15), (3, 5, 18, 20)]);
    assert_eq!(cvs.blit_iter(0, 0, 5, 1), vec![(0, 5, 0, 5)]);
    assert_eq!(cvs.blit_iter(1, 1, 2, 2), vec![(0, 2, 6, 8), (2, 4, 11, 13)]);
    assert_eq!(cvs.blit_iter(4, 0, 2, 2), vec![]);
    assert_eq!(cvs.blit_iter(0, 5, 2, 2), vec![]);
    assert_eq!(cvs.blit_iter(0, 0, 0, 2), vec![]);
    assert_eq!(cvs.blit_iter(0, 0, 2, 0), vec![]);
}

#[test]
fn a_rectangle_is_cleared_to_transparency() {
    let mut cvs = Canvas::from_bg_color(c(1), 4, 3);
    cvs.clear_rect_mut(1, 1, 2, 1);
    let expected = vec![
        c(1), c(1), c(1), c(1),
        c(1), T,    T,    c(1),
        c(1), c(1), c(1), c(1),
    ];
    assert_eq!(cvs.data, expected);
}

#[test]
fn a_cleared_rectangle_is_cut_off_at_the_canvas() {
    let mut cvs = Canvas::from_bg_color(c(1), 3, 3);
    cvs.clear_rect_mut(2, 1, 10, 10);
    let expected = vec![
        c(1), c(1), c(1),
        c(1), c(1), c(1),
        c(1), T,    T,
    ];
    assert_eq!(cvs.data, expected);
    cvs.clear_rect_mut(0, 0, usize::MAX, usize::MAX);
    assert_eq!(cvs.data, vec![T; 9]);
    let mut other = Canvas::from_bg_color(c(1), 2, 2);
    other.clear_rect_mut(2, 0, 5, 5);
    other.clear_rect_mut(0, 2, 5, 5);
    other.clear_rect_mut(0, 0, 0, 5);
    other.clear_rect_mut(0, 0, 5, 0);
    other.clear_rect_mut(usize::MAX, usize::MAX, usize::MAX, usize::MAX);
    assert_eq!(other.data, vec![c(1); 4]);
}

/// The rows of an interlaced image of the given height, in the order in
/// which they are stored.
fn passes(height: usize) -> Vec<usize> {
    let mut order = vec![];
    order.extend((0..height).step_by(8));
    order.extend((4..height).step_by(8));
    order.extend((2..height).step_by(4));
    order.extend((1..height).step_by(2));
    order
}

#[test]
fn deinterlacing_puts_each_row_in_its_place() {
    for height in 0..40usize {
        let width = 3;
        let order = passes(height);
        assert_eq!(order.len(), height);
        // Row `k` of the stored image holds the row `order[k]` of the
        // picture, each pixel marked with its row and column.
        let stored: Vec<Color> = order
            .iter()
            .flat_map(|&row| (0..width).map(move |col| Color(row as u8, col as u8, 0, true)))
            .collect();
        let picture = canvas(width, height, stored).deinterlaced();
        assert_eq!((picture.width, picture.height), (width, height));
        for row in 0..height {
            for col in 0..width {
                assert_eq!(picture.data[row * width + col], Color(row as u8, col as u8, 0, true));
            }
        }
    }
}

#[test]
fn the_rows_of_an_image_of_eleven_rows() {
    // Stored: rows 0 and 8, then row 4, then rows 2, 6 and 10, then the odd
    // rows.
    let stored_as = [0, 8, 4, 2, 6, 10, 1, 3, 5, 7, 9];
    let stored: Vec<Color> = stored_as.iter().map(|&row| c(row)).collect();
    let picture = canvas(1, 11, stored).deinterlaced();
    assert_eq!(picture.data, (0..11).map(c).collect::<Vec<_>>());
}

#[test]
fn a_canvas_without_columns_deinterlaces_to_itself() {
    let picture = canvas(0, 9, vec![]).deinterlaced();
    assert_eq!((picture.width, picture.height), (0, 9));
    assert!(picture.data.is_empty());
    let picture = canvas(4, 0, vec![]).deinterlaced();
    assert_eq!((picture.width, picture.height), (4, 0));
    assert!(picture.data.is_empty());
}

#[test]
fn a_frame_is_painted_through_the_palette() {
    // clear, 0, 1, 2, 3, end
    let data = frame_data(&[(4, 3), (0, 3), (1, 3), (2, 3), (3, 4), (5, 4)]);
    let mut rdr = Reader::new(&data);
    let cvs = Canvas::from_gif_data(&mut rdr, &palette(4), None, 2, 2).unwrap();
    assert_eq!((cvs.width, cvs.height), (2, 2));
    assert_eq!(cvs.data, vec![c(10), c(11), c(12), c(13)]);
    assert_eq!(rdr.pos, data.len());
}

#[test]
fn the_transparent_index_needs_no_palette_entry() {
    let data = frame_data(&[(4, 3), (0, 3), (3, 3), (3, 3), (1, 4), (5, 4)]);
    let mut rdr = Reader::new(&data);
    // The palette has two colors only; index 3 is the transparent one.
    let cvs = Canvas::from_gif_data(&mut rdr, &palette(2), Some(3), 4, 1).unwrap();
    assert_eq!(cvs.data, vec![c(10), T, T, c(11)]);
    let mut rdr = Reader::new(&data);
    let cvs = Canvas::from_gif_data(&mut rdr, &palette(4), Some(0), 1, 4).unwrap();
    assert_eq!(cvs.data, vec![T, c(13), c(13), c(11)]);
}

#[test]
fn an_index_outside_the_palette_fails_the_frame() {
    let data = frame_data(&[(4, 3), (0, 3), (2, 3), (5, 3)]);
    let mut rdr = Reader::new(&data);
    assert!(matches!(
        Canvas::from_gif_data(&mut rdr, &palette(2), None, 2, 1),
        Err(DecodeError::ColorTableOutOfBounds)
    ));
    let mut rdr = Reader::new(&data);
    assert!(matches!(
        Canvas::from_gif_data(&mut rdr, &palette(2), Some(1), 2, 1),
        Err(DecodeError::ColorTableOutOfBounds)
    ));
}

#[test]
fn too_few_pixels_are_an_underflow() {
    let data = frame_data(&[(4, 3), (0, 3), (1, 3), (5, 3)]);
    let mut rdr = Reader::new(&data);
    assert!(matches!(
        Canvas::from_gif_data(&mut rdr, &palette(4), None, 3, 1),
        Err(DecodeError::FrameUnderflow)
    ));
    // Data that stops short of its end code is tolerated as such, but the
    // frame is still too short.
    let data = frame_data(&[(4, 3), (0, 3), (1, 3)]);
    let mut rdr = Reader::new(&data);
    assert!(matches!(
        Canvas::from_gif_data(&mut rdr, &palette(4), None, 3, 3),
        Err(DecodeError::FrameUnderflow)
    ));
    let data = [2, 0];
    let mut rdr = Reader::new(&data);
    assert!(matches!(
        Canvas::from_gif_data(&mut rdr, &palette(4), None, 1, 1),
        Err(DecodeError::FrameUnderflow)
    ));
}

#[test]
fn too_many_pixels_are_an_overflow() {
    let data = frame_data(&[(4, 3), (0, 3), (1, 3), (5, 3)]);
    let mut rdr = Reader::new(&data);
    assert!(matches!(
        Canvas::from_gif_data(&mut rdr, &palette(4), None, 1, 1),
        Err(DecodeError::FrameOverflow)
    ));
    let mut rdr = Reader::new(&data);
    assert!(matches!(
        Canvas::from_gif_data(&mut rdr, &palette(4), None, 0, 0),
        Err(DecodeError::FrameOverflow)
    ));
}

#[test]
fn a_frame_of_no_pixels_takes_no_data() {
    let data = frame_data(&[(4, 3), (5, 3)]);
    let mut rdr = Reader::new(&data);
    let cvs = Canvas::from_gif_data(&mut rdr, &palette(4), None, 0, 3).unwrap();
    assert!(cvs.data.is_empty());
    assert_eq!((cvs.width, cvs.height), (0, 3));
}

#[test]
fn a_bad_code_size_fails_once_the_data_is_read() {
    for size in [0u8, 1, 9, 255] {
        let data = [size, 1, 0, 0];
        let mut rdr = Reader::new(&data);
        match Canvas::from_gif_data(&mut rdr, &palette(4), None, 1, 1) {
            Err(DecodeError::LZWError(LZWError::CodeSizeOutOfRange(got))) => assert_eq!(got, size),
            other => panic!("unexpected {:?}", other.map(|c| c.data)),
        }
        // Data that is cut short fails before the code size is looked at.
        let data = [size, 1];
        let mut rdr = Reader::new(&data);
        assert!(matches!(
            Canvas::from_gif_data(&mut rdr, &palette(4), None, 1, 1),
            Err(DecodeError::IO(IoErrorKind::UnexpectedEof))
        ));
    }
}

#[test]
fn a_code_out_of_bounds_fails_the_frame() {
    let data = frame_data(&[(4, 3), (1, 3), (7, 3)]);
    let mut rdr = Reader::new(&data);
    assert!(matches!(
        Canvas::from_gif_data(&mut rdr, &palette(4), None, 2, 1),
        Err(DecodeError::LZWError(LZWError::CodeOutOfBounds(7, 6)))
    ));
}

#[test]
fn the_first_failure_in_the_stream_wins() {
    // An index without a color comes before the bad code.
    let data = frame_data(&[(4, 3), (3, 3), (7, 3)]);
    let mut rdr = Reader::new(&data);
    assert!(matches!(
        Canvas::from_gif_data(&mut rdr, &palette(2), None, 2, 1),
        Err(DecodeError::ColorTableOutOfBounds)
    ));
    // A bad code fails the frame even where the pixels before it are
    // already too many.
    let data = frame_data(&[(4, 3), (1, 3), (1, 3), (1, 3), (15, 4)]);
    let mut rdr = Reader::new(&data);
    assert!(matches!(
        Canvas::from_gif_data(&mut rdr, &palette(2), None, 1, 1),
        Err(DecodeError::LZWError(LZWError::CodeOutOfBounds(15, 8)))
    ));
}

#[test]
fn frame_data_without_its_end_fails_with_the_end_of_the_input() {
    let data = frame_data(&[(4, 3), (0, 3), (5, 3)]);
    for cut in 0..data.len() {
        let mut rdr = Reader::new(&data[..cut]);
        assert!(matches!(
            Canvas::from_gif_data(&mut rdr, &palette(4), None, 1, 1),
            Err(DecodeError::IO(IoErrorKind::UnexpectedEof))
        ));
    }
}

#[test]
fn frame_data_may_come_in_many_blocks() {
    let packed = pack(&[(4, 3), (0, 3), (1, 3), (2, 3), (3, 4), (5, 4)]);
    let mut data = vec![2];
    for byte in &packed {
        data.extend([1, *byte]);
    }
    data.push(0);
    let mut rdr = Reader::new(&data);
    let cvs = Canvas::from_gif_data(&mut rdr, &palette(4), None, 2, 2).unwrap();
    assert_eq!(cvs.data, vec![c(10), c(11), c(12), c(13)]);
}

#[test]
fn a_clone_is_the_same_canvas() {
    let cvs = canvas(2, 1, vec![c(1), T]);
    let copy = cvs.clone();
    assert_eq!((copy.width, copy.height), (2, 1));
    assert_eq!(copy.data, cvs.data);
}
