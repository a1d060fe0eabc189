use gif_controls_decoder::frame::packed_palette_size;
use gif_controls_decoder::{
    Canvas, Color, DecodeError, DisposalMethod, FrameDecoder, GifFrame, IoErrorKind, Reader,
};

#[test]
fn disposal_codes() {
    for code in 0..=255u8 {
        let expected = match code {
            2 => DisposalMethod::RestoreBackground,
            3 => DisposalMethod::RestorePrevious,
            _ => DisposalMethod::Keep,
        };
        assert_eq!(DisposalMethod::from_u8(code), expected);
    }
    assert_eq!(DisposalMethod::default(), DisposalMethod::Keep);
}

#[test]
fn palette_sizes() {
    for packed in 0..=255u8 {
        assert_eq!(packed_palette_size(packed), 2usize << (packed & 7));
    }
    assert_eq!(packed_palette_size(0x00), 2);
    assert_eq!(packed_palette_size(0x81), 4);
    assert_eq!(packed_palette_size(0xf7), 256);
}

#[test]
fn a_fresh_frame_state() {
    let fdec = FrameDecoder::default();
    assert_eq!(fdec.transparency_idx, None);
    assert!(fdec.palette.is_none());
    assert!(!fdec.interlaced);
    assert_eq!((fdec.left, fdec.top, fdec.width, fdec.height, fdec.delay), (0, 0, 0, 0, 0));
    assert_eq!(fdec.disposal_method, DisposalMethod::Keep);
    assert_eq!((fdec.frame.width, fdec.frame.height), (0, 0));
    assert!(fdec.frame.data.is_empty());
}

#[test]
fn a_graphics_control_extension() {
    // Disposal code 2 in bits 2 to 4, the transparency flag, a delay of
    // 0x0201, the transparent index 7.
    let data = [4, 0b0000_1001, 0x01, 0x02, 7, 0, 0xaa];
    let mut rdr = Reader::new(&data);
    let mut fdec = FrameDecoder::default();
    fdec.read_gfx_ctrl_ext(&mut rdr).unwrap();
    assert_eq!(fdec.disposal_method, DisposalMethod::RestoreBackground);
    assert_eq!(fdec.delay, 0x0201);
    assert_eq!(fdec.transparency_idx, Some(7));
    assert_eq!(rdr.pos, 6);
}

#[test]
fn the_disposal_code_is_three_bits_wide() {
    for packed in 0..=255u8 {
        let data = [4, packed, 0, 0, 0, 0];
        let mut rdr = Reader::new(&data);
        let mut fdec = FrameDecoder::default();
        fdec.read_gfx_ctrl_ext(&mut rdr).unwrap();
        assert_eq!(fdec.disposal_method, DisposalMethod::from_u8((packed >> 2) & 7));
        assert_eq!(fdec.transparency_idx, if packed & 1 == 1 { Some(0) } else { None });
    }
}

#[test]
fn a_transparent_index_stays_until_it_is_replaced() {
    let mut fdec = FrameDecoder::default();
    let first = [4, 1, 5, 0, 9, 0];
    fdec.read_gfx_ctrl_ext(&mut Reader::new(&first)).unwrap();
    assert_eq!(fdec.transparency_idx, Some(9));
    // A second extension without the flag changes delay and disposal only.
    let second = [4, 0b0000_1100, 6, 0, 3, 0];
    fdec.read_gfx_ctrl_ext(&mut Reader::new(&second)).unwrap();
    assert_eq!(fdec.transparency_idx, Some(9));
    assert_eq!(fdec.delay, 6);
    assert_eq!(fdec.disposal_method, DisposalMethod::RestorePrevious);
    let third = [4, 1, 6, 0, 3, 0];
    fdec.read_gfx_ctrl_ext(&mut Reader::new(&third)).unwrap();
    assert_eq!(fdec.transparency_idx, Some(3));
}

#[test]
fn a_short_control_block_is_passed_over() {
    for data in [vec![0], vec![3, 0xff, 0xff, 0xff, 0], vec![1, 9, 2, 9, 9, 0]] {
        let mut rdr = Reader::new(&data);
        let mut fdec = FrameDecoder::default();
        fdec.read_gfx_ctrl_ext(&mut rdr).unwrap();
        assert_eq!(fdec.disposal_method, DisposalMethod::Keep);
        assert_eq!(fdec.delay, 0);
        assert_eq!(fdec.transparency_idx, None);
        assert_eq!(rdr.pos, data.len());
    }
}

#[test]
fn the_sub_blocks_of_a_control_extension_count_as_one() {
    let data = [2, 0b0000_1101, 0x10, 2, 0x00, 0x05, 1, 0xee, 0];
    let mut rdr = Reader::new(&data);
    let mut fdec = FrameDecoder::default();
    fdec.read_gfx_ctrl_ext(&mut rdr).unwrap();
    assert_eq!(fdec.disposal_method, DisposalMethod::RestorePrevious);
    assert_eq!(fdec.delay, 0x0010);
    assert_eq!(fdec.transparency_idx, Some(5));
}

#[test]
fn a_control_extension_without_its_end_fails() {
    let data = [4, 1, 0, 0, 0];
    let mut fdec = FrameDecoder::default();
    assert!(matches!(
        fdec.read_gfx_ctrl_ext(&mut Reader::new(&data)),
        Err(DecodeError::IO(IoErrorKind::UnexpectedEof))
    ));
}

#[test]
fn an_image_descriptor() {
    let data = [0x02, 0x01, 0x04, 0x03, 0x03, 0x00, 0x02, 0x00, 0x00, 0xaa];
    let mut rdr = Reader::new(&data);
    let mut fdec = FrameDecoder::default();
    fdec.read_image_descriptor(&mut rdr).unwrap();
    assert_eq!(fdec.left, 0x0102);
    assert_eq!(fdec.top, 0x0304);
    assert_eq!(fdec.width, 3);
    assert_eq!(fdec.height, 2);
    assert!(!fdec.interlaced);
    assert!(fdec.palette.is_none());
    assert_eq!((fdec.frame.width, fdec.frame.height), (3, 2));
    assert_eq!(fdec.frame.data, vec![Color::transparent(); 6]);
    assert_eq!(rdr.pos, 9);
}

#[test]
fn an_image_descriptor_with_a_palette() {
    let data = [0, 0, 0, 0, 1, 0, 1, 0, 0x80, 1, 2, 3, 4, 5, 6, 0xaa];
    let mut rdr = Reader::new(&data);
    let mut fdec = FrameDecoder::default();
    fdec.read_image_descriptor(&mut rdr).unwrap();
    let palette = fdec.palette.unwrap();
    assert_eq!(palette.table, vec![Color::rgb(1, 2, 3), Color::rgb(4, 5, 6)]);
    assert_eq!(rdr.pos, 15);
}

#[test]
fn any_of_three_bits_marks_a_frame_as_interlaced() {
    for packed in 0..=127u8 {
        let data = [0, 0, 0, 0, 0, 0, 0, 0, packed];
        let mut fdec = FrameDecoder::default();
        fdec.read_image_descriptor(&mut Reader::new(&data)).unwrap();
        assert_eq!(fdec.interlaced, packed & 0x70 != 0);
        assert!(fdec.palette.is_none());
    }
}

#[test]
fn an_image_descriptor_that_is_cut_short_fails() {
    let data = [0, 0, 0, 0, 1, 0, 1, 0, 0x81, 1, 2, 3, 4, 5, 6, 7, 8, 9, 10, 11, 12];
    for cut in 0..data.len() {
        let mut fdec = FrameDecoder::default();
        assert!(matches!(
            fdec.read_image_descriptor(&mut Reader::new(&data[..cut])),
            Err(DecodeError::IO(IoErrorKind::UnexpectedEof))
        ));
    }
    let mut fdec = FrameDecoder::default();
    fdec.read_image_descriptor(&mut Reader::new(&data)).unwrap();
    assert_eq!(fdec.palette.unwrap().table.len(), 4);
}

#[test]
fn a_frame_holds_the_canvas_in_rgba() {
    let fdec = FrameDecoder {
        transparency_idx: Some(1),
        palette: None,
        interlaced: true,
        left: 1,
        top: 2,
        width: 3,
        height: 4,
        delay: 5,
        disposal_method: DisposalMethod::RestorePrevious,
        frame: Canvas::from_bg_color(Color::transparent(), 3, 4),
    };
    let cvs = Canvas {
        width: 2,
        height: 2,
        data: vec![Color::rgb(1, 2, 3), Color::transparent(), Color(7, 8, 9, false), Color::rgb(0, 0, 0)],
    };
    let frame = GifFrame::new(&fdec, cvs);
    assert_eq!((frame.left, frame.top, frame.width, frame.height, frame.delay), (1, 2, 3, 4, 5));
    assert_eq!(frame.image_data, vec![1, 2, 3, 255, 0, 0, 0, 0, 0, 0, 0, 0, 0, 0, 0, 255]);
    let copy = frame.clone();
    assert_eq!((copy.left, copy.top, copy.width, copy.height, copy.delay), (1, 2, 3, 4, 5));
    assert_eq!(copy.image_data, frame.image_data);
}

#[test]
fn a_frame_of_an_empty_canvas_holds_no_bytes() {
    let frame = GifFrame::new(&FrameDecoder::default(), Canvas::from_bg_color(Color::rgb(1, 1, 1), 0, 0));
    assert!(frame.image_data.is_empty());
}
