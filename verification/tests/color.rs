use gif_controls_decoder::{Color, ColorTable, DecodeError, IoErrorKind, Reader};

#[test]
fn an_opaque_color_has_full_alpha() {
    assert_eq!(Color::rgb(1, 2, 3).into_arr(), [1, 2, 3, 255]);
    assert_eq!(Color::rgb(0, 0, 0).into_arr(), [0, 0, 0, 255]);
    assert!(!Color::rgb(1, 2, 3).is_transparent());
}

#[test]
fn a_transparent_color_is_all_zeroes() {
    assert_eq!(Color::transparent().into_arr(), [0, 0, 0, 0]);
    assert!(Color::transparent().is_transparent());
    // Whatever channels a transparent color carries, they do not show.
    assert_eq!(Color(9, 8, 7, false).into_arr(), [0, 0, 0, 0]);
}

#[test]
fn the_default_color_is_opaque_black() {
    assert_eq!(Color::default(), Color(0, 0, 0, true));
    assert_eq!(Color::default().into_arr(), [0, 0, 0, 255]);
}

#[test]
fn the_null_palette_is_256_times_black() {
    let table = ColorTable::null();
    assert_eq!(table.table.len(), 256);
    for i in 0..256 {
        assert_eq!(table.get(i).unwrap(), Color(0, 0, 0, true));
    }
    assert!(matches!(table.get(256), Err(DecodeError::ColorTableOutOfBounds)));
}

#[test]
fn a_palette_is_read_as_rgb_triples() {
    let data = [9, 1, 2, 3, 4, 5, 6, 7];
    let mut rdr = Reader::new(&data);
    rdr.read_u8().unwrap();
    let table = ColorTable::read(&mut rdr, 2).unwrap();
    assert_eq!(table.table, vec![Color(1, 2, 3, true), Color(4, 5, 6, true)]);
    assert_eq!(rdr.pos, 7);
    assert_eq!(table.get(0).unwrap(), Color::rgb(1, 2, 3));
    assert_eq!(table.get(1).unwrap(), Color::rgb(4, 5, 6));
    assert!(matches!(table.get(2), Err(DecodeError::ColorTableOutOfBounds)));
    assert!(matches!(table.get(usize::MAX), Err(DecodeError::ColorTableOutOfBounds)));
}

#[test]
fn a_palette_of_no_colors_reads_nothing() {
    let data = [1, 2, 3];
    let mut rdr = Reader::new(&data);
    let table = ColorTable::read(&mut rdr, 0).unwrap();
    assert!(table.table.is_empty());
    assert_eq!(rdr.pos, 0);
}

#[test]
fn a_palette_that_is_cut_short_fails_with_the_end_of_the_input() {
    let data = [1, 2, 3, 4, 5];
    let mut rdr = Reader::new(&data);
    assert!(matches!(
        ColorTable::read(&mut rdr, 2),
        Err(DecodeError::IO(IoErrorKind::UnexpectedEof))
    ));
}
