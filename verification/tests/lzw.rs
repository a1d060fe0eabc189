use gif_controls_decoder::{LZWError, LZWIterator, NextSeqResult};

/// Packs codes of the given widths into bytes, the first bit lowest.
fn pack(codes: &[(usize, u8)]) -> Vec<u8> {
    let mut out = vec![];
    let mut acc: u64 = 0;
    let mut filled = 0;
    for &(code, width) in codes {
        acc |= (code as u64) << filled;
        filled += u32::from(width);
        while filled >= 8 {
            out.push((acc & 0xff) as u8);
            acc >>= 8;
            filled -= 8;
        }
    }
    if filled > 0 {
        out.push((acc & 0xff) as u8);
    }
    out
}

/// Compresses `indices` as an encoder of GIF data does: a clear code first,
/// an end code last, codes that widen as the table grows. With `clear_every`
/// set, a clear code follows every so many codes. A full table stays as it
/// is.
fn compress(indices: &[u8], min_code_size: u8, clear_every: Option<usize>) -> Vec<u8> {
    let clear = 1usize << min_code_size;
    let end = clear + 1;
    let mut codes = vec![];
    let mut width = min_code_size + 1;
    let mut table: Vec<Vec<u8>> = (0..clear).map(|i| vec![i as u8]).collect();
    table.push(vec![]);
    table.push(vec![]);
    codes.push((clear, width));
    let mut run: Vec<u8> = vec![];
    let mut emitted = 0;
    let find = |table: &Vec<Vec<u8>>, run: &Vec<u8>| table.iter().position(|e| e == run);
    for &index in indices {
        let mut longer = run.clone();
        longer.push(index);
        if find(&table, &longer).is_some() {
            run = longer;
            continue;
        }
        codes.push((find(&table, &run).unwrap(), width));
        emitted += 1;
        if table.len() < 4096 {
            table.push(longer);
            if table.len() > (1 << width) && width < 12 {
                width += 1;
            }
        }
        if clear_every.is_some_and(|n| emitted % n == 0) {
            codes.push((clear, width));
            table.truncate(clear + 2);
            width = min_code_size + 1;
        }
        run = vec![index];
    }
    if !run.is_empty() {
        codes.push((find(&table, &run).unwrap(), width));
    }
    codes.push((end, width));
    pack(&codes)
}

fn decompress(data: Vec<u8>, min_code_size: u8) -> Result<Vec<u8>, LZWError> {
    let mut lzw = LZWIterator::new(data, min_code_size)?;
    let mut out = vec![];
    while let Some(run) = lzw.next() {
        out.extend(run?);
    }
    Ok(out)
}

fn noise(len: usize, colors: u32, seed: u32) -> Vec<u8> {
    let mut state = seed;
    (0..len)
        .map(|_| {
            state = state.wrapping_mul(1103515245).wrapping_add(12345) % (1 << 31);
            ((state >> 16) % colors) as u8
        })
        .collect()
}

#[test]
fn code_sizes_outside_two_to_eight_are_refused() {
    for size in [0u8, 1, 9, 255] {
        match LZWIterator::new(vec![], size) {
            Err(LZWError::CodeSizeOutOfRange(got)) => assert_eq!(got, size),
            Err(e) => panic!("unexpected error {:?}", e),
            Ok(_) => panic!("code size {} was accepted", size),
        }
    }
}

#[test]
fn code_sizes_two_to_eight_are_accepted() {
    for size in 2u8..=8 {
        let lzw = LZWIterator::new(vec![], size).ok().unwrap();
        assert_eq!(lzw.min_code_size, size);
        assert_eq!(lzw.cur_code_size, size + 1);
        assert_eq!(lzw.clear_code, 1 << size);
        assert_eq!(lzw.end_code, (1 << size) + 1);
        assert_eq!(lzw.code_table.len(), (1 << size) + 2);
        assert_eq!(lzw.prev_code, None);
        assert!(!lzw.finished);
        for i in 0..(1usize << size) {
            assert_eq!(lzw.code_table[i], vec![i as u8]);
        }
        assert!(lzw.code_table[1 << size].is_empty());
        assert!(lzw.code_table[(1 << size) + 1].is_empty());
    }
}

#[test]
fn a_known_stream_gives_its_picture() {
    let data = vec![
        0x8c, 0x2d, 0x99, 0x87, 0x2a, 0x1c, 0xdc, 0x33, 0xa0, 0x02, 0x75, 0xec, 0x95, 0xfa, 0xa8,
        0xde, 0x60, 0x8c, 0x04, 0x91, 0x4c, 0x01,
    ];
    let rows: [[u8; 10]; 10] = [
        [1, 1, 1, 1, 1, 2, 2, 2, 2, 2],
        [1, 1, 1, 1, 1, 2, 2, 2, 2, 2],
        [1, 1, 1, 1, 1, 2, 2, 2, 2, 2],
        [1, 1, 1, 0, 0, 0, 0, 2, 2, 2],
        [1, 1, 1, 0, 0, 0, 0, 2, 2, 2],
        [2, 2, 2, 0, 0, 0, 0, 1, 1, 1],
        [2, 2, 2, 0, 0, 0, 0, 1, 1, 1],
        [2, 2, 2, 2, 2, 1, 1, 1, 1, 1],
        [2, 2, 2, 2, 2, 1, 1, 1, 1, 1],
        [2, 2, 2, 2, 2, 1, 1, 1, 1, 1],
    ];
    assert_eq!(decompress(data, 2).unwrap(), rows.concat());
}

#[test]
fn runs_come_out_one_code_at_a_time() {
    // clear, 1, 6 (the entry that this very step adds: 1 1), 2, end
    let data = pack(&[(4, 3), (1, 3), (6, 3), (2, 3), (5, 3)]);
    let mut lzw = LZWIterator::new(data, 2).unwrap();
    assert_eq!(lzw.next().unwrap().unwrap(), vec![1]);
    assert_eq!(lzw.next().unwrap().unwrap(), vec![1, 1]);
    assert_eq!(lzw.next().unwrap().unwrap(), vec![2]);
    assert!(lzw.next().is_none());
    assert!(lzw.finished);
    assert!(lzw.next().is_none());
}

#[test]
fn each_step_tells_what_its_code_was() {
    let data = pack(&[(4, 3), (3, 3), (0, 3), (4, 3), (2, 3), (5, 3), (1, 3)]);
    let mut lzw = LZWIterator::new(data, 2).unwrap();
    assert!(matches!(lzw.next_sequence(), NextSeqResult::ClearCode));
    assert!(matches!(lzw.next_sequence(), NextSeqResult::Sequence(run) if run == [3]));
    assert_eq!(lzw.prev_code, Some(3));
    assert_eq!(lzw.code_table.len(), 6);
    assert!(matches!(lzw.next_sequence(), NextSeqResult::Sequence(run) if run == [0]));
    assert_eq!(lzw.code_table.len(), 7);
    assert_eq!(lzw.code_table[6], vec![3, 0]);
    assert!(matches!(lzw.next_sequence(), NextSeqResult::ClearCode));
    assert_eq!(lzw.code_table.len(), 6);
    assert_eq!(lzw.prev_code, None);
    assert_eq!(lzw.cur_code_size, 3);
    assert!(matches!(lzw.next_sequence(), NextSeqResult::Sequence(run) if run == [2]));
    assert!(matches!(lzw.next_sequence(), NextSeqResult::EndCode));
    assert!(lzw.finished);
}

#[test]
fn the_width_grows_with_the_table() {
    // With a minimum code size of 2 the table starts with 6 entries. The
    // second and the third plain code add the entries 6 and 7; with 8
    // entries the codes take 4 bits.
    let data = pack(&[(4, 3), (0, 3), (1, 3), (2, 3), (7, 4), (5, 4)]);
    let mut lzw = LZWIterator::new(data, 2).unwrap();
    assert_eq!(lzw.next().unwrap().unwrap(), vec![0]);
    assert_eq!(lzw.cur_code_size, 3);
    assert_eq!(lzw.next().unwrap().unwrap(), vec![1]);
    assert_eq!(lzw.cur_code_size, 3);
    assert_eq!(lzw.next().unwrap().unwrap(), vec![2]);
    assert_eq!(lzw.code_table.len(), 8);
    assert_eq!(lzw.cur_code_size, 4);
    assert_eq!(lzw.next().unwrap().unwrap(), vec![1, 2]);
    assert!(lzw.next().is_none());
}

#[test]
fn a_clear_code_in_the_middle_resets_decoding() {
    let indices = noise(300, 4, 7);
    let data = compress(&indices, 2, Some(5));
    assert_eq!(decompress(data, 2).unwrap(), indices);

    // What follows a clear code does not depend on what came before it.
    // By the time of its second clear code the longer stream has widened
    // its codes to 4 bits.
    let tail = [(2usize, 3u8), (6, 3), (0, 3), (5, 3)];
    let mut alone = vec![(4usize, 3u8)];
    alone.extend(tail);
    let mut with_history = vec![(4usize, 3u8), (1, 3), (6, 3), (7, 3), (3, 4), (4, 4)];
    with_history.extend(tail);
    let fresh = decompress(pack(&alone), 2).unwrap();
    let later = decompress(pack(&with_history), 2).unwrap();
    assert_eq!(fresh, vec![2, 2, 2, 0]);
    assert_eq!(later, vec![1, 1, 1, 1, 1, 1, 3, 2, 2, 2, 0]);
}

#[test]
fn a_code_beyond_the_table_is_out_of_bounds() {
    // After the first plain code the table still has 6 entries, and the next
    // code may be 6 at most.
    let data = pack(&[(4, 3), (1, 3), (7, 3)]);
    let mut lzw = LZWIterator::new(data, 2).unwrap();
    assert_eq!(lzw.next().unwrap().unwrap(), vec![1]);
    match lzw.next() {
        Some(Err(LZWError::CodeOutOfBounds(code, len))) => {
            assert_eq!(code, 7);
            assert_eq!(len, 6);
        }
        other => panic!("unexpected {:?}", other),
    }
    // The table is as it was before the code.
    assert_eq!(lzw.code_table.len(), 6);
    assert_eq!(lzw.prev_code, Some(1));
}

#[test]
fn the_size_in_the_error_is_that_before_the_step() {
    let data = pack(&[(4, 3), (0, 3), (1, 3), (2, 3), (9, 4)]);
    match decompress(data, 2) {
        Err(LZWError::CodeOutOfBounds(9, 8)) => {}
        other => panic!("unexpected {:?}", other),
    }
}

#[test]
fn a_first_code_that_names_no_entry_is_out_of_bounds() {
    // Right after a clear code there is no previous run to build entry 6
    // from.
    let data = pack(&[(4, 3), (6, 3)]);
    match decompress(data, 2) {
        Err(LZWError::CodeOutOfBounds(6, 6)) => {}
        other => panic!("unexpected {:?}", other),
    }
    let data = pack(&[(6, 3)]);
    match decompress(data, 2) {
        Err(LZWError::CodeOutOfBounds(6, 6)) => {}
        other => panic!("unexpected {:?}", other),
    }
}

#[test]
fn data_that_stops_short_ends_the_stream() {
    let indices = noise(40, 8, 3);
    let whole = compress(&indices, 3, None);
    let cut = whole[..whole.len() / 2].to_vec();
    let got = decompress(cut, 3).unwrap();
    assert!(got.len() < indices.len());
    assert_eq!(got[..], indices[..got.len()]);

    let mut lzw = LZWIterator::new(vec![], 4).unwrap();
    assert!(lzw.next().is_none());
    assert!(!lzw.finished);
    assert!(lzw.next().is_none());
}

#[test]
fn what_follows_the_end_code_is_not_read() {
    let data = pack(&[(4, 3), (1, 3), (5, 3), (2, 3), (3, 3)]);
    assert_eq!(decompress(data, 2).unwrap(), vec![1]);
}

#[test]
fn streams_of_every_code_size_come_back() {
    for size in 2u8..=8 {
        let indices = noise(700, 1 << size, u32::from(size));
        let data = compress(&indices, size, None);
        assert_eq!(decompress(data, size).unwrap(), indices);
    }
}

#[test]
fn the_table_stops_at_4096_entries() {
    let indices = noise(9000, 256, 99);
    let data = compress(&indices, 8, None);
    let mut lzw = LZWIterator::new(data, 8).unwrap();
    let mut out = vec![];
    let mut largest = 0;
    while let Some(run) = lzw.next() {
        out.extend(run.unwrap());
        largest = largest.max(lzw.code_table.len());
        assert!(lzw.cur_code_size <= 12);
    }
    assert_eq!(largest, 4096);
    assert_eq!(out, indices);
}

#[test]
fn handle_clear_code_restores_the_start() {
    let data = pack(&[(4, 3), (0, 3), (1, 3), (2, 3), (3, 4)]);
    let mut lzw = LZWIterator::new(data, 2).unwrap();
    for _ in 0..4 {
        lzw.next();
    }
    assert_eq!(lzw.code_table.len(), 9);
    assert_eq!(lzw.cur_code_size, 4);
    lzw.handle_clear_code();
    assert_eq!(lzw.code_table.len(), 6);
    assert_eq!(lzw.cur_code_size, 3);
    assert_eq!(lzw.prev_code, None);
    assert_eq!(lzw.code_table[3], vec![3]);
}
