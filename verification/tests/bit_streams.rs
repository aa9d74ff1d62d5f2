use lsb_steg::{FileBitReader, FileBitWriter, StreamError};

#[test]
fn read_bit_takes_the_least_significant_bit_first() {
    let mut reader = FileBitReader::open(vec![0xA5]);
    let mut seen = Vec::new();
    for _ in 0..8 {
        seen.push(reader.read_bit().unwrap());
    }
    assert_eq!(seen, vec![1, 0, 1, 0, 0, 1, 0, 1]);
}

#[test]
fn read_bit_fails_at_the_end() {
    let mut reader = FileBitReader::open(vec![0x01]);
    for _ in 0..8 {
        assert!(reader.read_bit().is_ok());
    }
    assert_eq!(reader.read_bit(), Err(StreamError::UnexpectedEof));
    assert_eq!(reader.read_bit(), Err(StreamError::UnexpectedEof));
}

#[test]
fn read_bit_fails_on_an_empty_stream() {
    let mut reader = FileBitReader::open(Vec::new());
    assert_eq!(reader.size(), 0);
    assert_eq!(reader.read_bit(), Err(StreamError::UnexpectedEof));
}

#[test]
fn size_counts_bytes() {
    let reader = FileBitReader::open(vec![1, 2, 3, 4, 5]);
    assert_eq!(reader.size(), 5);
}

#[test]
fn read_bits_puts_the_first_bit_lowest() {
    // 0xA5, 0x0F as a bit stream: 1 0 1 0 0 1 0 1  1 1 1 1 0 0 0 0
    let mut reader = FileBitReader::open(vec![0xA5, 0x0F]);
    assert_eq!(reader.read_bits(3), Ok(5));
    assert_eq!(reader.read_bits(7), Ok(116));
    assert_eq!(reader.read_bits(6), Ok(0b000011));
}

#[test]
fn read_bits_of_eight_returns_whole_bytes() {
    let mut reader = FileBitReader::open(vec![0x00, 0xFF, 0x5A]);
    assert_eq!(reader.read_bits(8), Ok(0x00));
    assert_eq!(reader.read_bits(8), Ok(0xFF));
    assert_eq!(reader.read_bits(8), Ok(0x5A));
}

#[test]
fn read_bits_across_a_byte_boundary() {
    let mut reader = FileBitReader::open(vec![0x80, 0x01]);
    assert_eq!(reader.read_bits(7), Ok(0));
    assert_eq!(reader.read_bits(2), Ok(3));
    assert_eq!(reader.read_bits(7), Ok(0));
}

#[test]
fn read_bits_fails_when_too_few_bits_are_left() {
    let mut reader = FileBitReader::open(vec![0xFF, 0xFF]);
    assert_eq!(reader.read_bits(5), Ok(31));
    assert_eq!(reader.read_bits(5), Ok(31));
    assert_eq!(reader.read_bits(7), Err(StreamError::UnexpectedEof));
    // the failed read consumed what was left
    assert_eq!(reader.read_bit(), Err(StreamError::UnexpectedEof));
}

#[test]
fn finish_of_nothing_is_empty() {
    let writer = FileBitWriter::open();
    assert_eq!(writer.finish(), Vec::<u8>::new());
}

#[test]
fn write_bit_fills_bytes_from_the_lowest_bit() {
    let mut writer = FileBitWriter::open();
    for bit in [1u8, 0, 1, 0, 0, 1, 0, 1] {
        writer.write_bit(bit);
    }
    assert_eq!(writer.finish(), vec![0xA5]);
}

#[test]
fn write_bits_writes_the_low_bits_only() {
    let mut writer = FileBitWriter::open();
    writer.write_bits(0xFF, 3);
    assert_eq!(writer.finish(), vec![0x07]);
}

#[test]
fn write_bits_in_groups() {
    let mut writer = FileBitWriter::open();
    writer.write_bits(5, 3);
    writer.write_bits(116, 7);
    assert_eq!(writer.finish(), vec![0xA5, 0x03]);
}

#[test]
fn finish_pads_the_last_byte_with_zero_bits() {
    for k in 1usize..=40 {
        let mut writer = FileBitWriter::open();
        for _ in 0..k {
            writer.write_bit(1);
        }
        let bytes = writer.finish();
        assert_eq!(bytes.len(), (k + 7) / 8);
        let used = k % 8;
        let last = *bytes.last().unwrap();
        if used == 0 {
            assert_eq!(last, 0xFF);
        } else {
            assert_eq!(last, (1u8 << used) - 1);
            assert_eq!(last >> used, 0);
        }
        for full in &bytes[..bytes.len() - 1] {
            assert_eq!(*full, 0xFF);
        }
    }
}

#[test]
fn finish_after_whole_bytes_adds_nothing() {
    let mut writer = FileBitWriter::open();
    writer.write_bits(0x12, 8);
    writer.write_bits(0x34, 8);
    assert_eq!(writer.finish(), vec![0x12, 0x34]);
}

#[test]
fn groups_written_are_read_back() {
    let groups: [(u8, u8); 7] = [(5, 3), (19, 5), (0xC3, 8), (1, 1), (100, 7), (0, 2), (63, 6)];
    let mut writer = FileBitWriter::open();
    for (value, size) in groups {
        writer.write_bits(value, size);
    }
    let bytes = writer.finish();
    assert_eq!(bytes.len(), 4);
    let mut reader = FileBitReader::open(bytes);
    for (value, size) in groups {
        assert_eq!(reader.read_bits(size), Ok(value));
    }
    assert_eq!(reader.read_bit(), Err(StreamError::UnexpectedEof));
}

#[test]
fn groups_read_back_are_cut_to_their_size() {
    let mut writer = FileBitWriter::open();
    writer.write_bits(0xFF, 4);
    writer.write_bits(0xAB, 4);
    let bytes = writer.finish();
    assert_eq!(bytes, vec![0xBF]);
    let mut reader = FileBitReader::open(bytes);
    assert_eq!(reader.read_bits(4), Ok(0x0F));
    assert_eq!(reader.read_bits(4), Ok(0x0B));
}

#[test]
fn bytes_survive_writer_and_reader() {
    let payload: Vec<u8> = (0u16..256).map(|v| v as u8).collect();
    let mut reader = FileBitReader::open(payload.clone());
    let mut writer = FileBitWriter::open();
    // 2048 bits = 292 groups of 7 and one of 4
    for _ in 0..292 {
        writer.write_bits(reader.read_bits(7).unwrap(), 7);
    }
    writer.write_bits(reader.read_bits(4).unwrap(), 4);
    assert_eq!(writer.finish(), payload);
}
