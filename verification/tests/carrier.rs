use lsb_steg::bmp::BMP;
use lsb_steg::{
    FileBitReader, FileBitWriter, Image, ImageDataStream, Pixel, StreamError,
};

fn bitmap_file(width: u32, height: u32, fill: u8) -> Vec<u8> {
    let row = (3 * width as usize + 3) / 4 * 4;
    let mut file = Vec::new();
    file.extend_from_slice(b"BM");
    file.extend_from_slice(&((54 + row * height as usize) as u32).to_le_bytes());
    file.extend_from_slice(&0u32.to_le_bytes());
    file.extend_from_slice(&54u32.to_le_bytes());
    file.extend_from_slice(&40u32.to_le_bytes());
    file.extend_from_slice(&width.to_le_bytes());
    file.extend_from_slice(&height.to_le_bytes());
    file.extend_from_slice(&1u16.to_le_bytes());
    file.extend_from_slice(&24u16.to_le_bytes());
    file.extend_from_slice(&0u32.to_le_bytes());
    file.extend_from_slice(&((row * height as usize) as u32).to_le_bytes());
    file.extend_from_slice(&2835i32.to_le_bytes());
    file.extend_from_slice(&2835i32.to_le_bytes());
    file.extend_from_slice(&0u32.to_le_bytes());
    file.extend_from_slice(&0u32.to_le_bytes());
    for _ in 0..height {
        for _ in 0..3 * width as usize {
            file.push(fill);
        }
        for _ in 3 * width as usize..row {
            file.push(0);
        }
    }
    file
}

fn carrier(width: u32, height: u32, fill: u8) -> ImageDataStream<BMP> {
    ImageDataStream::new(BMP::read(&bitmap_file(width, height, fill)).unwrap())
}

fn embed(stream: &mut ImageDataStream<BMP>, payload: &[u8]) -> Result<(), StreamError> {
    let mut input = FileBitReader::open(payload.to_vec());
    assert!(stream.can_hold(input.size()));
    stream.write_stream(&mut input)
}

fn extract(stream: &ImageDataStream<BMP>) -> Vec<u8> {
    assert!(stream.can_hold(0));
    assert!(stream.can_hold(stream.read_header()));
    let mut output = FileBitWriter::open();
    stream.read_stream(&mut output);
    output.finish()
}

#[test]
fn one_byte_in_a_black_four_by_four() {
    let mut stream = carrier(4, 4, 0);
    assert_eq!(embed(&mut stream, &[0xFF]), Ok(()));

    assert_eq!(stream.read_header(), 1);
    assert_eq!(stream.read_word(0), 1);
    for addr in 1..9 {
        assert_eq!(stream.read_word(addr), 0);
    }
    assert_eq!(stream.read_word(9), 0x7F);
    assert_eq!(stream.read_word(10), 1);
    for addr in 11..16 {
        assert_eq!(stream.read_word(addr), 0);
    }
    assert_eq!(extract(&stream), vec![0xFF]);

    let image = stream.into_inner();
    assert_eq!(*image.pixel(0, 0), Pixel { r: 0, g: 0, b: 1 });
    assert_eq!(*image.pixel(1, 2), Pixel { r: 7, g: 3, b: 3 });
    assert_eq!(*image.pixel(2, 2), Pixel { r: 0, g: 0, b: 1 });
    assert_eq!(*image.pixel(3, 2), Pixel { r: 0, g: 0, b: 0 });
}

#[test]
fn read_word_packs_red_green_blue() {
    let mut stream = carrier(4, 4, 0);
    {
        let pixel = stream.pixel_mut(5);
        pixel.r = 0b1010_1101;
        pixel.g = 0b0101_0110;
        pixel.b = 0b1111_1001;
    }
    // red 101, green 10, blue 01
    assert_eq!(stream.read_word(5), 0b101_10_01);
}

#[test]
fn write_word_keeps_the_high_bits() {
    let mut stream = carrier(4, 4, 0xFF);
    stream.write_word(3, 0);
    assert_eq!(*stream.pixel(3), Pixel { r: 0xF8, g: 0xFC, b: 0xFC });
    stream.write_word(3, 0b010_01_10);
    assert_eq!(*stream.pixel(3), Pixel { r: 0xFA, g: 0xFD, b: 0xFE });
    assert_eq!(stream.read_word(3), 0b010_01_10);
}

#[test]
fn write_word_ignores_the_eighth_bit() {
    let mut stream = carrier(4, 4, 0);
    stream.write_word(2, 0xFF);
    assert_eq!(stream.read_word(2), 0x7F);
    assert_eq!(*stream.pixel(2), Pixel { r: 7, g: 3, b: 3 });
    stream.write_word(2, 0x80);
    assert_eq!(stream.read_word(2), 0);
}

#[test]
fn write_word_touches_one_pixel() {
    let mut stream = carrier(4, 4, 0x55);
    stream.write_word(6, 0x2A);
    for addr in 0..16 {
        if addr != 6 {
            assert_eq!(*stream.pixel(addr), Pixel { r: 0x55, g: 0x55, b: 0x55 });
        }
    }
}

#[test]
fn word_read_and_written_back_changes_nothing() {
    for fill in [0x00u8, 0x3C, 0x81, 0xFF] {
        let mut stream = carrier(4, 4, fill);
        for addr in 0..16 {
            let before = *stream.pixel(addr);
            let word = stream.read_word(addr);
            stream.write_word(addr, word);
            assert_eq!(*stream.pixel(addr), before);
        }
    }
}

#[test]
fn every_word_is_read_back() {
    let mut stream = carrier(4, 4, 0xA7);
    for value in 0u8..128 {
        stream.write_word(11, value);
        assert_eq!(stream.read_word(11), value);
    }
}

#[test]
fn addresses_divide_by_the_height() {
    // six wide, three high: the row of an address is the address over 3
    let mut stream = carrier(6, 3, 0);
    assert_eq!(stream.capacity(), 9);
    stream.write_word(4, 0x7F);
    stream.write_word(8, 0x01);
    let image = stream.into_inner();
    assert_eq!(*image.pixel(4, 1), Pixel { r: 7, g: 3, b: 3 });
    assert_eq!(*image.pixel(2, 2), Pixel { r: 0, g: 0, b: 1 });
    assert_eq!(*image.pixel(4, 0), Pixel { r: 0, g: 0, b: 0 });
}

#[test]
fn addresses_collide_on_a_tall_image() {
    // two wide, four high: addresses 0 and 2 both name the cell (0, 0)
    let mut stream = carrier(2, 4, 0);
    stream.write_word(0, 1);
    stream.write_word(2, 5);
    assert_eq!(stream.read_word(0), 5);
}

#[test]
fn payload_is_lost_where_addresses_collide() {
    // two wide, four high: header word 0 shares its cell with header word
    // 2, and header word 8 shares its cell with the second payload word
    let mut stream = carrier(2, 4, 0);
    assert_eq!(embed(&mut stream, &[0xFF]), Ok(()));
    assert_eq!(stream.read_word(0), 0);
    assert_eq!(stream.read_word(8), 1);
    assert_eq!(stream.read_header(), 1 << 56);
    assert!(!stream.can_hold(stream.read_header()));
}

#[test]
fn capacity_is_the_square_of_the_height() {
    assert_eq!(carrier(4, 4, 0).capacity(), 16);
    assert_eq!(carrier(10, 3, 0).capacity(), 9);
    assert_eq!(carrier(2, 5, 0).capacity(), 25);
    assert_eq!(carrier(0, 5, 0).capacity(), 0);
    assert_eq!(carrier(5, 0, 0).capacity(), 0);
}

#[test]
fn can_hold_counts_header_and_payload_words() {
    let stream = carrier(4, 4, 0);
    // 9 header words and ceil(8 n / 7) payload words in 16
    assert!(stream.can_hold(0));
    assert!(stream.can_hold(6));
    assert!(!stream.can_hold(7));
    assert!(!stream.can_hold(u64::MAX));
    let small = carrier(2, 2, 0);
    assert!(!small.can_hold(0));
}

#[test]
fn header_is_read_back() {
    let mut stream = carrier(3, 3, 0x99);
    for n in [0u64, 1, 127, 128, 300, 0x1234_5678_9ABC, (1 << 62) + 5, (1 << 63) - 1] {
        assert_eq!(stream.write_header(n), Ok(()));
        assert_eq!(stream.read_header(), n);
    }
}

#[test]
fn header_words_are_base_128_digits() {
    let mut stream = carrier(3, 3, 0);
    assert_eq!(stream.write_header(300), Ok(()));
    assert_eq!(stream.read_word(0), 44);
    assert_eq!(stream.read_word(1), 2);
    for addr in 2..9 {
        assert_eq!(stream.read_word(addr), 0);
    }
    assert_eq!(stream.write_header((1 << 63) - 1), Ok(()));
    for addr in 0..9 {
        assert_eq!(stream.read_word(addr), 0x7F);
    }
}

#[test]
fn header_of_two_to_the_63_is_refused() {
    let mut stream = carrier(3, 3, 0);
    assert_eq!(stream.write_header(77), Ok(()));
    assert_eq!(stream.write_header(1 << 63), Err(StreamError::HeaderTooLarge));
    assert_eq!(stream.write_header(u64::MAX), Err(StreamError::HeaderTooLarge));
    assert_eq!(stream.read_header(), 77);
}

#[test]
fn payloads_of_every_length_come_back() {
    for len in 0usize..=40 {
        let payload: Vec<u8> = (0..len).map(|i| (i * 37 + 11) as u8).collect();
        let mut stream = carrier(8, 8, 0xE3);
        assert_eq!(embed(&mut stream, &payload), Ok(()));
        assert_eq!(stream.read_header(), len as u64);
        assert_eq!(extract(&stream), payload);
    }
}

#[test]
fn empty_payload_writes_only_the_header() {
    let mut stream = carrier(4, 4, 0xFF);
    assert_eq!(embed(&mut stream, &[]), Ok(()));
    assert_eq!(stream.read_header(), 0);
    for addr in 0..9 {
        assert_eq!(*stream.pixel(addr), Pixel { r: 0xF8, g: 0xFC, b: 0xFC });
    }
    for addr in 9..16 {
        assert_eq!(*stream.pixel(addr), Pixel { r: 0xFF, g: 0xFF, b: 0xFF });
    }
    assert_eq!(extract(&stream), Vec::<u8>::new());
}

#[test]
fn seven_bytes_fill_eight_words_exactly() {
    let payload = [0x01u8, 0x02, 0x04, 0x08, 0x10, 0x20, 0x40];
    let mut stream = carrier(5, 5, 0);
    assert_eq!(embed(&mut stream, &payload), Ok(()));
    // 56 bits, eight words, no partial word: word 17 is left alone
    assert_eq!(stream.read_word(9), 0x01);
    assert_eq!(stream.read_word(10), 0x04);
    assert_eq!(stream.read_word(17), 0);
    assert_eq!(extract(&stream), payload.to_vec());
}

#[test]
fn last_word_is_written_whole() {
    // one byte: seven bits in word 9, one bit in word 10, whose other six
    // bits are written as zero
    let mut stream = carrier(4, 4, 0xFF);
    assert_eq!(embed(&mut stream, &[0xFF]), Ok(()));
    assert_eq!(stream.read_word(10), 1);
    assert_eq!(*stream.pixel(10), Pixel { r: 0xF8, g: 0xFC, b: 0xFD });
}

#[test]
fn extraction_ignores_the_unused_bits_of_the_last_word() {
    let mut stream = carrier(4, 4, 0);
    assert_eq!(embed(&mut stream, &[0xFF]), Ok(()));
    stream.write_word(10, 0x7F);
    assert_eq!(extract(&stream), vec![0xFF]);
    stream.write_word(10, 0x7E);
    assert_eq!(extract(&stream), vec![0x7F]);
}

#[test]
fn write_stream_fails_on_a_reader_that_has_been_read() {
    let mut stream = carrier(4, 4, 0);
    let mut input = FileBitReader::open(vec![0xAA, 0xBB]);
    assert_eq!(input.read_bit(), Ok(0));
    assert!(stream.can_hold(input.size()));
    assert_eq!(stream.write_stream(&mut input), Err(StreamError::UnexpectedEof));
    assert_eq!(stream.capacity(), 16);
    // the reader is exhausted
    assert_eq!(input.read_bit(), Err(StreamError::UnexpectedEof));
    // the header and the two full groups of seven bits that were left
    assert_eq!(stream.read_header(), 2);
    assert_eq!(stream.read_word(9), 85);
    assert_eq!(stream.read_word(10), 59);
    assert_eq!(stream.read_word(11), 0);
}

#[test]
fn write_stream_fails_at_the_first_group_that_is_short() {
    let mut stream = carrier(4, 4, 0xFF);
    let mut input = FileBitReader::open(vec![0x00]);
    assert_eq!(input.read_bits(2), Ok(0));
    assert_eq!(stream.write_stream(&mut input), Err(StreamError::UnexpectedEof));
    // six bits were left: no group of seven, so only the header is written
    assert_eq!(stream.read_header(), 1);
    assert_eq!(stream.read_word(9), 0x7F);
}

#[test]
fn read_stream_appends_to_what_was_written() {
    let mut stream = carrier(4, 4, 0);
    assert_eq!(embed(&mut stream, &[0x5A, 0xC3]), Ok(()));
    let mut output = FileBitWriter::open();
    output.write_bits(0x11, 8);
    stream.read_stream(&mut output);
    assert_eq!(output.finish(), vec![0x11, 0x5A, 0xC3]);
}

#[test]
fn into_inner_gives_the_image_back() {
    let file = bitmap_file(3, 2, 0x40);
    let stream = ImageDataStream::new(BMP::read(&file).unwrap());
    let image = stream.into_inner();
    assert_eq!(image.width(), 3);
    assert_eq!(image.height(), 2);
    assert_eq!(image.write(), file);
}

#[test]
fn embedding_changes_low_bits_only() {
    let payload = [0xDEu8, 0xAD, 0xBE, 0xEF];
    let mut stream = carrier(4, 4, 0xB4);
    assert_eq!(embed(&mut stream, &payload), Ok(()));
    for addr in 0..16 {
        let pixel = *stream.pixel(addr);
        assert_eq!(pixel.r >> 3, 0xB4 >> 3);
        assert_eq!(pixel.g >> 2, 0xB4 >> 2);
        assert_eq!(pixel.b >> 2, 0xB4 >> 2);
    }
    assert_eq!(extract(&stream), payload.to_vec());
}
