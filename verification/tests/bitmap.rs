use lsb_steg::bmp::{Header, BMP};
use lsb_steg::{Image, Pixel, StreamError};

fn header_bytes(header: &Header) -> Vec<u8> {
    let mut file = Vec::new();
    file.extend_from_slice(&header.magic.to_le_bytes());
    file.extend_from_slice(&header.size.to_le_bytes());
    file.extend_from_slice(&0u32.to_le_bytes());
    file.extend_from_slice(&header.offset.to_le_bytes());
    file.extend_from_slice(&header.hdr_size.to_le_bytes());
    file.extend_from_slice(&header.width.to_le_bytes());
    file.extend_from_slice(&header.height.to_le_bytes());
    file.extend_from_slice(&header.num_planes.to_le_bytes());
    file.extend_from_slice(&header.bpp.to_le_bytes());
    file.extend_from_slice(&header.compression.to_le_bytes());
    file.extend_from_slice(&header.image_size.to_le_bytes());
    file.extend_from_slice(&header.h_ppm.to_le_bytes());
    file.extend_from_slice(&header.v_ppm.to_le_bytes());
    file.extend_from_slice(&header.num_colors.to_le_bytes());
    file.extend_from_slice(&header.used_colors.to_le_bytes());
    file
}

fn plain(width: u32, height: u32) -> Header {
    Header {
        magic: 0x4D42,
        size: 0,
        offset: 54,
        hdr_size: 40,
        width,
        height,
        num_planes: 1,
        bpp: 24,
        compression: 0,
        image_size: 0,
        h_ppm: 0,
        v_ppm: 0,
        num_colors: 0,
        used_colors: 0,
    }
}

#[test]
fn header_fields_are_little_endian() {
    let header = Header {
        magic: 0x4D42,
        size: 0x1122_3344,
        offset: 54,
        hdr_size: 0x0000_0028,
        width: 0,
        height: 0x0102_0304,
        num_planes: 0xABCD,
        bpp: 24,
        compression: 0x8000_0001,
        image_size: 0xFFFF_FFFF,
        h_ppm: -2,
        v_ppm: i32::MIN,
        num_colors: 256,
        used_colors: 65_536,
    };
    let file = header_bytes(&header);
    assert_eq!(file.len(), 54);
    assert_eq!(&file[0..6], &[0x42, 0x4D, 0x44, 0x33, 0x22, 0x11]);
    let image = BMP::read(&file).unwrap();
    assert_eq!(image.header(), header);
    assert_eq!(image.width(), 0);
    assert_eq!(image.height(), 0x0102_0304);
}

#[test]
fn header_is_written_little_endian() {
    let mut header = plain(0, 0);
    header.size = 0x0A0B_0C0D;
    header.num_planes = 0x0102;
    header.h_ppm = -2;
    header.v_ppm = 0x0102_0304;
    let image = BMP::read(&header_bytes(&header)).unwrap();
    let file = image.write();
    assert_eq!(file.len(), 54);
    assert_eq!(&file[0..2], &[0x42, 0x4D]);
    assert_eq!(&file[2..6], &[0x0D, 0x0C, 0x0B, 0x0A]);
    assert_eq!(&file[6..10], &[0, 0, 0, 0]);
    assert_eq!(&file[26..28], &[0x02, 0x01]);
    assert_eq!(&file[38..42], &[0xFE, 0xFF, 0xFF, 0xFF]);
    assert_eq!(&file[42..46], &[0x04, 0x03, 0x02, 0x01]);
}

#[test]
fn reserved_bytes_are_not_kept() {
    let mut file = header_bytes(&plain(0, 0));
    file[6] = 0xAA;
    file[9] = 0xBB;
    let image = BMP::read(&file).unwrap();
    assert_eq!(&image.write()[6..10], &[0, 0, 0, 0]);
}

#[test]
fn rows_are_stored_bottom_up_as_blue_green_red() {
    let mut file = header_bytes(&plain(2, 2));
    // bottom row: two pixels and two bytes of padding
    file.extend_from_slice(&[1, 2, 3, 4, 5, 6, 0, 0]);
    // top row
    file.extend_from_slice(&[7, 8, 9, 10, 11, 12, 0, 0]);
    let image = BMP::read(&file).unwrap();
    assert_eq!(*image.pixel(0, 0), Pixel { r: 9, g: 8, b: 7 });
    assert_eq!(*image.pixel(1, 0), Pixel { r: 12, g: 11, b: 10 });
    assert_eq!(*image.pixel(0, 1), Pixel { r: 3, g: 2, b: 1 });
    assert_eq!(*image.pixel(1, 1), Pixel { r: 6, g: 5, b: 4 });
    assert_eq!(image.write(), file);
}

#[test]
fn rows_are_padded_to_four_bytes() {
    for width in 1u32..=8 {
        let mut file = header_bytes(&plain(width, 3));
        let pad = (4 - (3 * width as usize) % 4) % 4;
        for row in 0..3u8 {
            for x in 0..3 * width as u8 {
                file.push(row * 50 + x);
            }
            for _ in 0..pad {
                file.push(0);
            }
        }
        let image = BMP::read(&file).unwrap();
        assert_eq!(image.write().len(), 54 + 3 * (3 * width as usize + pad));
        assert_eq!(image.write(), file);
        let last = *image.pixel(width - 1, 0);
        assert_eq!(last.r, 100 + 3 * width as u8 - 1);
    }
}

#[test]
fn padding_read_is_written_as_zero() {
    let mut file = header_bytes(&plain(1, 1));
    file.extend_from_slice(&[1, 2, 3, 0x77]);
    let image = BMP::read(&file).unwrap();
    let written = image.write();
    assert_eq!(&written[54..], &[1, 2, 3, 0]);
}

#[test]
fn pixels_are_found_at_the_offset() {
    let mut header = plain(1, 2);
    header.offset = 60;
    let mut file = header_bytes(&header);
    file.extend_from_slice(&[0xEE; 6]);
    file.extend_from_slice(&[1, 2, 3, 0]);
    file.extend_from_slice(&[4, 5, 6]);
    let image = BMP::read(&file).unwrap();
    assert_eq!(*image.pixel(0, 0), Pixel { r: 6, g: 5, b: 4 });
    assert_eq!(*image.pixel(0, 1), Pixel { r: 3, g: 2, b: 1 });
}

#[test]
fn bit_depth_sets_the_row_distance_only() {
    // 32 bits per pixel: rows lie 8 bytes apart, pixels are still 3 bytes
    let mut header = plain(2, 2);
    header.bpp = 32;
    let mut file = header_bytes(&header);
    file.extend_from_slice(&[1, 2, 3, 4, 5, 6, 7, 8]);
    file.extend_from_slice(&[9, 10, 11, 12, 13, 14]);
    let image = BMP::read(&file).unwrap();
    assert_eq!(*image.pixel(0, 1), Pixel { r: 3, g: 2, b: 1 });
    assert_eq!(*image.pixel(1, 1), Pixel { r: 6, g: 5, b: 4 });
    assert_eq!(*image.pixel(0, 0), Pixel { r: 11, g: 10, b: 9 });
    assert_eq!(*image.pixel(1, 0), Pixel { r: 14, g: 13, b: 12 });
    // written: six bytes per row and no padding
    assert_eq!(&image.write()[54..], &[1, 2, 3, 4, 5, 6, 9, 10, 11, 12, 13, 14]);
}

#[test]
fn bit_depth_below_24_lets_rows_overlap() {
    // 8 bits per pixel: rows lie 4 bytes apart, and each still takes 6 bytes
    let mut header = plain(2, 2);
    header.bpp = 8;
    let mut file = header_bytes(&header);
    file.extend_from_slice(&[1, 2, 3, 4, 5, 6, 7, 8, 9]);
    assert!(matches!(BMP::read(&file), Err(StreamError::UnexpectedEof)));
    file.push(10);
    let image = BMP::read(&file).unwrap();
    assert_eq!(*image.pixel(0, 1), Pixel { r: 3, g: 2, b: 1 });
    assert_eq!(*image.pixel(1, 1), Pixel { r: 6, g: 5, b: 4 });
    assert_eq!(*image.pixel(0, 0), Pixel { r: 7, g: 6, b: 5 });
    assert_eq!(*image.pixel(1, 0), Pixel { r: 10, g: 9, b: 8 });
    // written: six bytes per row and the two bytes that pad two up to four
    assert_eq!(
        &image.write()[54..],
        &[1, 2, 3, 4, 5, 6, 0, 0, 5, 6, 7, 8, 9, 10, 0, 0]
    );
}

#[test]
fn bit_depth_of_zero_reads_every_row_from_one_place() {
    let mut header = plain(1, 3);
    header.bpp = 0;
    let mut file = header_bytes(&header);
    file.extend_from_slice(&[7, 8, 9]);
    let image = BMP::read(&file).unwrap();
    for y in 0..3 {
        assert_eq!(*image.pixel(0, y), Pixel { r: 9, g: 8, b: 7 });
    }
    assert_eq!(&image.write()[54..], &[7, 8, 9, 7, 8, 9, 7, 8, 9]);
}

#[test]
fn short_header_is_an_error() {
    let file = header_bytes(&plain(0, 0));
    assert!(matches!(BMP::read(&file[..53]), Err(StreamError::UnexpectedEof)));
    assert!(matches!(BMP::read(&[]), Err(StreamError::UnexpectedEof)));
    assert!(BMP::read(&file).is_ok());
}

#[test]
fn missing_pixel_bytes_are_an_error() {
    let mut file = header_bytes(&plain(2, 2));
    file.extend_from_slice(&[0; 8]);
    file.extend_from_slice(&[0; 5]);
    assert!(matches!(BMP::read(&file), Err(StreamError::UnexpectedEof)));
    file.push(0);
    // the padding of the last row in the file is never read
    assert!(BMP::read(&file).is_ok());
}

#[test]
fn image_without_pixels_needs_only_the_header() {
    let image = BMP::read(&header_bytes(&plain(0, 7))).unwrap();
    assert_eq!(image.width(), 0);
    assert_eq!(image.height(), 7);
    assert_eq!(image.write().len(), 54);
    let image = BMP::read(&header_bytes(&plain(7, 0))).unwrap();
    assert_eq!(image.write().len(), 54);
}

#[test]
fn pixel_mut_changes_one_pixel() {
    let mut file = header_bytes(&plain(3, 2));
    file.extend_from_slice(&[0; 24]);
    let mut image = BMP::read(&file).unwrap();
    *image.pixel_mut(2, 1) = Pixel { r: 1, g: 2, b: 3 };
    for y in 0..2 {
        for x in 0..3 {
            let want = if (x, y) == (2, 1) {
                Pixel { r: 1, g: 2, b: 3 }
            } else {
                Pixel { r: 0, g: 0, b: 0 }
            };
            assert_eq!(*image.pixel(x, y), want);
        }
    }
    // row 1 is the bottom row, first in the file
    assert_eq!(&image.write()[54 + 6..54 + 9], &[3, 2, 1]);
}
