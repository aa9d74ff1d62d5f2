//! Uncompressed bitmaps with three bytes per pixel: the carrier images.

use crate::error::StreamError;
use crate::image::{Grid, Image, Pixel};
use crate::le::{
    le_bytes_u16, le_bytes_u32, le_u16, le_u32, lemma_le_bytes_len, lemma_le_round_trip,
    lemma_pattern_round_trip, pattern, read_i32, read_u16, read_u32, signed, write_i32,
    write_u16, write_u32,
};
use vstd::arithmetic::div_mod::{
    lemma_fundamental_div_mod, lemma_fundamental_div_mod_converse, lemma_mod_bound,
};
use vstd::prelude::*;
use vstd::slice::slice_subrange;

verus! {

/// The length in bytes of the two headers that open a bitmap file.
pub const HEADER_LEN: usize = 54;

/// The fields of the file header and of the information header.
#[derive(Debug, Clone, Copy, PartialEq, Eq, Structural)]
pub struct Header {
    pub magic: u16,
    pub size: u32,
    pub offset: u32,
    pub hdr_size: u32,
    pub width: u32,
    pub height: u32,
    pub num_planes: u16,
    pub bpp: u16,
    pub compression: u32,
    pub image_size: u32,
    pub h_ppm: i32,
    pub v_ppm: i32,
    pub num_colors: u32,
    pub used_colors: u32,
}

impl Header {
    /// The bytes of a row that the bit depth accounts for.
    pub open spec fn row_bytes(self) -> nat {
        (self.bpp / 8) as nat * self.width as nat
    }

    /// The distance in the file from one row to the next: `row_bytes`,
    /// rounded up to a multiple of four.
    pub open spec fn row_size(self) -> nat {
        4 * (self.row_bytes() / 4 + if self.row_bytes() % 4 != 0 {
            1nat
        } else {
            0nat
        })
    }

    /// The number of zero bytes that close each row of a file written.
    pub open spec fn padding(self) -> nat {
        (self.row_size() - self.row_bytes()) as nat
    }

    /// The place in the file of the pixel in column `x` of row `y`, rows
    /// counted from the top: the file holds the bottom row first.
    pub open spec fn pixel_offset(self, x: nat, y: nat) -> nat {
        (self.offset + (self.height - 1 - y) * self.row_size() + 3 * x) as nat
    }

    /// The place in the file where the last byte read lies, plus one: the end
    /// of the top row, or of the two headers if there is no pixel.
    pub open spec fn extent(self) -> nat {
        if self.width == 0 || self.height == 0 {
            54
        } else {
            (self.offset + (self.height - 1) * self.row_size() + 3 * self.width) as nat
        }
    }
}

/// The header fields that the first 54 bytes of a file hold, each little-endian.
pub open spec fn header_of(bytes: Seq<u8>) -> Header {
    Header {
        magic: le_u16(bytes.subrange(0, 2)) as u16,
        size: le_u32(bytes.subrange(2, 6)) as u32,
        offset: le_u32(bytes.subrange(10, 14)) as u32,
        hdr_size: le_u32(bytes.subrange(14, 18)) as u32,
        width: le_u32(bytes.subrange(18, 22)) as u32,
        height: le_u32(bytes.subrange(22, 26)) as u32,
        num_planes: le_u16(bytes.subrange(26, 28)) as u16,
        bpp: le_u16(bytes.subrange(28, 30)) as u16,
        compression: le_u32(bytes.subrange(30, 34)) as u32,
        image_size: le_u32(bytes.subrange(34, 38)) as u32,
        h_ppm: signed(le_u32(bytes.subrange(38, 42))) as i32,
        v_ppm: signed(le_u32(bytes.subrange(42, 46))) as i32,
        num_colors: le_u32(bytes.subrange(46, 50)) as u32,
        used_colors: le_u32(bytes.subrange(50, 54)) as u32,
    }
}

/// The pixel whose three bytes, blue, green, red, lie at `at`.
pub open spec fn pixel_in(bytes: Seq<u8>, at: int) -> Pixel {
    Pixel { r: bytes[at + 2], g: bytes[at + 1], b: bytes[at] }
}

/// Whether a file holds the two headers and every pixel that they announce.
pub open spec fn complete(bytes: Seq<u8>) -> bool {
    bytes.len() >= 54 && header_of(bytes).extent() <= bytes.len()
}

/// The pixels of a file, row by row from the top row down.
pub open spec fn pixels_of(bytes: Seq<u8>) -> Seq<Pixel> {
    let header = header_of(bytes);
    Seq::new(
        header.width as nat * header.height as nat,
        |i: int|
            pixel_in(
                bytes,
                header.pixel_offset(
                    (i % header.width as int) as nat,
                    (i / header.width as int) as nat,
                ) as int,
            ),
    )
}

/// The 54 bytes that hold the header fields, each little-endian; the four
/// reserved bytes after the file size are zero.
#[verifier::opaque]
pub open spec fn header_bytes(header: Header) -> Seq<u8> {
    le_bytes_u16(header.magic as nat) + le_bytes_u32(header.size as nat) + le_bytes_u32(0)
        + le_bytes_u32(header.offset as nat) + le_bytes_u32(header.hdr_size as nat) + le_bytes_u32(
        header.width as nat,
    ) + le_bytes_u32(header.height as nat) + le_bytes_u16(header.num_planes as nat) + le_bytes_u16(
        header.bpp as nat,
    ) + le_bytes_u32(header.compression as nat) + le_bytes_u32(header.image_size as nat)
        + le_bytes_u32(pattern(header.h_ppm as int)) + le_bytes_u32(pattern(header.v_ppm as int))
        + le_bytes_u32(header.num_colors as nat) + le_bytes_u32(header.used_colors as nat)
}

/// The bytes of the `n` pixels from number `from` on: blue, green, red for each.
pub open spec fn row_of(pixels: Seq<Pixel>, from: int, n: nat) -> Seq<u8>
    decreases n,
{
    if n == 0 {
        Seq::empty()
    } else {
        let p = pixels[from + n - 1];
        row_of(pixels, from, (n - 1) as nat) + seq![p.b, p.g, p.r]
    }
}

/// `n` zero bytes.
pub open spec fn zeros(n: nat) -> Seq<u8> {
    Seq::new(n, |i: int| 0u8)
}

/// The first `k` rows of a file: the bottom row of the bitmap first, each
/// row followed by its padding.
pub open spec fn rows_of(header: Header, pixels: Seq<Pixel>, k: nat) -> Seq<u8>
    decreases k,
{
    if k == 0 {
        Seq::empty()
    } else {
        rows_of(header, pixels, (k - 1) as nat) + row_of(
            pixels,
            (header.height - k) * header.width,
            header.width as nat,
        ) + zeros(header.padding())
    }
}

/// The bytes of the file that holds a bitmap.
pub open spec fn file_of(header: Header, pixels: Seq<Pixel>) -> Seq<u8> {
    header_bytes(header) + rows_of(header, pixels, header.height as nat)
}

/// Appends the bytes of `bytes` to `out`.
fn put<const N: usize>(out: &mut Vec<u8>, bytes: [u8; N])
    ensures
        final(out)@ == old(out)@ + bytes@,
{
    let mut i: usize = 0;
    assert(out@ =~= old(out)@ + bytes@.take(0));
    while i < N
        invariant
            i <= N,
            bytes@.len() == N,
            out@ == old(out)@ + bytes@.take(i as int),
        decreases N - i,
    {
        out.push(bytes[i]);
        i += 1;
        assert(out@ =~= old(out)@ + bytes@.take(i as int));
    }
    assert(bytes@.take(N as int) =~= bytes@);
}

/// The grid of a bitmap with the given header fields and pixels: cell
/// `(x, y)` holds pixel number `x + y * width`.
pub open spec fn grid_of(header: Header, pixels: Seq<Pixel>) -> Grid {
    Grid {
        width: header.width as nat,
        height: header.height as nat,
        pixels: |x: nat, y: nat|
            if x < header.width && y < header.height {
                pixels[x + y * header.width]
            } else {
                Pixel { r: 0, g: 0, b: 0 }
            },
    }
}

/// A bitmap in memory: its header fields and its pixels, row by row from the
/// top row down.
pub struct BMP {
    header: Header,
    pixels: Vec<Pixel>,
}

impl BMP {
    #[verifier::type_invariant]
    spec fn filled(&self) -> bool {
        self.pixels@.len() == self.header.width * self.header.height
    }

    /// The header fields, as specifications speak of them.
    pub closed spec fn spec_header(&self) -> Header {
        self.header
    }

    /// The header fields.
    #[verifier::when_used_as_spec(spec_header)]
    pub fn header(&self) -> (header: Header)
        ensures
            header == self.spec_header(),
    {
        self.header
    }

    /// The pixels, row by row from the top row down.
    pub closed spec fn pixels(&self) -> Seq<Pixel> {
        self.pixels@
    }

    /// Reads a bitmap from the bytes of a file.
    ///
    /// The header fields are taken as they stand, unchecked, and the four
    /// reserved bytes are passed over. Each pixel is read as three bytes,
    /// whatever the bit depth says; the bit depth decides only how far apart
    /// the rows lie. Fails exactly when the file ends before the headers or
    /// before a pixel.
    pub fn read(bytes: &[u8]) -> (r: Result<BMP, StreamError>)
        ensures
            match r {
                Ok(bmp) => {
                    &&& complete(bytes@)
                    &&& bmp.header() == header_of(bytes@)
                    &&& bmp.pixels() == pixels_of(bytes@)
                },
                Err(e) => e == StreamError::UnexpectedEof && !complete(bytes@),
            },
    {
        if bytes.len() < HEADER_LEN {
            return Err(StreamError::UnexpectedEof);
        }
        let magic: u16 = read_u16(slice_subrange(bytes, 0, 2));
        let size: u32 = read_u32(slice_subrange(bytes, 2, 6));
        let offset: u32 = read_u32(slice_subrange(bytes, 10, 14));
        let hdr_size: u32 = read_u32(slice_subrange(bytes, 14, 18));
        let width: u32 = read_u32(slice_subrange(bytes, 18, 22));
        let height: u32 = read_u32(slice_subrange(bytes, 22, 26));
        let num_planes: u16 = read_u16(slice_subrange(bytes, 26, 28));
        let bpp: u16 = read_u16(slice_subrange(bytes, 28, 30));
        let compression: u32 = read_u32(slice_subrange(bytes, 30, 34));
        let image_size: u32 = read_u32(slice_subrange(bytes, 34, 38));
        let h_ppm: i32 = read_i32(slice_subrange(bytes, 38, 42));
        let v_ppm: i32 = read_i32(slice_subrange(bytes, 42, 46));
        let num_colors: u32 = read_u32(slice_subrange(bytes, 46, 50));
        let used_colors: u32 = read_u32(slice_subrange(bytes, 50, 54));
        let header = Header {
            magic,
            size,
            offset,
            hdr_size,
            width,
            height,
            num_planes,
            num_colors,
            bpp,
            compression,
            image_size,
            h_ppm,
            v_ppm,
            used_colors,
        };
        assert(header == header_of(bytes@));

        proof {
            lemma_row_bytes(header);
        }
        let row_size: u64 = {
            let row_bytes: u64 = (bpp as u64 / 8) * (width as u64);
            4 * ((row_bytes / 4) + if row_bytes % 4 != 0 {
                1
            } else {
                0
            })
        };
        let mut pixels: Vec<Pixel> = Vec::new();
        if width != 0 && height != 0 {
            proof {
                lemma_row_in_file(header, 0);
            }
            let end: u128 = offset as u128 + (height as u128 - 1) * (row_size as u128) + 3 * (
            width as u128);
            if end > bytes.len() as u128 {
                return Err(StreamError::UnexpectedEof);
            }
            let mut y: u32 = height;
            while y > 0
                invariant
                    y <= height,
                    width > 0,
                    header == header_of(bytes@),
                    header.width == width,
                    header.height == height,
                    header.offset == offset,
                    row_size == header.row_size(),
                    complete(bytes@),
                    pixels@.len() == (height - y) * width,
                    forall|i: int|
                        0 <= i < pixels@.len() ==> #[trigger] pixels@[i] == pixels_of(bytes@)[i],
                decreases y,
            {
                y -= 1;
                let ghost row: nat = (height - 1 - y) as nat;
                proof {
                    lemma_row_in_file(header, row);
                }
                let start: u128 = offset as u128 + (y as u128) * (row_size as u128);
                assert(start == header.pixel_offset(0, row)) by (nonlinear_arith)
                    requires
                        start == offset + y * row_size,
                        header.pixel_offset(0, row) == offset + (height - 1 - row) * row_size,
                        y == height - 1 - row,
                ;
                assert(start <= bytes@.len() == bytes.len());
                let mut at: usize = start as usize;
                let mut x: u32 = 0;
                while x < width
                    invariant
                        x <= width,
                        y < height,
                        row == height - 1 - y,
                        header == header_of(bytes@),
                        header.width == width,
                        header.height == height,
                        complete(bytes@),
                        at == header.pixel_offset(x as nat, row),
                        header.pixel_offset(width as nat, row) <= bytes@.len(),
                        pixels@.len() == row * width + x,
                        forall|i: int|
                            0 <= i < pixels@.len() ==> #[trigger] pixels@[i] == pixels_of(
                                bytes@,
                            )[i],
                    decreases width - x,
                {
                    proof {
                        lemma_cell_of_index(x as int, row as int, width as int, height as int);
                    }
                    let b: u8 = bytes[at];
                    let g: u8 = bytes[at + 1];
                    let r: u8 = bytes[at + 2];
                    pixels.push(Pixel { r, g, b });
                    at += 3;
                    x += 1;
                }
                assert(row * width + width == (height - y) * width) by (nonlinear_arith)
                    requires
                        row == height - 1 - y,
                ;
            }
        } else {
            assert(width * height == 0) by (nonlinear_arith)
                requires
                    width == 0 || height == 0,
            ;
        }
        assert(pixels@.len() == width as nat * height as nat) by (nonlinear_arith)
            requires
                pixels@.len() == (height - 0) * width || (pixels@.len() == 0 && width * height
                    == 0),
        ;
        assert(pixels@ =~= pixels_of(bytes@));
        Ok(BMP { header, pixels })
    }

    /// Writes the bitmap as the bytes of a file: the headers, then the rows
    /// from the bottom row up, three bytes per pixel, each row followed by
    /// the zero bytes that the bit depth asks for.
    pub fn write(&self) -> (out: Vec<u8>)
        ensures
            out@ == file_of(self.header(), self.pixels()),
    {
        let mut out: Vec<u8> = Vec::new();
        put(&mut out, write_u16(self.header.magic));
        put(&mut out, write_u32(self.header.size));
        put(&mut out, write_u32(0));
        put(&mut out, write_u32(self.header.offset));
        put(&mut out, write_u32(self.header.hdr_size));
        put(&mut out, write_u32(self.header.width));
        put(&mut out, write_u32(self.header.height));
        put(&mut out, write_u16(self.header.num_planes));
        put(&mut out, write_u16(self.header.bpp));
        put(&mut out, write_u32(self.header.compression));
        put(&mut out, write_u32(self.header.image_size));
        put(&mut out, write_i32(self.header.h_ppm));
        put(&mut out, write_i32(self.header.v_ppm));
        put(&mut out, write_u32(self.header.num_colors));
        put(&mut out, write_u32(self.header.used_colors));
        assert(out@ =~= header_bytes(self.header)) by {
            reveal(header_bytes);
        }

        proof {
            lemma_row_bytes(self.header);
        }
        let pad: u64 = {
            let row_bytes: u64 = (self.header.bpp as u64 / 8) * (self.header.width as u64);
            let row_size: u64 = 4 * ((row_bytes / 4) + if row_bytes % 4 != 0 {
                1
            } else {
                0
            });
            row_size - row_bytes
        };

        let ghost head: Seq<u8> = out@;
        let width: u32 = self.header.width;
        let height: u32 = self.header.height;
        let mut y: u32 = height;
        assert(out@ =~= head + rows_of(self.header, self.pixels@, 0));
        while y > 0
            invariant
                y <= height,
                width == self.header.width,
                height == self.header.height,
                pad == self.header.padding(),
                out@ == head + rows_of(self.header, self.pixels@, (height - y) as nat),
            decreases y,
        {
            y -= 1;
            let ghost done: Seq<u8> = out@;
            let ghost from: int = y * width;
            let mut x: u32 = 0;
            assert(out@ =~= done + row_of(self.pixels@, from, 0));
            while x < width
                invariant
                    x <= width,
                    y < height,
                    width == self.header.width,
                    height == self.header.height,
                    from == y * width,
                    out@ == done + row_of(self.pixels@, from, x as nat),
                decreases width - x,
            {
                let pixel = self.pixel(x, y);
                out.push(pixel.b);
                out.push(pixel.g);
                out.push(pixel.r);
                x += 1;
                assert(out@ =~= done + row_of(self.pixels@, from, x as nat));
            }
            let mut i: u64 = 0;
            let ghost filled: Seq<u8> = out@;
            assert(out@ =~= filled + zeros(0));
            while i < pad
                invariant
                    i <= pad,
                    out@ == filled + zeros(i as nat),
                decreases pad - i,
            {
                out.push(0);
                i += 1;
                assert(out@ =~= filled + zeros(i as nat));
            }
            assert(out@ =~= head + rows_of(self.header, self.pixels@, (height - y) as nat));
        }
        out
    }
}

/// The bytes of a row fit in 64 bits with room to spare.
proof fn lemma_row_bytes(header: Header)
    ensures
        header.row_bytes() <= 0x1fff * 0xffff_ffff,
        header.row_size() <= 0x2000_0000_0000,
        header.row_bytes() <= header.row_size() <= header.row_bytes() + 3,
{
    let depth = (header.bpp / 8) as int;
    let width = header.width as int;
    assert(0 <= depth * width <= 0x1fff * 0xffff_ffff) by (nonlinear_arith)
        requires
            0 <= depth <= 0x1fff,
            0 <= width <= 0xffff_ffff,
    ;
}

/// Every row that the headers announce starts and ends within the extent,
/// and the extent fits in 128 bits with room to spare.
proof fn lemma_row_in_file(header: Header, row: nat)
    requires
        row < header.height,
        header.width > 0,
    ensures
        header.pixel_offset(0, row) == header.offset + (header.height - 1 - row)
            * header.row_size(),
        header.pixel_offset(header.width as nat, row) <= header.extent(),
        forall|x: nat| #[trigger]
            header.pixel_offset(x, row) == header.pixel_offset(0, row) + 3 * x,
        header.row_size() <= 0x2000_0000_0000,
        (header.height - 1 - row) * header.row_size() <= (header.height - 1) * header.row_size(),
        (header.height - 1) * header.row_size() <= 0x2000_0000_0000_0000_0000,
{
    let below = header.height - 1 - row;
    let all = header.height - 1;
    let step = header.row_size() as int;
    lemma_row_bytes(header);
    assert(below * step <= all * step && all * step <= 0xffff_ffff * 0x2000_0000_0000)
        by (nonlinear_arith)
        requires
            0 <= below <= all <= 0xffff_ffff,
            0 <= step <= 0x2000_0000_0000,
    ;
}

/// Pixel number `x + y * w` lies in column `x` of row `y`.
proof fn lemma_cell_of_index(x: int, y: int, w: int, h: int)
    requires
        0 <= x < w,
        0 <= y < h,
    ensures
        (y * w + x) % w == x,
        (y * w + x) / w == y,
        0 <= y * w + x < w * h,
{
    lemma_cell_index(x, y, w, h);
    lemma_fundamental_div_mod_converse(y * w + x, w, y, x);
}

impl Image for BMP {
    type Frame = Header;

    open spec fn frame(&self) -> Header {
        self.header()
    }

    open spec fn grid(&self) -> Grid {
        grid_of(self.header(), self.pixels())
    }

    fn width(&self) -> (w: u32) {
        self.header.width
    }

    fn height(&self) -> (h: u32) {
        self.header.height
    }

    fn pixel(&self, x: u32, y: u32) -> (p: &Pixel) {
        proof {
            use_type_invariant(self);
            lemma_cell_index(
                x as int,
                y as int,
                self.header.width as int,
                self.header.height as int,
            );
            assert(self.pixels@.len() == self.pixels.len());
        }
        let at: usize = x as usize + y as usize * self.header.width as usize;
        &self.pixels[at]
    }

    fn pixel_mut(&mut self, x: u32, y: u32) -> (p: &mut Pixel) {
        proof {
            use_type_invariant(&*self);
            lemma_cell_index(
                x as int,
                y as int,
                self.header.width as int,
                self.header.height as int,
            );
            assert(self.pixels@.len() == self.pixels.len());
        }
        let at: usize = x as usize + y as usize * self.header.width as usize;
        proof {
            let header = self.header;
            let pixels = self.pixels@;
            assert forall|q: Pixel|
                grid_of(header, pixels.update(at as int, q)) == #[trigger] grid_of(
                    header,
                    pixels,
                ).set(x as nat, y as nat, q) by {
                lemma_grid_update(header, pixels, x as nat, y as nat, q);
            }
        }
        &mut self.pixels[at]
    }
}

/// Replacing one pixel of a bitmap replaces one cell of its grid.
proof fn lemma_grid_update(header: Header, pixels: Seq<Pixel>, x: nat, y: nat, q: Pixel)
    requires
        x < header.width,
        y < header.height,
        pixels.len() == header.width * header.height,
    ensures
        grid_of(header, pixels.update(x + y * header.width, q)) == grid_of(header, pixels).set(
            x,
            y,
            q,
        ),
{
    let w = header.width as int;
    let h = header.height as int;
    let after = grid_of(header, pixels.update(x + y * header.width, q));
    let wanted = grid_of(header, pixels).set(x, y, q);
    lemma_cell_index(x as int, y as int, w, h);
    assert forall|i: nat, j: nat| #[trigger] (after.pixels)(i, j) == (wanted.pixels)(i, j) by {
        if i < w && j < h {
            lemma_cell_index(i as int, j as int, w, h);
            if i + j * w == x + y * w {
                lemma_cell_differs(i as int, j as int, x as int, y as int, w);
            }
        }
    }
    assert(after.pixels =~= wanted.pixels);
}

/// Two cells of a grid with the same number are the same cell.
proof fn lemma_cell_differs(i: int, j: int, x: int, y: int, w: int)
    requires
        0 <= i < w,
        0 <= x < w,
        0 <= j,
        0 <= y,
        i + j * w == x + y * w,
    ensures
        i == x,
        j == y,
{
    assert(i == x && j == y) by (nonlinear_arith)
        requires
            0 <= i < w,
            0 <= x < w,
            0 <= j,
            0 <= y,
            i + j * w == x + y * w,
    ;
}

/// The cells of a grid, numbered row by row, have numbers below the product
/// of width and height.
proof fn lemma_cell_index(x: int, y: int, w: int, h: int)
    requires
        0 <= x < w,
        0 <= y < h,
    ensures
        0 <= y * w <= x + y * w < w * h,
{
    assert(0 <= y * w <= x + y * w < w * h) by (nonlinear_arith)
        requires
            0 <= x < w,
            0 <= y < h,
    ;
}

/// The bytes of `n` pixels number three times `n`, and pixel `x` among them
/// lies at `3 * x`.
pub proof fn lemma_row_of(pixels: Seq<Pixel>, from: int, n: nat, x: int)
    requires
        0 <= x < n,
    ensures
        row_of(pixels, from, n).len() == 3 * n,
        pixel_in(row_of(pixels, from, n), 3 * x) == pixels[from + x],
    decreases n,
{
    let shorter = row_of(pixels, from, (n - 1) as nat);
    lemma_row_len(pixels, from, (n - 1) as nat);
    if x < n - 1 {
        lemma_row_of(pixels, from, (n - 1) as nat, x);
    }
}

/// The bytes of `n` pixels number three times `n`.
pub proof fn lemma_row_len(pixels: Seq<Pixel>, from: int, n: nat)
    ensures
        row_of(pixels, from, n).len() == 3 * n,
    decreases n,
{
    if n > 0 {
        lemma_row_len(pixels, from, (n - 1) as nat);
    }
}

/// The first `k` rows of a file number `k` times the bytes of a row and its
/// padding.
pub proof fn lemma_rows_len(header: Header, pixels: Seq<Pixel>, k: nat)
    ensures
        rows_of(header, pixels, k).len() == k * (3 * header.width + header.padding()),
    decreases k,
{
    let stride = (3 * header.width + header.padding()) as int;
    if k > 0 {
        let before = rows_of(header, pixels, (k - 1) as nat);
        let row = row_of(pixels, (header.height - k) * header.width, header.width as nat);
        lemma_rows_len(header, pixels, (k - 1) as nat);
        lemma_row_len(pixels, (header.height - k) * header.width, header.width as nat);
        assert(rows_of(header, pixels, k).len() == before.len() + row.len() + header.padding());
        assert((k - 1) * stride + stride == k * stride) by (nonlinear_arith);
    } else {
        assert(0 * stride == 0) by (nonlinear_arith);
    }
}

/// Within the first `k` rows of a file, the pixel in column `x` of file row
/// `f` lies at `f` strides and `3 * x` bytes.
pub proof fn lemma_rows_of(header: Header, pixels: Seq<Pixel>, k: nat, f: int, x: int)
    requires
        0 <= f < k,
        0 <= x < header.width,
    ensures
        f * (3 * header.width + header.padding()) + 3 * x + 3 <= rows_of(header, pixels, k).len(),
        pixel_in(rows_of(header, pixels, k), f * (3 * header.width + header.padding()) + 3 * x)
            == pixels[(header.height - 1 - f) * header.width + x],
    decreases k,
{
    let stride = 3 * header.width + header.padding();
    let before = rows_of(header, pixels, (k - 1) as nat);
    let from = (header.height - k) * header.width;
    let row = row_of(pixels, from, header.width as nat);
    let at = f * stride + 3 * x;
    lemma_rows_len(header, pixels, (k - 1) as nat);
    lemma_rows_len(header, pixels, k);
    lemma_row_len(pixels, from, header.width as nat);
    assert(f * stride + stride <= k * stride) by (nonlinear_arith)
        requires
            0 <= f < k,
            0 <= stride,
    ;
    if f < k - 1 {
        lemma_rows_of(header, pixels, (k - 1) as nat, f, x);
    } else {
        lemma_row_of(pixels, from, header.width as nat, x);
        assert(before.len() == f * stride);
        assert(pixel_in(rows_of(header, pixels, k), at) == pixel_in(row, 3 * x));
    }
}

/// A bitmap of 24 bits per pixel whose pixels follow the headers directly is
/// read back from the file that it is written to: the file is complete, and
/// holds the header fields and the pixels that were written.
pub proof fn law_file_round_trip(header: Header, pixels: Seq<Pixel>)
    requires
        header.offset == 54,
        header.bpp / 8 == 3,
        pixels.len() == header.width * header.height,
    ensures
        complete(file_of(header, pixels)),
        header_of(file_of(header, pixels)) == header,
        pixels_of(file_of(header, pixels)) == pixels,
{
    let file = file_of(header, pixels);
    let rows = rows_of(header, pixels, header.height as nat);
    lemma_header_in_file(header, rows);
    lemma_file_len(header, pixels);
    assert forall|i: int| 0 <= i < pixels.len() implies #[trigger] pixels_of(file)[i]
        == pixels[i] by {
        lemma_pixel_in_file(header, pixels, i);
    }
    assert(pixels_of(file) =~= pixels);
}

/// The file of a bitmap of 24 bits per pixel whose pixels follow the headers
/// directly ends where its extent ends, or later by the padding of a row.
proof fn lemma_file_len(header: Header, pixels: Seq<Pixel>)
    requires
        header.offset == 54,
        header.bpp / 8 == 3,
    ensures
        file_of(header, pixels).len() >= 54,
        header.extent() <= file_of(header, pixels).len(),
{
    let h = header.height as int;
    let stride = (3 * header.width + header.padding()) as int;
    let rows = rows_of(header, pixels, header.height as nat);
    lemma_stride(header);
    lemma_rows_len(header, pixels, header.height as nat);
    lemma_header_len(header);
    assert(file_of(header, pixels).len() == 54 + h * stride);
    if header.width > 0 && header.height > 0 {
        assert((h - 1) * stride + stride == h * stride) by (nonlinear_arith);
        assert(header.extent() == 54 + (h - 1) * stride + 3 * header.width);
    }
}

/// The header fields take 54 bytes.
pub proof fn lemma_header_len(header: Header)
    ensures
        header_bytes(header).len() == 54,
{
    reveal(header_bytes);
    lemma_le_bytes_len();
}

/// At 24 bits per pixel a row and its padding make up the distance from one
/// row to the next.
proof fn lemma_stride(header: Header)
    requires
        header.bpp / 8 == 3,
    ensures
        header.row_bytes() == 3 * header.width,
        header.row_size() == 3 * header.width + header.padding(),
{
    let depth = (header.bpp / 8) as nat;
    assert(depth * header.width as nat == 3 * header.width) by (nonlinear_arith)
        requires
            depth == 3,
    ;
}

/// In the file of a bitmap of 24 bits per pixel whose pixels follow the
/// headers directly, pixel number `i` lies where the headers say.
proof fn lemma_pixel_in_file(header: Header, pixels: Seq<Pixel>, i: int)
    requires
        header.offset == 54,
        header.bpp / 8 == 3,
        pixels.len() == header.width * header.height,
        0 <= i < pixels.len(),
    ensures
        header.width > 0,
        pixel_in(
            file_of(header, pixels),
            header.pixel_offset(
                (i % header.width as int) as nat,
                (i / header.width as int) as nat,
            ) as int,
        ) == pixels[i],
{
    let w = header.width as int;
    let h = header.height as int;
    let rows = rows_of(header, pixels, header.height as nat);
    let stride = (3 * header.width + header.padding()) as int;
    if w == 0 {
        assert(w * h == 0) by (nonlinear_arith)
            requires
                w == 0,
        ;
    }
    let x = i % w;
    let y = i / w;
    lemma_fundamental_div_mod(i, w);
    lemma_mod_bound(i, w);
    assert(0 <= y < h) by (nonlinear_arith)
        requires
            i == w * y + x,
            0 <= x < w,
            0 <= i < w * h,
    ;
    assert(w * y == y * w) by (nonlinear_arith);
    let f = h - 1 - y;
    lemma_stride(header);
    lemma_rows_of(header, pixels, header.height as nat, f, x);
    let at = header.pixel_offset(x as nat, y as nat) as int;
    assert(at == 54 + (f * stride + 3 * x));
    lemma_header_len(header);
    assert(pixel_in(file_of(header, pixels), at) == pixel_in(rows, f * stride + 3 * x));
}

/// The header fields are read back from the bytes that hold them, whatever
/// follows those bytes.
proof fn lemma_header_in_file(header: Header, rest: Seq<u8>)
    ensures
        header_of(header_bytes(header) + rest) == header,
{
    reveal(header_bytes);
    lemma_le_bytes_len();
    lemma_le_round_trip(header.magic as nat);
    lemma_le_round_trip(header.size as nat);
    lemma_le_round_trip(header.offset as nat);
    lemma_le_round_trip(header.hdr_size as nat);
    lemma_le_round_trip(header.width as nat);
    lemma_le_round_trip(header.height as nat);
    lemma_le_round_trip(header.num_planes as nat);
    lemma_le_round_trip(header.bpp as nat);
    lemma_le_round_trip(header.compression as nat);
    lemma_le_round_trip(header.image_size as nat);
    lemma_pattern_round_trip(header.h_ppm as int);
    lemma_le_round_trip(pattern(header.h_ppm as int));
    lemma_pattern_round_trip(header.v_ppm as int);
    lemma_le_round_trip(pattern(header.v_ppm as int));
    lemma_le_round_trip(header.num_colors as nat);
    lemma_le_round_trip(header.used_colors as nat);
    lemma_fields_in_file(
        le_bytes_u16(header.magic as nat),
        le_bytes_u32(header.size as nat),
        le_bytes_u32(0),
        le_bytes_u32(header.offset as nat),
        le_bytes_u32(header.hdr_size as nat),
        le_bytes_u32(header.width as nat),
        le_bytes_u32(header.height as nat),
        le_bytes_u16(header.num_planes as nat),
        le_bytes_u16(header.bpp as nat),
        le_bytes_u32(header.compression as nat),
        le_bytes_u32(header.image_size as nat),
        le_bytes_u32(pattern(header.h_ppm as int)),
        le_bytes_u32(pattern(header.v_ppm as int)),
        le_bytes_u32(header.num_colors as nat),
        le_bytes_u32(header.used_colors as nat),
        rest,
    );
}

/// Each of fifteen fields laid end to end, of the lengths of the header
/// fields, is found again at its place.
proof fn lemma_fields_in_file(
    magic: Seq<u8>,
    size: Seq<u8>,
    reserved: Seq<u8>,
    offset: Seq<u8>,
    hdr_size: Seq<u8>,
    width: Seq<u8>,
    height: Seq<u8>,
    num_planes: Seq<u8>,
    bpp: Seq<u8>,
    compression: Seq<u8>,
    image_size: Seq<u8>,
    h_ppm: Seq<u8>,
    v_ppm: Seq<u8>,
    num_colors: Seq<u8>,
    used_colors: Seq<u8>,
    rest: Seq<u8>,
)
    requires
        magic.len() == 2,
        size.len() == 4,
        reserved.len() == 4,
        offset.len() == 4,
        hdr_size.len() == 4,
        width.len() == 4,
        height.len() == 4,
        num_planes.len() == 2,
        bpp.len() == 2,
        compression.len() == 4,
        image_size.len() == 4,
        h_ppm.len() == 4,
        v_ppm.len() == 4,
        num_colors.len() == 4,
        used_colors.len() == 4,
    ensures
        ({
            let file = magic + size + reserved + offset + hdr_size + width + height + num_planes
                + bpp + compression + image_size + h_ppm + v_ppm + num_colors + used_colors + rest;
            &&& file.subrange(0, 2) == magic
            &&& file.subrange(2, 6) == size
            &&& file.subrange(10, 14) == offset
            &&& file.subrange(14, 18) == hdr_size
            &&& file.subrange(18, 22) == width
            &&& file.subrange(22, 26) == height
            &&& file.subrange(26, 28) == num_planes
            &&& file.subrange(28, 30) == bpp
            &&& file.subrange(30, 34) == compression
            &&& file.subrange(34, 38) == image_size
            &&& file.subrange(38, 42) == h_ppm
            &&& file.subrange(42, 46) == v_ppm
            &&& file.subrange(46, 50) == num_colors
            &&& file.subrange(50, 54) == used_colors
        }),
{
    let file = magic + size + reserved + offset + hdr_size + width + height + num_planes + bpp
        + compression + image_size + h_ppm + v_ppm + num_colors + used_colors + rest;
    assert(file.subrange(0, 2) =~= magic);
    assert(file.subrange(2, 6) =~= size);
    assert(file.subrange(10, 14) =~= offset);
    assert(file.subrange(14, 18) =~= hdr_size);
    assert(file.subrange(18, 22) =~= width);
    assert(file.subrange(22, 26) =~= height);
    assert(file.subrange(26, 28) =~= num_planes);
    assert(file.subrange(28, 30) =~= bpp);
    assert(file.subrange(30, 34) =~= compression);
    assert(file.subrange(34, 38) =~= image_size);
    assert(file.subrange(38, 42) =~= h_ppm);
    assert(file.subrange(42, 46) =~= v_ppm);
    assert(file.subrange(46, 50) =~= num_colors);
    assert(file.subrange(50, 54) =~= used_colors);
}

} // verus!
