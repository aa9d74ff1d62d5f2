//! The word-addressable stream over an image: words in pixels, the length
//! header, and the embedding and extraction of a payload.

use crate::bits::{bits_of_bytes, chunk, digits, lemma_value_bound};
use crate::error::StreamError;
use crate::frame::{
    full_words, header_words, lemma_or_sets_word, lemma_shift_reads_word, lemma_word_weight,
    number_of_words, payload_words, word_count, DATA_START, HEADER_LIMIT, HEADER_WORDS,
};
use crate::image::{Grid, Image, Pixel};
use crate::reader::FileBitReader;
use crate::word::{
    lemma_pack, lemma_unpack, B_MASK, B_POS, G_MASK, G_POS, R_MASK, R_POS, WORD_MASK, WORD_SIZE,
};
use crate::writer::FileBitWriter;
use vstd::arithmetic::power2::{lemma2_to64, lemma_pow2_strictly_increases, pow2};
use vstd::prelude::*;

verus! {

/// An image seen as a sequence of seven-bit words, one in each pixel.
pub struct ImageDataStream<T: Image> {
    image: T,
}

impl<T: Image> View for ImageDataStream<T> {
    type V = Grid;

    open spec fn view(&self) -> Grid {
        self.carrier().grid()
    }
}

impl<T: Image> ImageDataStream<T> {
    /// The image that the stream wraps.
    pub closed spec fn carrier(&self) -> T {
        self.image
    }

    /// What the image holds besides its pixels.
    pub open spec fn frame(&self) -> T::Frame {
        self.carrier().frame()
    }

    /// Wraps an image.
    pub fn new(image: T) -> (stream: Self)
        ensures
            stream.carrier() == image,
            stream@ == image.grid(),
    {
        Self { image }
    }

    /// The pixel that carries the word at `addr`.
    pub fn pixel(&self, addr: u32) -> (p: &Pixel)
        requires
            self@.holds(addr as nat),
        ensures
            *p == self@.at(self@.column(addr as nat), self@.row(addr as nat)),
    {
        self.image.pixel(addr % self.image.width(), addr / self.image.height())
    }

    /// The pixel that carries the word at `addr`, for changing it in place.
    pub fn pixel_mut(&mut self, addr: u32) -> (p: &mut Pixel)
        requires
            old(self)@.holds(addr as nat),
        ensures
            *p == old(self)@.at(old(self)@.column(addr as nat), old(self)@.row(addr as nat)),
            final(self)@ == old(self)@.set(
                old(self)@.column(addr as nat),
                old(self)@.row(addr as nat),
                *final(p),
            ),
            final(self).frame() == old(self).frame(),
    {
        let x: u32 = addr % self.image.width();
        let y: u32 = addr / self.image.height();
        self.image.pixel_mut(x, y)
    }

    /// Reads the word at `addr`.
    pub fn read_word(&self, addr: u32) -> (word: u8)
        requires
            self@.holds(addr as nat),
        ensures
            word == self@.word_at(addr as nat),
            word <= 0x7f,
    {
        let pixel = self.pixel(addr);
        proof {
            lemma_pack(*pixel);
        }
        (pixel.r & R_MASK) << R_POS | (pixel.g & G_MASK) << G_POS | (pixel.b & B_MASK) << B_POS
    }

    /// Writes the low seven bits of `value` as the word at `addr`; the bits
    /// of the pixel above the word are kept.
    pub fn write_word(&mut self, addr: u32, value: u8)
        requires
            old(self)@.holds(addr as nat),
        ensures
            final(self)@ == old(self)@.put_word(addr as nat, value),
            final(self).frame() == old(self).frame(),
    {
        let pixel = self.pixel_mut(addr);
        proof {
            lemma_unpack(*pixel, value);
        }
        pixel.r = (pixel.r & !R_MASK) | ((value >> R_POS) & R_MASK);
        pixel.g = (pixel.g & !G_MASK) | ((value >> G_POS) & G_MASK);
        pixel.b = (pixel.b & !B_MASK) | (value & B_MASK);
    }

    /// The number of word addresses that the image can serve.
    pub fn capacity(&self) -> (n: u64)
        ensures
            n == self@.capacity(),
    {
        let w: u32 = self.image.width();
        let h: u32 = self.image.height();
        if w == 0 || h == 0 {
            0
        } else {
            assert(h * h <= 0xffff_ffff * 0xffff_ffff) by (nonlinear_arith)
                requires
                    h <= 0xffff_ffff,
            ;
            let square: u64 = (h as u64) * (h as u64);
            if square <= 0x1_0000_0000 {
                square
            } else {
                0x1_0000_0000
            }
        }
    }

    /// Whether the image has room for the header and a payload of `bytes` bytes.
    pub fn can_hold(&self, bytes: u64) -> (ok: bool)
        ensures
            ok == (word_count(bytes as nat) <= self@.capacity()),
    {
        let room: u64 = self.capacity();
        if bytes > 0x1_0000_0000 {
            false
        } else {
            let words: u64 = DATA_START + (8 * bytes + 6) / 7;
            words <= room
        }
    }

    /// Reads the payload length from the header words.
    pub fn read_header(&self) -> (header: u64)
        requires
            9 <= self@.capacity(),
        ensures
            header == self@.header(),
            header < HEADER_LIMIT,
    {
        let mut header: u64 = 0;
        let mut i: u8 = 0;
        proof {
            lemma2_to64();
        }
        while i < HEADER_WORDS
            invariant
                i <= 9,
                9 <= self@.capacity(),
                header == number_of_words(self@.words(0, i as nat)),
                header < pow2(7 * i as nat),
            decreases 9 - i,
        {
            proof {
                self@.lemma_capacity(i as nat);
            }
            let word: u8 = self.read_word(i as u32);
            let shift: u64 = (i * WORD_SIZE) as u64;
            proof {
                lemma_or_sets_word(header, word, i);
                assert(self@.words(0, i as nat + 1).drop_last() =~= self@.words(0, i as nat));
            }
            header |= (word as u64) << shift;
            i += 1;
        }
        proof {
            lemma_word_weight(9);
        }
        header
    }

    /// Writes `header` as the payload length into the header words.
    ///
    /// A length that 63 bits cannot express is refused, and nothing is written.
    pub fn write_header(&mut self, header: u64) -> (r: Result<(), StreamError>)
        requires
            9 <= old(self)@.capacity(),
        ensures
            final(self)@.width == old(self)@.width,
            final(self)@.height == old(self)@.height,
            final(self).frame() == old(self).frame(),
            match r {
                Ok(_) => {
                    &&& header < HEADER_LIMIT
                    &&& final(self)@ == old(self)@.put_words(0, header_words(header as nat))
                },
                Err(e) => {
                    &&& e == StreamError::HeaderTooLarge
                    &&& header >= HEADER_LIMIT
                    &&& final(self)@ == old(self)@
                },
            },
    {
        if header >= HEADER_LIMIT {
            return Err(StreamError::HeaderTooLarge);
        }
        let ghost words: Seq<u8> = header_words(header as nat);
        let mut i: u8 = 0;
        assert(words.take(0) =~= Seq::<u8>::empty());
        while i < HEADER_WORDS
            invariant
                i <= 9,
                9 <= self@.capacity(),
                self@.capacity() == old(self)@.capacity(),
                self.frame() == old(self).frame(),
                words == header_words(header as nat),
                self@ == old(self)@.put_words(0, words.take(i as int)),
            decreases 9 - i,
        {
            proof {
                self@.lemma_capacity(i as nat);
                lemma_shift_reads_word(header, i);
                assert(words.take(i + 1).drop_last() =~= words.take(i as int));
            }
            let shift: u64 = (i * WORD_SIZE) as u64;
            let value: u8 = ((header >> shift) & (WORD_MASK as u64)) as u8;
            self.write_word(i as u32, value);
            i += 1;
        }
        proof {
            assert(words.take(9) =~= words);
            old(self)@.lemma_put_words_extent(0, words);
        }
        Ok(())
    }

    /// Extracts the payload that the image carries and writes its bits to `output`.
    ///
    /// The header says how many bytes follow; the bits are taken from the
    /// words after the header, seven from each, and from the last word only
    /// as many as are left.
    pub fn read_stream(&self, output: &mut FileBitWriter)
        requires
            old(output).wf(),
            word_count(self@.header()) <= self@.capacity(),
            old(output).position() + 8 * self@.header() <= u64::MAX,
        ensures
            final(output).wf(),
            final(output).bits() == old(output).bits() + self@.payload_bits(),
    {
        let bytes: u64 = self.read_header();
        let bits: u64 = bytes * 8;
        let count: u64 = bits / (WORD_SIZE as u64);
        let rem: u64 = bits % (WORD_SIZE as u64);

        let mut i: u64 = DATA_START;
        assert(output.bits() =~= old(output).bits() + self@.word_bits(9, 0));
        while i < DATA_START + count
            invariant
                9 <= i <= 9 + count,
                count == (8 * self@.header()) / 7,
                word_count(self@.header()) <= self@.capacity(),
                old(output).position() + 8 * self@.header() <= u64::MAX,
                output.wf(),
                output.bits() == old(output).bits() + self@.word_bits(9, (7 * (i - 9)) as nat),
            decreases 9 + count - i,
        {
            proof {
                self@.lemma_capacity(i as nat);
            }
            let word: u8 = self.read_word(i as u32);
            output.write_bits(word, WORD_SIZE);
            assert(self@.word_bits(9, (7 * (i - 9)) as nat) + digits(word as nat, 7)
                =~= self@.word_bits(9, (7 * (i + 1 - 9)) as nat));
            i += 1;
        }
        if rem != 0 {
            proof {
                self@.lemma_capacity((9 + count) as nat);
            }
            let value: u8 = self.read_word((DATA_START + count) as u32);
            output.write_bits(value, rem as u8);
            assert(self@.word_bits(9, (7 * count) as nat) + digits(value as nat, rem as nat)
                =~= self@.payload_bits());
        }
    }

    /// Embeds the bytes of `input`: their number in the header, then their
    /// bits, seven to a word, from the word after the header on.
    ///
    /// Succeeds exactly when `input` is at the start of its stream. Otherwise
    /// the bits run out: the header is written, and so is every group of
    /// seven bits that could still be read.
    pub fn write_stream(&mut self, input: &mut FileBitReader) -> (r: Result<(), StreamError>)
        requires
            old(input).wf(),
            word_count(old(input).bytes().len()) <= old(self)@.capacity(),
        ensures
            final(input).wf(),
            final(input).bytes() == old(input).bytes(),
            final(input).position() == old(input).bits().len(),
            final(self)@.width == old(self)@.width,
            final(self)@.height == old(self)@.height,
            final(self).frame() == old(self).frame(),
            match r {
                Ok(_) => {
                    &&& old(input).position() == 0
                    &&& final(self)@ == old(self)@.embed(old(input).bytes())
                },
                Err(e) => {
                    &&& e == StreamError::UnexpectedEof
                    &&& old(input).position() > 0
                    &&& final(self)@ == old(self)@.embed_rest(
                        old(input).bytes(),
                        old(input).position(),
                    )
                },
            },
    {
        proof {
            input.lemma_position_in_stream();
        }
        let bytes: u64 = input.size();
        let bits: u64 = bytes * 8;
        let count: u64 = bits / (WORD_SIZE as u64);
        let rem: u64 = bits % (WORD_SIZE as u64);

        let ghost payload: Seq<u8> = input.bytes();
        let ghost stream: Seq<bool> = bits_of_bytes(payload);
        let ghost first: nat = input.position();
        let ghost full: Seq<u8> = full_words(stream, first);
        let ghost headed: Grid = self@.put_words(0, header_words(payload.len()));
        proof {
            self@.lemma_put_words_extent(0, header_words(payload.len()));
        }

        match self.write_header(bytes) {
            Ok(_) => {},
            Err(e) => {
                return Err(e);
            },
        }

        let mut i: u64 = DATA_START;
        assert(full.take(0) =~= Seq::<u8>::empty());
        while i < DATA_START + count
            invariant
                9 <= i <= 9 + count,
                stream.len() == 8 * payload.len(),
                stream.len() == bits,
                count == bits / 7,
                word_count(payload.len()) <= headed.capacity(),
                payload == old(input).bytes(),
                stream == bits_of_bytes(payload),
                full == full_words(stream, first),
                first == old(input).position(),
                headed == old(self)@.put_words(0, header_words(payload.len())),
                headed.width == old(self)@.width,
                headed.height == old(self)@.height,
                input.wf(),
                input.bytes() == payload,
                input.position() == first + 7 * (i - 9),
                self@.width == headed.width,
                self@.height == headed.height,
                self.frame() == old(self).frame(),
                i - 9 <= full.len(),
                self@ == headed.put_words(9, full.take(i - 9)),
            decreases 9 + count - i,
        {
            let ghost j: int = i - 9;
            proof {
                input.lemma_position_in_stream();
            }
            match input.read_bits(WORD_SIZE) {
                Ok(value) => {
                    proof {
                        self@.lemma_capacity(i as nat);
                        lemma_value_bound(stream.subrange(first + 7 * j, first + 7 * j + 7));
                        lemma2_to64();
                        assert(value == full[j]);
                        assert(full.take(j + 1).drop_last() =~= full.take(j));
                    }
                    self.write_word(i as u32, value);
                },
                Err(e) => {
                    assert(full.take(j) =~= full);
                    return Err(e);
                },
            }
            i += 1;
        }
        proof {
            input.lemma_position_in_stream();
            assert(full.take(count as int) =~= full);
        }
        if rem != 0 {
            match input.read_bits(rem as u8) {
                Ok(value) => {
                    proof {
                        let words = payload_words(payload);
                        self@.lemma_capacity((9 + count) as nat);
                        assert(chunk(stream, 7 * count, 7) == stream.subrange(
                            7 * count,
                            7 * count + rem,
                        ));
                        lemma_value_bound(chunk(stream, 7 * count, 7));
                        lemma2_to64();
                        lemma_pow2_strictly_increases(rem as nat, 8);
                        assert(value == words[count as int]);
                        assert(words.drop_last() =~= full);
                    }
                    self.write_word((DATA_START + count) as u32, value);
                },
                Err(e) => {
                    return Err(e);
                },
            }
        } else {
            assert(payload_words(payload) =~= full);
        }
        Ok(())
    }

    /// Gives the image back.
    pub fn into_inner(self) -> (image: T)
        ensures
            image == self.carrier(),
            image.grid() == self@,
    {
        self.image
    }
}

} // verus!
