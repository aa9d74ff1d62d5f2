//! A sequential bit source over the bytes of a payload.

use crate::bits::{
    bit, bits_of_bytes, lemma_or_sets_digit, lemma_shift_reads_digit, lemma_value_bound,
    lemma_value_push, value_of,
};
use crate::error::StreamError;
use vstd::arithmetic::power2::pow2;
use vstd::prelude::*;

verus! {

/// Reads the bits of a byte sequence in order, the least significant bit of
/// each byte first.
pub struct FileBitReader {
    data: Vec<u8>,
    bit_position: u64,
}

impl FileBitReader {
    /// The bytes this reader draws from.
    pub closed spec fn bytes(&self) -> Seq<u8> {
        self.data@
    }

    /// The number of bits consumed so far.
    pub closed spec fn position(&self) -> nat {
        self.bit_position as nat
    }

    /// The whole bit stream of this reader, consumed or not.
    pub open spec fn bits(&self) -> Seq<bool> {
        bits_of_bytes(self.bytes())
    }

    /// The position lies within the stream, and every position fits in 64 bits.
    pub closed spec fn wf(&self) -> bool {
        &&& 8 * self.data@.len() <= u64::MAX
        &&& self.bit_position <= 8 * self.data@.len()
    }

    /// A well-formed reader has not run past the end of its stream.
    pub proof fn lemma_position_in_stream(&self)
        requires
            self.wf(),
        ensures
            self.position() <= self.bits().len(),
            self.bits().len() == 8 * self.bytes().len(),
            self.bits().len() <= u64::MAX,
    {
    }

    /// A reader at the start of `data`.
    pub fn open(data: Vec<u8>) -> (reader: Self)
        requires
            8 * data@.len() <= u64::MAX,
        ensures
            reader.wf(),
            reader.bytes() == data@,
            reader.position() == 0,
    {
        FileBitReader { data, bit_position: 0 }
    }

    /// The length of the stream in bytes.
    pub fn size(&self) -> (n: u64)
        requires
            self.wf(),
        ensures
            n == self.bytes().len(),
    {
        self.data.len() as u64
    }

    /// Reads the next bit, as 0 or 1.
    ///
    /// Fails, consuming nothing, exactly when the stream is exhausted.
    pub fn read_bit(&mut self) -> (r: Result<u8, StreamError>)
        requires
            old(self).wf(),
        ensures
            final(self).wf(),
            final(self).bytes() == old(self).bytes(),
            match r {
                Ok(b) => {
                    &&& old(self).position() < old(self).bits().len()
                    &&& b == bit(old(self).bits()[old(self).position() as int])
                    &&& b <= 1
                    &&& final(self).position() == old(self).position() + 1
                },
                Err(e) => {
                    &&& e == StreamError::UnexpectedEof
                    &&& old(self).position() == old(self).bits().len()
                    &&& final(self).position() == old(self).position()
                },
            },
    {
        let at: u64 = self.bit_position / 8;
        if at >= self.data.len() as u64 {
            return Err(StreamError::UnexpectedEof);
        }
        let byte: u8 = self.data[at as usize];
        let k: u8 = (self.bit_position % 8) as u8;
        let b: u8 = (byte >> k) & 1;
        proof {
            lemma_shift_reads_digit(byte, k);
        }
        self.bit_position += 1;
        Ok(b)
    }

    /// Reads the next `len` bits into the low bits of a byte, the first bit
    /// read becoming bit 0; the bits above them are zero.
    ///
    /// Fails exactly when fewer than `len` bits are left, and then leaves the
    /// reader at the end of its stream.
    pub fn read_bits(&mut self, len: u8) -> (r: Result<u8, StreamError>)
        requires
            old(self).wf(),
            1 <= len <= 8,
        ensures
            final(self).wf(),
            final(self).bytes() == old(self).bytes(),
            match r {
                Ok(v) => {
                    &&& old(self).position() + len <= old(self).bits().len()
                    &&& v == value_of(
                        old(self).bits().subrange(
                            old(self).position() as int,
                            old(self).position() + len,
                        ),
                    )
                    &&& v < pow2(len as nat)
                    &&& final(self).position() == old(self).position() + len
                },
                Err(e) => {
                    &&& e == StreamError::UnexpectedEof
                    &&& old(self).position() + len > old(self).bits().len()
                    &&& final(self).position() == old(self).bits().len()
                },
            },
    {
        let ghost start: int = self.position() as int;
        let ghost stream: Seq<bool> = self.bits();
        let mut out: u8 = 0;
        let mut i: u8 = 0;
        assert(stream.subrange(start, start) =~= Seq::<bool>::empty());
        while i < len
            invariant
                i <= len <= 8,
                self.wf(),
                self.bytes() == old(self).bytes(),
                stream == old(self).bits(),
                start == old(self).position(),
                self.position() == start + i,
                start + i <= stream.len(),
                out == value_of(stream.subrange(start, start + i)),
            decreases len - i,
        {
            match self.read_bit() {
                Ok(b) => {
                    proof {
                        let seen = stream.subrange(start, start + i);
                        lemma_value_bound(seen);
                        lemma_or_sets_digit(out, b, i);
                        lemma_value_push(seen, stream[start + i]);
                        assert(seen.push(stream[start + i]) =~= stream.subrange(
                            start,
                            start + i + 1,
                        ));
                    }
                    out |= b << i;
                },
                Err(e) => {
                    return Err(e);
                },
            }
            i += 1;
        }
        proof {
            lemma_value_bound(stream.subrange(start, start + len));
        }
        Ok(out)
    }
}

} // verus!
