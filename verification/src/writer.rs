//! A sequential bit sink that gathers bits into bytes.

use crate::bits::{
    bits_of_bytes, bytes_of_bits, digit, digits, lemma_bits_of_bytes_push,
    lemma_bytes_of_bits_partial, lemma_digits_extend, lemma_digits_push, lemma_or_sets_digit,
    lemma_pow2_of_byte_index, lemma_shift_reads_digit, lemma_value_of_digits,
};
use vstd::arithmetic::div_mod::{lemma_div_denominator, lemma_small_mod};
use vstd::arithmetic::power2::{lemma2_to64, lemma_pow2_pos, lemma_pow2_unfold, pow2};
use vstd::bits::lemma_u8_shr_is_div;
use vstd::prelude::*;

verus! {

/// Collects bits in the order written, the first bit of every eight becoming
/// the least significant bit of a byte.
pub struct FileBitWriter {
    out: Vec<u8>,
    bit_position: u64,
    byte: Option<u8>,
}

impl FileBitWriter {
    /// The number of bits held in the byte in progress.
    spec fn pending_len(&self) -> int {
        self.bit_position - 8 * self.out@.len()
    }

    /// The byte in progress as a number; zero when there is none.
    spec fn pending_value(&self) -> nat {
        match self.byte {
            Some(b) => b as nat,
            None => 0,
        }
    }

    /// The byte in progress holds between one and eight bits, and only those.
    spec fn gathers(&self) -> bool {
        &&& 0 <= self.pending_len() <= 8
        &&& self.byte.is_some() <==> self.pending_len() > 0
        &&& self.pending_value() < pow2(self.pending_len() as nat)
    }

    /// Every complete byte has been moved out of the byte in progress.
    pub closed spec fn wf(&self) -> bool {
        self.gathers() && self.pending_len() < 8
    }

    /// The bits written so far, in the order written.
    pub closed spec fn bits(&self) -> Seq<bool> {
        bits_of_bytes(self.out@) + digits(self.pending_value(), self.pending_len() as nat)
    }

    /// The number of bits written so far.
    pub open spec fn position(&self) -> nat {
        self.bits().len()
    }

    /// A writer that has written nothing.
    pub fn open() -> (writer: Self)
        ensures
            writer.wf(),
            writer.bits() == Seq::<bool>::empty(),
    {
        let writer = FileBitWriter { out: Vec::new(), bit_position: 0, byte: None };
        proof {
            lemma2_to64();
            assert(writer.bits() =~= Seq::<bool>::empty());
        }
        writer
    }

    /// Moves the byte in progress, if there is one, to the output.
    fn flush(&mut self)
        requires
            old(self).gathers(),
        ensures
            final(self).byte.is_none(),
            final(self).bit_position == old(self).bit_position,
            final(self).out@ == match old(self).byte {
                Some(b) => old(self).out@.push(b),
                None => old(self).out@,
            },
    {
        if let Some(byte) = self.byte {
            self.out.push(byte);
            self.byte = None;
        }
    }

    /// Writes one bit, given as 0 or 1.
    pub fn write_bit(&mut self, bit: u8)
        requires
            old(self).wf(),
            bit <= 1,
            old(self).position() < u64::MAX,
        ensures
            final(self).wf(),
            final(self).bits() == old(self).bits().push(bit == 1),
    {
        let k: u8 = (self.bit_position % 8) as u8;
        let ghost before: nat = self.pending_value();
        proof {
            lemma2_to64();
            lemma_pow2_of_byte_index(k as nat);
            lemma_digits_extend(before, bit as nat, k as nat);
        }
        self.byte = if let Some(byte) = self.byte {
            proof {
                lemma_or_sets_digit(byte, bit, k);
            }
            let value: u8 = byte | (bit << k);
            Some(value)
        } else {
            assert(bit * pow2(0) == bit) by (nonlinear_arith)
                requires
                    pow2(0) == 1,
            ;
            Some(bit)
        };
        self.bit_position += 1;
        assert(self.pending_value() == before + bit * pow2(k as nat));
        assert(self.bits() == old(self).bits().push(bit == 1)) by {
            assert(self.bits() =~= old(self).bits().push(bit == 1));
        }
        if self.bit_position != 0 && self.bit_position % 8 == 0 {
            proof {
                lemma_bits_of_bytes_push(self.out@, self.byte.unwrap());
            }
            self.flush();
            assert(self.bits() =~= old(self).bits().push(bit == 1));
        }
    }

    /// Writes the low `len` bits of `bits`, least significant first.
    pub fn write_bits(&mut self, bits: u8, len: u8)
        requires
            old(self).wf(),
            1 <= len <= 8,
            old(self).position() + len <= u64::MAX,
        ensures
            final(self).wf(),
            final(self).bits() == old(self).bits() + digits(bits as nat, len as nat),
    {
        let mut rest: u8 = bits;
        let mut i: u8 = 0;
        proof {
            lemma2_to64();
            assert(self.bits() =~= old(self).bits() + digits(bits as nat, 0));
        }
        while i < len
            invariant
                i <= len <= 8,
                self.wf(),
                old(self).position() + len <= u64::MAX,
                rest == bits as nat / pow2(i as nat),
                self.bits() == old(self).bits() + digits(bits as nat, i as nat),
            decreases len - i,
        {
            proof {
                lemma_shift_reads_digit(rest, 0);
                lemma_u8_shr_is_div(rest, 0);
                lemma_u8_shr_is_div(rest, 1);
                lemma2_to64();
                lemma_pow2_pos(i as nat);
                lemma_pow2_unfold(i as nat + 1);
                lemma_div_denominator(bits as int, pow2(i as nat) as int, 2);
                lemma_digits_push(bits as nat, i as nat);
                assert(digit(bits as nat, i as nat) == digit(rest as nat, 0));
            }
            self.write_bit(rest & 1);
            rest >>= 1;
            i += 1;
            assert(self.bits() =~= old(self).bits() + digits(bits as nat, i as nat));
        }
    }

    /// Ends the stream and hands out its bytes; a last byte that is not full
    /// is completed with zero bits.
    pub fn finish(self) -> (bytes: Vec<u8>)
        requires
            self.wf(),
        ensures
            bytes@ == bytes_of_bits(self.bits()),
    {
        let mut writer = self;
        proof {
            let tail = digits(writer.pending_value(), writer.pending_len() as nat);
            lemma_bytes_of_bits_partial(writer.out@, tail);
            lemma_value_of_digits(writer.pending_value(), writer.pending_len() as nat);
            lemma_small_mod(writer.pending_value(), pow2(writer.pending_len() as nat));
        }
        writer.flush();
        writer.out
    }
}

} // verus!
