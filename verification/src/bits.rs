//! Bit sequences and the numbers they spell, least significant bit first.
//!
//! Every quantity this crate moves around (a byte of payload, a seven-bit word
//! in a pixel, the length header) is a run of binary digits. This module fixes
//! the two directions between numbers and digit sequences and proves that they
//! undo each other.

use vstd::arithmetic::div_mod::{
    lemma_basic_div, lemma_div_denominator, lemma_mod_breakdown, lemma_small_mod,
};
use vstd::arithmetic::power2::{
    lemma2_to64, lemma_pow2_pos, lemma_pow2_strictly_increases, lemma_pow2_unfold, pow2,
};
use vstd::bits::{lemma_u8_shl_is_mul, lemma_u8_shr_is_div};
use vstd::prelude::*;

verus! {

/// A binary digit as a number.
pub open spec fn bit(b: bool) -> nat {
    if b {
        1
    } else {
        0
    }
}

/// Binary digit `j` of `v`, digit 0 being the least significant.
pub open spec fn digit(v: nat, j: nat) -> bool {
    (v / pow2(j)) % 2 == 1
}

/// The `n` low binary digits of `v`, least significant first.
pub open spec fn digits(v: nat, n: nat) -> Seq<bool> {
    Seq::new(n, |j: int| digit(v, j as nat))
}

/// The number whose binary digits, least significant first, are `bits`.
pub open spec fn value_of(bits: Seq<bool>) -> nat
    decreases bits.len(),
{
    if bits.len() == 0 {
        0
    } else {
        bit(bits[0]) + 2 * value_of(bits.drop_first())
    }
}

/// The bit stream that a byte sequence holds: eight digits per byte, the
/// least significant digit of each byte first.
pub open spec fn bits_of_bytes(bytes: Seq<u8>) -> Seq<bool> {
    Seq::new(8 * bytes.len(), |i: int| digit(bytes[i / 8] as nat, (i % 8) as nat))
}

/// The part of `bits` that starts at `from` and runs for `n` digits, or to the
/// end of `bits` if that comes first.
pub open spec fn chunk(bits: Seq<bool>, from: int, n: int) -> Seq<bool> {
    bits.subrange(from, if from + n <= bits.len() { from + n } else { bits.len() as int })
}

/// The bytes that hold a bit stream, eight digits per byte; the last byte is
/// filled up with zero digits.
pub open spec fn bytes_of_bits(bits: Seq<bool>) -> Seq<u8> {
    Seq::new((bits.len() + 7) / 8, |i: int| value_of(chunk(bits, 8 * i, 8)) as u8)
}

/// Digit 0 of a number is its parity, and digit `j + 1` is digit `j` of its half.
pub proof fn lemma_digit_step(v: nat, j: nat)
    ensures
        digit(v, 0) == (v % 2 == 1),
        digit(v, j + 1) == digit(v / 2, j),
{
    lemma2_to64();
    lemma_pow2_pos(j);
    lemma_pow2_unfold(j + 1);
    lemma_div_denominator(v as int, 2, pow2(j) as int);
}

/// A sequence of `n` digits spells a number below `2^n`.
pub proof fn lemma_value_bound(bits: Seq<bool>)
    ensures
        value_of(bits) < pow2(bits.len()),
    decreases bits.len(),
{
    if bits.len() == 0 {
        lemma2_to64();
    } else {
        lemma_value_bound(bits.drop_first());
        lemma_pow2_unfold(bits.len());
    }
}

/// Spelling the `n` low digits of `v` gives `v` modulo `2^n`.
pub proof fn lemma_value_of_digits(v: nat, n: nat)
    ensures
        value_of(digits(v, n)) == v % pow2(n),
    decreases n,
{
    lemma2_to64();
    if n > 0 {
        let rest = (n - 1) as nat;
        lemma_value_of_digits(v / 2, rest);
        lemma_digit_step(v, 0);
        assert(digits(v, n).drop_first() =~= digits(v / 2, rest)) by {
            assert forall|j: int| 0 <= j < rest implies digit(v, (j + 1) as nat)
                == #[trigger] digit(v / 2, j as nat) by {
                lemma_digit_step(v, j as nat);
            }
        }
        lemma_pow2_unfold(n);
        lemma_pow2_pos(rest);
        lemma_mod_breakdown(v as int, 2, pow2(rest) as int);
    }
}

/// Digit `j` of the number that `bits` spells is `bits[j]`, and a zero digit
/// beyond the end of `bits`.
pub proof fn lemma_digit_of_value(bits: Seq<bool>, j: nat)
    ensures
        digit(value_of(bits), j) == (j < bits.len() && bits[j as int]),
    decreases j,
{
    let v = value_of(bits);
    if j >= bits.len() {
        lemma_value_bound(bits);
        if j > bits.len() {
            lemma_pow2_strictly_increases(bits.len(), j);
        }
        lemma_basic_div(v as int, pow2(j) as int);
    } else if j == 0 {
        lemma_digit_step(v, 0);
    } else {
        lemma_digit_step(v, (j - 1) as nat);
        assert(v / 2 == value_of(bits.drop_first()));
        lemma_digit_of_value(bits.drop_first(), (j - 1) as nat);
    }
}

/// The digits of the number that `bits` spells are `bits` again.
pub proof fn lemma_digits_of_value(bits: Seq<bool>)
    ensures
        digits(value_of(bits), bits.len()) == bits,
{
    assert forall|j: int| 0 <= j < bits.len() implies digit(value_of(bits), j as nat)
        == bits[j] by {
        lemma_digit_of_value(bits, j as nat);
    }
    assert(digits(value_of(bits), bits.len()) =~= bits);
}

/// Appending one digit adds its weight.
pub proof fn lemma_value_push(bits: Seq<bool>, b: bool)
    ensures
        value_of(bits.push(b)) == value_of(bits) + bit(b) * pow2(bits.len()),
    decreases bits.len(),
{
    lemma2_to64();
    if bits.len() == 0 {
        assert(bits.push(b).drop_first() =~= bits);
    } else {
        let rest = bits.drop_first();
        lemma_value_push(rest, b);
        assert(bits.push(b).drop_first() =~= rest.push(b));
        lemma_pow2_unfold(bits.len());
        assert(2 * (bit(b) * pow2(rest.len())) == bit(b) * (2 * pow2(rest.len())))
            by (nonlinear_arith);
    }
}

/// The powers of two that fit in a byte.
pub proof fn lemma_pow2_of_byte_index(k: nat)
    requires
        k < 8,
    ensures
        1 <= pow2(k) <= 128,
        pow2(k) < pow2(k + 1) <= 256,
{
    lemma2_to64();
    lemma_pow2_unfold(k + 1);
    assert(k == 0 || k == 1 || k == 2 || k == 3 || k == 4 || k == 5 || k == 6 || k == 7);
}

/// Shifting a byte right by `k` and masking with 1 reads its digit `k`.
pub proof fn lemma_shift_reads_digit(byte: u8, k: u8)
    requires
        k < 8,
    ensures
        ((byte >> k) & 1) as nat == bit(digit(byte as nat, k as nat)),
{
    let shifted: u8 = byte >> k;
    lemma_u8_shr_is_div(byte, k);
    assert(shifted & 1 == shifted % 2) by (bit_vector);
}

/// Or-ing a digit in at position `k`, above everything already set, adds its weight.
pub proof fn lemma_or_sets_digit(acc: u8, b: u8, k: u8)
    requires
        k < 8,
        acc < pow2(k as nat),
        b <= 1,
    ensures
        (acc | (b << k)) as nat == acc + b * pow2(k as nat),
        acc + b * pow2(k as nat) < pow2(k as nat + 1),
{
    lemma_pow2_of_byte_index(k as nat);
    lemma_pow2_unfold(k as nat + 1);
    assert(b * pow2(k as nat) <= 128) by (nonlinear_arith)
        requires
            b <= 1,
            pow2(k as nat) <= 128,
    ;
    assert(1 * pow2(k as nat) == pow2(k as nat)) by (nonlinear_arith);
    lemma_u8_shl_is_mul(b, k);
    lemma_u8_shl_is_mul(1, k);
    let weight: u8 = 1u8 << k;
    let high: u8 = b << k;
    assert(acc | high == acc + high) by (bit_vector)
        requires
            k < 8,
            b <= 1,
            weight == 1u8 << k,
            high == b << k,
            acc < weight,
    ;
    assert(acc + b * pow2(k as nat) < 2 * pow2(k as nat)) by (nonlinear_arith)
        requires
            b <= 1,
            acc < pow2(k as nat),
    ;
}

/// One more digit of `v` is its digit `n`.
pub proof fn lemma_digits_push(v: nat, n: nat)
    ensures
        digits(v, n + 1) == digits(v, n).push(digit(v, n)),
{
    assert(digits(v, n + 1) =~= digits(v, n).push(digit(v, n)));
}

/// Adding a digit of weight `2^k` to a number below `2^k` appends that digit.
pub proof fn lemma_digits_extend(v: nat, b: nat, k: nat)
    requires
        v < pow2(k),
        b <= 1,
    ensures
        digits(v + b * pow2(k), k + 1) == digits(v, k).push(b == 1),
{
    let longer = digits(v, k).push(b == 1);
    lemma_value_push(digits(v, k), b == 1);
    lemma_value_of_digits(v, k);
    lemma_small_mod(v, pow2(k));
    assert(bit(b == 1) == b);
    lemma_digits_of_value(longer);
}

/// The bit stream of a byte sequence grows by the eight digits of a byte
/// that is appended.
pub proof fn lemma_bits_of_bytes_push(bytes: Seq<u8>, byte: u8)
    ensures
        bits_of_bytes(bytes.push(byte)) == bits_of_bytes(bytes) + digits(byte as nat, 8),
{
    assert(bits_of_bytes(bytes.push(byte)) =~= bits_of_bytes(bytes) + digits(byte as nat, 8));
}

/// The eight bits of the stream that start at `8 * i` are the digits of byte `i`.
pub proof fn lemma_byte_of_stream(bytes: Seq<u8>, i: int)
    requires
        0 <= i < bytes.len(),
    ensures
        bits_of_bytes(bytes).subrange(8 * i, 8 * i + 8) == digits(bytes[i] as nat, 8),
        value_of(digits(bytes[i] as nat, 8)) == bytes[i],
{
    assert(bits_of_bytes(bytes).subrange(8 * i, 8 * i + 8) =~= digits(bytes[i] as nat, 8));
    lemma_value_of_digits(bytes[i] as nat, 8);
    lemma2_to64();
}

/// Packing the bit stream of `bytes`, followed by at most eight further
/// bits, gives `bytes` again, followed by one byte that spells those bits.
pub proof fn lemma_bytes_of_bits_partial(bytes: Seq<u8>, tail: Seq<bool>)
    requires
        tail.len() <= 8,
    ensures
        bytes_of_bits(bits_of_bytes(bytes) + tail) == if tail.len() == 0 {
            bytes
        } else {
            bytes.push(value_of(tail) as u8)
        },
        value_of(tail) < 256,
{
    let bits = bits_of_bytes(bytes) + tail;
    let n = bytes.len() as int;
    let packed = bytes_of_bits(bits);
    let wanted = if tail.len() == 0 {
        bytes
    } else {
        bytes.push(value_of(tail) as u8)
    };
    lemma2_to64();
    lemma_value_bound(tail);
    if tail.len() < 8 {
        lemma_pow2_strictly_increases(tail.len(), 8);
    }
    assert forall|i: int| 0 <= i < packed.len() implies packed[i] == wanted[i] by {
        if i < n {
            lemma_byte_of_stream(bytes, i);
            assert(chunk(bits, 8 * i, 8) =~= bits_of_bytes(bytes).subrange(8 * i, 8 * i + 8));
        } else {
            assert(chunk(bits, 8 * i, 8) =~= tail);
        }
    }
    assert(packed =~= wanted);
}

/// A full or partial group of at most eight bits spells a number that fits
/// in a byte, and the digits of that byte are the group, then zeros.
pub proof fn lemma_digit_of_chunk(bits: Seq<bool>, from: int, n: int, j: nat)
    requires
        0 <= from <= bits.len(),
        0 <= n <= 8,
    ensures
        value_of(chunk(bits, from, n)) < pow2(n as nat) <= 256,
        digit(value_of(chunk(bits, from, n)), j) == (j < n && from + j < bits.len() && bits[from
            + j]),
{
    let group = chunk(bits, from, n);
    lemma2_to64();
    lemma_value_bound(group);
    if group.len() < n {
        lemma_pow2_strictly_increases(group.len(), n as nat);
    }
    if n < 8 {
        lemma_pow2_strictly_increases(n as nat, 8);
    }
    lemma_digit_of_value(group, j);
}

/// The bit stream of the bytes that hold `bits` is `bits`, followed by the
/// zero bits that fill the last byte.
pub proof fn lemma_bits_of_bytes_of_bits(bits: Seq<bool>)
    ensures
        bits_of_bytes(bytes_of_bits(bits)).len() == 8 * ((bits.len() + 7) / 8),
        bits_of_bytes(bytes_of_bits(bits)).subrange(0, bits.len() as int) == bits,
        forall|i: int|
            bits.len() <= i < 8 * ((bits.len() + 7) / 8) ==> !#[trigger] bits_of_bytes(
                bytes_of_bits(bits),
            )[i],
{
    let bytes = bytes_of_bits(bits);
    let stream = bits_of_bytes(bytes);
    assert forall|i: int| 0 <= i < stream.len() implies #[trigger] stream[i] == (i < bits.len()
        && bits[i]) by {
        lemma_digit_of_chunk(bits, 8 * (i / 8), 8, (i % 8) as nat);
    }
    assert(stream.subrange(0, bits.len() as int) =~= bits);
}

/// Two numbers below `2^n` that differ have a digit among their `n` low
/// digits in which they differ.
pub proof fn lemma_digits_differ(v: nat, w: nat, n: nat) -> (j: nat)
    requires
        v < pow2(n),
        w < pow2(n),
        v != w,
    ensures
        j < n,
        digit(v, j) != digit(w, j),
{
    lemma_value_of_digits(v, n);
    lemma_value_of_digits(w, n);
    lemma_small_mod(v, pow2(n));
    lemma_small_mod(w, pow2(n));
    if digits(v, n) =~= digits(w, n) {
        assert(value_of(digits(v, n)) == value_of(digits(w, n)));
    }
    let j = choose|j: int| 0 <= j < n && digits(v, n)[j] != digits(w, n)[j];
    j as nat
}

/// Two bit streams of the same length that are packed into the same bytes
/// are the same.
pub proof fn lemma_bytes_of_bits_injective(a: Seq<bool>, b: Seq<bool>)
    requires
        a.len() == b.len(),
        bytes_of_bits(a) == bytes_of_bits(b),
    ensures
        a == b,
{
    lemma_bits_of_bytes_of_bits(a);
    lemma_bits_of_bytes_of_bits(b);
}

} // verus!
