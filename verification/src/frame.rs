//! The framing of a payload in the words of a grid: a length header in the
//! first nine words, then the payload bits, seven to a word.

use crate::bits::{bits_of_bytes, bytes_of_bits, chunk, digit, value_of};
use crate::image::Grid;
use vstd::arithmetic::div_mod::{lemma_fundamental_div_mod_converse, lemma_mod_breakdown};
use vstd::arithmetic::power2::{lemma2_to64, lemma2_to64_rest, pow2};
use vstd::bits::{lemma_u64_shl_is_mul, lemma_u64_shr_is_div};
use vstd::prelude::*;

verus! {

/// The number of words that the header occupies.
pub const HEADER_WORDS: u8 = 9;

/// The address of the first word of the payload.
pub const DATA_START: u64 = 9;

/// The first payload length that the header cannot express.
pub const HEADER_LIMIT: u64 = 0x8000_0000_0000_0000;

/// The number that `words` spell in base 128, the least significant word first.
pub open spec fn number_of_words(words: Seq<u8>) -> nat
    decreases words.len(),
{
    if words.len() == 0 {
        0
    } else {
        number_of_words(words.drop_last()) + (words.last() as nat) * pow2(
            (7 * (words.len() - 1)) as nat,
        )
    }
}

/// The nine words that spell the payload length `n` in base 128, the least
/// significant word first.
pub open spec fn header_words(n: nat) -> Seq<u8> {
    Seq::new(9, |i: int| ((n / pow2((7 * i) as nat)) % 128) as u8)
}

/// The words that carry a payload: its bit stream cut into groups of seven,
/// the last group being shorter when the stream does not divide evenly.
pub open spec fn payload_words(payload: Seq<u8>) -> Seq<u8> {
    let bits = bits_of_bytes(payload);
    Seq::new((bits.len() + 6) / 7, |j: int| value_of(chunk(bits, 7 * j, 7)) as u8)
}

/// The words that an embedding of a payload writes, from address 0 on: the
/// header words, then the payload words.
pub open spec fn embedded_words(payload: Seq<u8>) -> Seq<u8> {
    header_words(payload.len()) + payload_words(payload)
}

/// The words that carry the bits of `bits` from position `from` on, as far
/// as they make up full groups of seven.
pub open spec fn full_words(bits: Seq<bool>, from: nat) -> Seq<u8> {
    Seq::new(
        ((bits.len() - from) / 7) as nat,
        |j: int| value_of(bits.subrange(from + 7 * j, from + 7 * j + 7)) as u8,
    )
}

/// The number of words that a payload of `bytes` bytes occupies, header included.
pub open spec fn word_count(bytes: nat) -> nat {
    9 + (8 * bytes + 6) / 7
}

impl Grid {
    /// The `n` words from address `start` on.
    pub open spec fn words(self, start: nat, n: nat) -> Seq<u8> {
        Seq::new(n, |i: int| self.word_at((start + i) as nat))
    }

    /// The payload length that the header words of the grid spell.
    pub open spec fn header(self) -> nat {
        number_of_words(self.words(0, 9))
    }

    /// The grid with the payload embedded: the header words at addresses 0
    /// to 8, the payload words from address 9 on.
    pub open spec fn embed(self, payload: Seq<u8>) -> Grid {
        self.put_words(0, header_words(payload.len())).put_words(9, payload_words(payload))
    }

    /// The grid as an embedding leaves it that started with `from > 0` bits
    /// of the payload already consumed and so ran out of bits: the header
    /// words, then the words of the full groups of seven that were left.
    pub open spec fn embed_rest(self, payload: Seq<u8>, from: nat) -> Grid {
        self.put_words(0, header_words(payload.len())).put_words(
            9,
            full_words(bits_of_bytes(payload), from),
        )
    }

    /// The `n` bits that the words from address `start` on carry, seven to a
    /// word, the least significant bit of each word first.
    pub open spec fn word_bits(self, start: nat, n: nat) -> Seq<bool> {
        Seq::new(n, |i: int| digit(self.word_at((start + i / 7) as nat) as nat, (i % 7) as nat))
    }

    /// The bits of the payload that the grid carries, as many as its header says.
    pub open spec fn payload_bits(self) -> Seq<bool> {
        self.word_bits(9, 8 * self.header())
    }

    /// The payload that the grid carries.
    pub open spec fn payload(self) -> Seq<u8> {
        bytes_of_bits(self.payload_bits())
    }
}

/// The weights of the nine header words.
pub proof fn lemma_word_weight(i: nat)
    requires
        i <= 9,
    ensures
        pow2(7 * i) <= 0x8000_0000_0000_0000,
        i < 9 ==> pow2(7 * i) <= 0x0100_0000_0000_0000 && pow2(7 * (i + 1)) == 128 * pow2(7 * i),
        pow2(7 * i) > 0,
{
    lemma2_to64();
    lemma2_to64_rest();
    assert(i == 0 || i == 1 || i == 2 || i == 3 || i == 4 || i == 5 || i == 6 || i == 7 || i == 8
        || i == 9);
}

/// Words below 128 spell a number below `128^n`.
pub proof fn lemma_number_bound(words: Seq<u8>)
    requires
        words.len() <= 9,
        forall|i: int| 0 <= i < words.len() ==> words[i] < 128,
    ensures
        number_of_words(words) < pow2(7 * words.len()),
    decreases words.len(),
{
    lemma2_to64();
    if words.len() > 0 {
        let k = (words.len() - 1) as nat;
        lemma_number_bound(words.drop_last());
        lemma_word_weight(k);
        assert(number_of_words(words.drop_last()) + words.last() * pow2(7 * k) < 128 * pow2(7 * k))
            by (nonlinear_arith)
            requires
                number_of_words(words.drop_last()) < pow2(7 * k),
                words.last() < 128,
        ;
    }
}

/// Two runs of words below 128 that spell the same number are the same.
pub proof fn lemma_number_injective(u: Seq<u8>, v: Seq<u8>)
    requires
        u.len() == v.len() <= 9,
        forall|i: int| 0 <= i < u.len() ==> u[i] < 128,
        forall|i: int| 0 <= i < v.len() ==> v[i] < 128,
        number_of_words(u) == number_of_words(v),
    ensures
        u == v,
    decreases u.len(),
{
    if u.len() > 0 {
        let k = (u.len() - 1) as nat;
        let weight = pow2(7 * k) as int;
        lemma_word_weight(k);
        lemma_number_bound(u.drop_last());
        lemma_number_bound(v.drop_last());
        let n = number_of_words(u) as int;
        assert(n == u.last() * weight + number_of_words(u.drop_last())) by (nonlinear_arith)
            requires
                n == number_of_words(u.drop_last()) + u.last() * weight,
        ;
        assert(n == v.last() * weight + number_of_words(v.drop_last())) by (nonlinear_arith)
            requires
                n == number_of_words(v.drop_last()) + v.last() * weight,
        ;
        lemma_fundamental_div_mod_converse(
            n,
            weight,
            u.last() as int,
            number_of_words(u.drop_last()) as int,
        );
        lemma_fundamental_div_mod_converse(
            n,
            weight,
            v.last() as int,
            number_of_words(v.drop_last()) as int,
        );
        lemma_number_injective(u.drop_last(), v.drop_last());
        assert(u =~= u.drop_last().push(u.last()));
        assert(v =~= v.drop_last().push(v.last()));
    } else {
        assert(u =~= v);
    }
}

/// The header words of `n` spell `n` when `n` fits in 63 bits, and spell its
/// low `7 * k` bits when only the first `k` of them are taken.
pub proof fn lemma_number_of_header_words(n: nat, k: nat)
    requires
        k <= 9,
    ensures
        number_of_words(header_words(n).take(k as int)) == n % pow2(7 * k),
    decreases k,
{
    lemma2_to64();
    if k > 0 {
        let j = (k - 1) as nat;
        let taken = header_words(n).take(k as int);
        lemma_number_of_header_words(n, j);
        assert(taken.drop_last() =~= header_words(n).take(j as int));
        lemma_word_weight(j);
        lemma_mod_breakdown(n as int, pow2(7 * j) as int, 128);
        let low = n % pow2(7 * j);
        let top = (n / pow2(7 * j)) % 128;
        assert(taken.last() == top);
        assert(pow2(7 * k) == pow2(7 * j) * 128);
        assert(top * pow2(7 * j) == pow2(7 * j) * top) by (nonlinear_arith);
        assert(number_of_words(taken) == low + top * pow2(7 * j));
    } else {
        assert(header_words(n).take(0).len() == 0);
    }
}

/// Or-ing header word `i` in at its place, above everything already set,
/// adds its weight.
pub proof fn lemma_or_sets_word(acc: u64, word: u8, i: u8)
    requires
        i < 9,
        acc < pow2(7 * i as nat),
        word < 128,
    ensures
        (acc | ((word as u64) << ((7 * i) as u64))) == acc + word * pow2(7 * i as nat),
        acc + word * pow2(7 * i as nat) < pow2(7 * (i as nat + 1)),
{
    let shift: u64 = (7 * i) as u64;
    let wide: u64 = word as u64;
    lemma_word_weight(i as nat);
    assert(wide * pow2(shift as nat) <= 127 * 0x0100_0000_0000_0000) by (nonlinear_arith)
        requires
            wide <= 127,
            pow2(shift as nat) <= 0x0100_0000_0000_0000,
    ;
    assert(1 * pow2(shift as nat) == pow2(shift as nat)) by (nonlinear_arith);
    lemma_u64_shl_is_mul(wide, shift);
    lemma_u64_shl_is_mul(1, shift);
    let weight: u64 = 1u64 << shift;
    let high: u64 = wide << shift;
    assert(acc | high == acc + high) by (bit_vector)
        requires
            shift <= 56,
            wide < 128,
            weight == 1u64 << shift,
            high == wide << shift,
            acc < weight,
    ;
    assert(acc + wide * pow2(shift as nat) < 128 * pow2(shift as nat)) by (nonlinear_arith)
        requires
            wide <= 127,
            acc < pow2(shift as nat),
    ;
}

/// Shifting right by `7 * i` and masking with `0x7f` reads header word `i`.
pub proof fn lemma_shift_reads_word(n: u64, i: u8)
    requires
        i < 9,
    ensures
        ((n >> ((7 * i) as u64)) & 0x7f) == header_words(n as nat)[i as int],
        ((n >> ((7 * i) as u64)) & 0x7f) < 128,
{
    let shift: u64 = (7 * i) as u64;
    let shifted: u64 = n >> shift;
    lemma_u64_shr_is_div(n, shift);
    assert(shifted & 0x7f == shifted % 128) by (bit_vector);
}

} // verus!
