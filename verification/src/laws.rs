//! What holds of the crate as a whole: the laws that tie reading to writing.

use crate::bits::{
    bits_of_bytes, bytes_of_bits, digit, digits, lemma_bits_of_bytes_of_bits,
    lemma_bytes_of_bits_injective, lemma_bytes_of_bits_partial, lemma_digit_of_chunk,
    lemma_digits_differ, lemma_value_of_digits, value_of,
};
use crate::frame::{
    embedded_words, header_words, lemma_number_injective, lemma_number_of_header_words,
    payload_words, word_count,
};
use crate::image::Grid;
use crate::word::{lemma_pack, lemma_with_word_of, lemma_word_of_with_word};
use vstd::arithmetic::div_mod::{
    lemma_basic_div, lemma_fundamental_div_mod, lemma_mod_bound, lemma_mod_self_0,
    lemma_small_mod,
};
use vstd::arithmetic::mul::lemma_mul_is_distributive_sub;
use vstd::arithmetic::power2::{lemma2_to64, lemma2_to64_rest, pow2};
use vstd::prelude::*;

verus! {

/// Writing to a grid the word that it holds at an address leaves the grid as
/// it was: neither the word bits nor the bits above them change.
pub proof fn law_word_written_back(g: Grid, addr: nat)
    ensures
        g.put_word(addr, g.word_at(addr)) == g,
{
    lemma_with_word_of(g.at(g.column(addr), g.row(addr)));
    assert(g.put_word(addr, g.word_at(addr)).pixels =~= g.pixels);
}

/// A word written at an address is read back there, cut to seven bits; in
/// its pixel the bits of each channel above the word stay as they were.
pub proof fn law_word_read_back(g: Grid, addr: nat, value: u8)
    ensures
        g.put_word(addr, value).word_at(addr) == value % 128,
        g.put_word(addr, value).at(g.column(addr), g.row(addr)).r / 8 == g.at(
            g.column(addr),
            g.row(addr),
        ).r / 8,
        g.put_word(addr, value).at(g.column(addr), g.row(addr)).g / 4 == g.at(
            g.column(addr),
            g.row(addr),
        ).g / 4,
        g.put_word(addr, value).at(g.column(addr), g.row(addr)).b / 4 == g.at(
            g.column(addr),
            g.row(addr),
        ).b / 4,
{
    lemma_word_of_with_word(g.at(g.column(addr), g.row(addr)), value);
}

/// After words are written from `start` on that agree wherever they share
/// a cell, each address written holds its word, cut to seven bits.
pub proof fn law_words_read_back(g: Grid, start: nat, words: Seq<u8>, i: int)
    requires
        g.agree(start, words),
        0 <= i < words.len(),
    ensures
        g.put_words(start, words).word_at((start + i) as nat) == words[i] % 128,
    decreases words.len(),
{
    let shorter = words.drop_last();
    let before = g.put_words(start, shorter);
    let top = (start + words.len() - 1) as nat;
    g.lemma_put_words_extent(start, shorter);
    lemma_word_of_with_word(before.at(before.column(top), before.row(top)), words.last());
    if i < words.len() - 1 {
        assert(g.agree(start, shorter)) by {
            assert forall|a: int, b: int|
                0 <= a < b < shorter.len() && #[trigger] g.shared(
                    (start + a) as nat,
                    (start + b) as nat,
                ) implies shorter[a] % 128 == shorter[b] % 128 by {
                assert(words[a] % 128 == words[b] % 128);
            }
        }
        law_words_read_back(g, start, shorter, i);
        if g.shared((start + i) as nat, top) {
            assert(g.shared((start + i) as nat, (start + (words.len() - 1)) as nat));
            assert(words[i] % 128 == words[words.len() - 1] % 128);
        }
    }
}

/// Words written to cells that all differ agree.
pub proof fn law_distinct_words_agree(g: Grid, start: nat, words: Seq<u8>)
    requires
        g.distinct(start + words.len()),
    ensures
        g.agree(start, words),
{
}

/// A payload length below `2^63` is read back from the header that it is
/// written to, unless two of its header words that differ share a cell.
pub proof fn law_header_round_trip(g: Grid, n: nat)
    requires
        n < 0x8000_0000_0000_0000,
        g.agree(0, header_words(n)),
    ensures
        g.put_words(0, header_words(n)).header() == n,
{
    let written = g.put_words(0, header_words(n));
    assert forall|i: int| 0 <= i < 9 implies written.words(0, 9)[i] == header_words(n)[i] by {
        law_words_read_back(g, 0, header_words(n), i);
        lemma_words_fit(Seq::empty(), n, i);
    }
    assert(written.words(0, 9) =~= header_words(n));
    assert(header_words(n).take(9) =~= header_words(n));
    lemma_number_of_header_words(n, 9);
    lemma2_to64_rest();
    lemma_small_mod(n, pow2(63));
}

/// Header words and payload words fit in seven bits.
pub proof fn lemma_words_fit(payload: Seq<u8>, n: nat, i: int)
    ensures
        0 <= i < 9 ==> header_words(n)[i] < 128 && header_words(n)[i] % 128 == header_words(n)[i],
        0 <= i < payload_words(payload).len() ==> payload_words(payload)[i] < 128
            && payload_words(payload)[i] % 128 == payload_words(payload)[i],
{
    if 0 <= i < payload_words(payload).len() {
        lemma_digit_of_chunk(bits_of_bytes(payload), 7 * i, 7, 0);
        lemma2_to64();
    }
}

/// The words of a grid with a payload embedded, where the words written
/// agree wherever they share a cell: the header words, then the payload
/// words.
pub proof fn law_embedded_words(g: Grid, payload: Seq<u8>, addr: nat)
    requires
        g.agree(0, embedded_words(payload)),
        addr < word_count(payload.len()),
    ensures
        g.embed(payload).word_at(addr) == embedded_words(payload)[addr as int],
        g.embed(payload).word_at(addr) == if addr < 9 {
            header_words(payload.len())[addr as int]
        } else {
            payload_words(payload)[addr - 9]
        },
{
    let head = header_words(payload.len());
    let tail = payload_words(payload);
    g.lemma_put_words_twice(0, head, tail);
    law_words_read_back(g, 0, head + tail, addr as int);
    if addr < 9 {
        lemma_words_fit(payload, payload.len(), addr as int);
    } else {
        lemma_words_fit(payload, payload.len(), addr - 9);
    }
}

/// A payload embedded in a grid that has room for it is extracted again byte
/// for byte, unless two of the words written that differ share a cell.
pub proof fn law_round_trip(g: Grid, payload: Seq<u8>)
    requires
        word_count(payload.len()) <= g.capacity(),
        g.agree(0, embedded_words(payload)),
    ensures
        g.embed(payload).header() == payload.len(),
        g.embed(payload).payload_bits() == bits_of_bytes(payload),
        g.embed(payload).payload() == payload,
{
    let n = payload.len();
    let stream = bits_of_bytes(payload);
    let full = g.embed(payload);
    assert forall|i: int| 0 <= i < 9 implies full.words(0, 9)[i] == header_words(n)[i] by {
        law_embedded_words(g, payload, i as nat);
    }
    assert(full.words(0, 9) =~= header_words(n));
    assert(header_words(n).take(9) =~= header_words(n));
    lemma_number_of_header_words(n, 9);
    lemma2_to64_rest();
    lemma_small_mod(n, pow2(63));
    assert(full.header() == n);
    assert forall|i: int| 0 <= i < 8 * n implies #[trigger] full.payload_bits()[i]
        == stream[i] by {
        let j = i / 7;
        law_embedded_words(g, payload, (9 + j) as nat);
        lemma_digit_of_chunk(stream, 7 * j, 7, (i % 7) as nat);
    }
    assert(full.payload_bits() =~= stream);
    lemma_bytes_of_bits_partial(payload, Seq::<bool>::empty());
    assert(stream + Seq::<bool>::empty() =~= stream);
}

/// A payload embedded in a grid that has room for it, at addresses whose
/// cells all differ, is extracted again byte for byte.
pub proof fn law_round_trip_distinct(g: Grid, payload: Seq<u8>)
    requires
        word_count(payload.len()) <= g.capacity(),
        g.distinct(word_count(payload.len())),
    ensures
        g.embed(payload).header() == payload.len(),
        g.embed(payload).payload() == payload,
{
    law_distinct_words_agree(g, 0, embedded_words(payload));
    law_round_trip(g, payload);
}

/// Of words below 128 that do not agree where they share a cell, one that is
/// not the last is not read back.
pub proof fn law_word_lost(g: Grid, words: Seq<u8>) -> (x: int)
    requires
        !g.agree(0, words),
        forall|i: int| 0 <= i < words.len() ==> words[i] < 128,
    ensures
        0 <= x < words.len() - 1,
        g.put_words(0, words).word_at(x as nat) != words[x],
{
    let written = g.put_words(0, words);
    let (a, b) = lemma_disagreement(g, words);
    lemma_shared_after(g, words, a as nat, b as nat);
    lemma_last_word_read_back(g, 0, words);
    if written.word_at(a as nat) != words[a] {
        a
    } else {
        b
    }
}

/// Addresses that share a cell hold the same word, whatever is written.
proof fn lemma_shared_after(g: Grid, words: Seq<u8>, a: nat, b: nat)
    requires
        g.shared(a, b),
    ensures
        g.put_words(0, words).word_at(a) == g.put_words(0, words).word_at(b),
{
    g.lemma_put_words_extent(0, words);
}

/// Words that do not agree where they share a cell hold two that share a
/// cell and differ in their low seven bits.
proof fn lemma_disagreement(g: Grid, words: Seq<u8>) -> (pair: (int, int))
    requires
        !g.agree(0, words),
    ensures
        0 <= pair.0 < pair.1 < words.len(),
        g.shared(pair.0 as nat, pair.1 as nat),
        words[pair.0] % 128 != words[pair.1] % 128,
{
    choose|a: int, b: int|
        0 <= a < b < words.len() && #[trigger] g.shared((0 + a) as nat, (0 + b) as nat)
            && words[a] % 128 != words[b] % 128
}

/// The last of the words written is read back, cut to seven bits.
proof fn lemma_last_word_read_back(g: Grid, start: nat, words: Seq<u8>)
    requires
        words.len() > 0,
    ensures
        g.put_words(start, words).word_at((start + words.len() - 1) as nat) == words.last() % 128,
{
    let top = (start + words.len() - 1) as nat;
    let before = g.put_words(start, words.drop_last());
    lemma_word_of_with_word(before.at(before.column(top), before.row(top)), words.last());
}

/// A payload length below `2^63` is not read back from the header that it
/// is written to if two of its header words that differ share a cell.
pub proof fn law_header_lost(g: Grid, n: nat)
    requires
        n < 0x8000_0000_0000_0000,
        !g.agree(0, header_words(n)),
    ensures
        g.put_words(0, header_words(n)).header() != n,
{
    let written = g.put_words(0, header_words(n));
    assert forall|i: int| 0 <= i < 9 implies header_words(n)[i] < 128 by {
        lemma_words_fit(Seq::empty(), n, i);
    }
    let x = law_word_lost(g, header_words(n));
    lemma_header_spells(written, n);
    assert(written.words(0, 9)[x] == written.word_at(x as nat));
}

/// A grid whose header spells `n` holds the header words of `n`.
proof fn lemma_header_spells(g: Grid, n: nat)
    requires
        n < 0x8000_0000_0000_0000,
    ensures
        g.header() == n ==> g.words(0, 9) == header_words(n),
{
    if g.header() == n {
        assert forall|i: int| 0 <= i < 9 implies g.words(0, 9)[i] < 128 by {
            lemma_word_fits(g, i as nat);
        }
        assert forall|i: int| 0 <= i < 9 implies header_words(n)[i] < 128 by {
            lemma_words_fit(Seq::empty(), n, i);
        }
        assert(header_words(n).take(9) =~= header_words(n));
        lemma_number_of_header_words(n, 9);
        lemma2_to64_rest();
        lemma_small_mod(n, pow2(63));
        lemma_number_injective(g.words(0, 9), header_words(n));
    }
}

/// Every word of a grid fits in seven bits.
proof fn lemma_word_fits(g: Grid, addr: nat)
    ensures
        g.word_at(addr) < 128,
{
    lemma_pack(g.at(g.column(addr), g.row(addr)));
}

/// A payload embedded in a grid that has room for it is not extracted again
/// if two of the words written that differ share a cell.
pub proof fn law_payload_lost(g: Grid, payload: Seq<u8>)
    requires
        word_count(payload.len()) <= g.capacity(),
        !g.agree(0, embedded_words(payload)),
    ensures
        g.embed(payload).payload() != payload,
{
    let n = payload.len();
    let words = embedded_words(payload);
    let stream = bits_of_bytes(payload);
    let full = g.embed(payload);
    g.lemma_put_words_twice(0, header_words(n), payload_words(payload));
    assert forall|i: int| 0 <= i < words.len() implies words[i] < 128 by {
        lemma_words_fit(payload, n, i);
        lemma_words_fit(payload, n, i - 9);
    }
    let x = law_word_lost(g, words);
    lemma_header_spells(full, n);
    if full.header() != n {
        assert(full.payload().len() == full.header());
    } else if x < 9 {
        assert(full.words(0, 9)[x] == full.word_at(x as nat));
    } else {
        lemma_word_fits(full, x as nat);
        lemma2_to64();
        let j = lemma_digits_differ(full.word_at(x as nat) as nat, words[x] as nat, 7);
        let i = 7 * (x - 9) + j;
        lemma_digit_of_chunk(stream, 7 * (x - 9), 7, j);
        assert(full.payload_bits()[i] != stream[i]);
        if full.payload() == payload {
            lemma_bytes_of_bits_partial(payload, Seq::<bool>::empty());
            assert(stream + Seq::<bool>::empty() =~= stream);
            lemma_bytes_of_bits_injective(full.payload_bits(), stream);
        }
    }
}

/// On a grid at least as wide as it is high, the addresses below the
/// capacity lie in cells that all differ.
pub proof fn law_distinct_when_wide(g: Grid, n: nat)
    requires
        g.width >= g.height,
        n <= g.capacity(),
    ensures
        g.distinct(n),
{
    assert forall|a: nat, b: nat| a < b < n implies !#[trigger] g.shared(a, b) by {
        if g.shared(a, b) {
            lemma_same_cell(a as int, b as int, g.width as int, g.height as int);
        }
    }
}

/// Two numbers with the same remainder modulo `w` and the same quotient by
/// `h`, where `h` is at most `w`, are equal: unequal, they would lie at
/// least `w` and less than `h` apart.
proof fn lemma_same_cell(a: int, b: int, w: int, h: int)
    requires
        0 <= a <= b,
        0 < h <= w,
        a % w == b % w,
        a / h == b / h,
    ensures
        a == b,
{
    lemma_fundamental_div_mod(a, h);
    lemma_fundamental_div_mod(b, h);
    lemma_mod_bound(a, h);
    lemma_mod_bound(b, h);
    assert(b - a < h);
    lemma_fundamental_div_mod(a, w);
    lemma_fundamental_div_mod(b, w);
    let k = b / w - a / w;
    assert(b - a == w * k) by {
        lemma_mul_is_distributive_sub(w, b / w, a / w);
    }
    if a < b {
        assert(w * k >= w) by (nonlinear_arith)
            requires
                w > 0,
                w * k > 0,
        ;
    }
}

/// On a grid that is higher than it is wide, the addresses below `n` lie in
/// cells that all differ exactly when `n` is at most the width: address 0
/// and the address that equals the width share a cell.
pub proof fn law_distinct_when_tall(g: Grid, n: nat)
    requires
        0 < g.width < g.height,
    ensures
        g.distinct(n) <==> n <= g.width,
{
    let w = g.width;
    let h = g.height as int;
    if n <= w {
        assert forall|a: nat, b: nat| a < b < n implies !#[trigger] g.shared(a, b) by {
            lemma_small_mod(a, w);
            lemma_small_mod(b, w);
        }
    } else {
        lemma_small_mod(0, w);
        lemma_mod_self_0(w as int);
        lemma_basic_div(0, h);
        lemma_basic_div(w as int, h);
        assert(g.shared(0, w));
    }
}

/// The bytes that a bit stream of `k > 0` bits is packed into number
/// `ceil(k / 8)`, and the digits of the last byte that lie beyond the stream
/// are zero.
pub proof fn law_flush(bits: Seq<bool>, j: nat)
    requires
        bits.len() > 0,
    ensures
        bytes_of_bits(bits).len() == (bits.len() + 7) / 8,
        bits.len() % 8 != 0 && bits.len() % 8 <= j ==> !digit(bytes_of_bits(bits).last() as nat, j),
{
    let last = (bits.len() + 7) / 8 - 1;
    lemma_digit_of_chunk(bits, 8 * last, 8, j);
}

/// The bit stream that a sequence of groups leaves in a writer: for each
/// group `(value, size)` in turn, the `size` low digits of `value`.
pub open spec fn written(groups: Seq<(u8, nat)>) -> Seq<bool>
    decreases groups.len(),
{
    if groups.len() == 0 {
        Seq::empty()
    } else {
        written(groups.drop_last()) + digits(groups.last().0 as nat, groups.last().1)
    }
}

/// The position in the bit stream at which group `i` starts.
pub open spec fn group_start(groups: Seq<(u8, nat)>, i: int) -> int {
    written(groups.take(i)).len() as int
}

/// Groups of bits written one after another and packed into bytes are read
/// back from those bytes, group by group with the same sizes, as the values
/// written, each cut to its size.
///
/// Group `i` is read at the position where the groups before it end. The
/// total need not fill whole bytes.
pub proof fn law_groups_read_back(groups: Seq<(u8, nat)>, i: int)
    requires
        0 <= i < groups.len(),
        forall|k: int| 0 <= k < groups.len() ==> 1 <= (#[trigger] groups[k]).1 <= 8,
    ensures
        group_start(groups, i) + groups[i].1 <= bits_of_bytes(
            bytes_of_bits(written(groups)),
        ).len(),
        value_of(
            bits_of_bytes(bytes_of_bits(written(groups))).subrange(
                group_start(groups, i),
                group_start(groups, i) + groups[i].1,
            ),
        ) == groups[i].0 as nat % pow2(groups[i].1),
{
    let all = written(groups);
    let stream = bits_of_bytes(bytes_of_bits(all));
    let from = written(groups.take(i)).len() as int;
    let size = groups[i].1;
    lemma_written_group(groups, i);
    lemma_bits_of_bytes_of_bits(all);
    assert(stream.subrange(from, from + size) =~= stream.subrange(0, all.len() as int).subrange(
        from,
        from + size,
    ));
    lemma_value_of_digits(groups[i].0 as nat, size);
}

/// Within the bits that groups leave, group `i` lies where the groups
/// before it end.
proof fn lemma_written_group(groups: Seq<(u8, nat)>, i: int)
    requires
        0 <= i < groups.len(),
    ensures
        group_start(groups, i) + groups[i].1 <= written(groups).len(),
        written(groups).subrange(group_start(groups, i), group_start(groups, i) + groups[i].1)
            == digits(groups[i].0 as nat, groups[i].1),
    decreases groups.len(),
{
    let shorter = groups.drop_last();
    let from = written(groups.take(i)).len() as int;
    let size = groups[i].1;
    if i == groups.len() - 1 {
        assert(groups.take(i) =~= shorter);
        assert(written(groups).subrange(from, from + size) =~= digits(groups[i].0 as nat, size));
    } else {
        lemma_written_group(shorter, i);
        assert(shorter.take(i) =~= groups.take(i));
        assert(written(groups).subrange(from, from + size) =~= written(shorter).subrange(
            from,
            from + size,
        ));
    }
}

} // verus!
