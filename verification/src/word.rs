//! The seven-bit word that one pixel carries, and the words of a grid.
//!
//! A word lies in the low bits of the three channels: its bits 6 to 4 are the
//! low three bits of red, its bits 3 and 2 the low two bits of green, its
//! bits 1 and 0 the low two bits of blue.

use crate::image::{Grid, Pixel};
use vstd::arithmetic::div_mod::{lemma_fundamental_div_mod, lemma_fundamental_div_mod_converse};
use vstd::prelude::*;

verus! {

/// The number of bits in a word.
pub const WORD_SIZE: u8 = 7;

/// The low bits of a byte that a word occupies.
pub const WORD_MASK: u8 = 0x7f;

/// The bits of the red channel that belong to the word.
pub const R_MASK: u8 = 0x07;

/// The bits of the green channel that belong to the word.
pub const G_MASK: u8 = 0x03;

/// The bits of the blue channel that belong to the word.
pub const B_MASK: u8 = 0x03;

/// The place in the word of the lowest blue bit.
pub const B_POS: u8 = 0;

/// The place in the word of the lowest green bit.
pub const G_POS: u8 = 2;

/// The place in the word of the lowest red bit.
pub const R_POS: u8 = 4;

/// The word that a pixel carries.
pub open spec fn word_of(p: Pixel) -> u8 {
    ((p.r % 8) * 16 + (p.g % 4) * 4 + p.b % 4) as u8
}

/// The pixel `p` made to carry the low seven bits of `value`: the word bits
/// of each channel are replaced, the bits above them kept.
pub open spec fn with_word(p: Pixel, value: u8) -> Pixel {
    Pixel {
        r: (p.r - p.r % 8 + (value / 16) % 8) as u8,
        g: (p.g - p.g % 4 + (value / 4) % 4) as u8,
        b: (p.b - p.b % 4 + value % 4) as u8,
    }
}

/// Packing with shifts and masks computes `word_of`.
pub proof fn lemma_pack(p: Pixel)
    ensures
        (p.r & R_MASK) << R_POS | (p.g & G_MASK) << G_POS | (p.b & B_MASK) << B_POS == word_of(p),
        word_of(p) <= WORD_MASK,
{
    let r: u8 = p.r;
    let g: u8 = p.g;
    let b: u8 = p.b;
    assert((r & 0x07) << 4 | (g & 0x03) << 2 | (b & 0x03) << 0 == (r % 8) * 16 + (g % 4) * 4 + b
        % 4) by (bit_vector);
}

/// Replacing low bits with masks computes the channels of `with_word`.
pub proof fn lemma_unpack(p: Pixel, value: u8)
    ensures
        (p.r & !R_MASK) | ((value >> R_POS) & R_MASK) == with_word(p, value).r,
        (p.g & !G_MASK) | ((value >> G_POS) & G_MASK) == with_word(p, value).g,
        (p.b & !B_MASK) | (value & B_MASK) == with_word(p, value).b,
{
    let r: u8 = p.r;
    let g: u8 = p.g;
    let b: u8 = p.b;
    assert((r & !0x07u8) | ((value >> 4) & 0x07) == r - r % 8 + (value / 16) % 8) by (bit_vector);
    assert((g & !0x03u8) | ((value >> 2) & 0x03) == g - g % 4 + (value / 4) % 4) by (bit_vector);
    assert((b & !0x03u8) | (value & 0x03) == b - b % 4 + value % 4) by (bit_vector);
}

/// A pixel made to carry a word carries the low seven bits of it, and keeps
/// the bits of each channel that lie above the word.
pub proof fn lemma_word_of_with_word(p: Pixel, value: u8)
    ensures
        word_of(with_word(p, value)) == value % 128,
        with_word(p, value).r / 8 == p.r / 8,
        with_word(p, value).g / 4 == p.g / 4,
        with_word(p, value).b / 4 == p.b / 4,
{
    lemma_replace_low(p.r as int, 8, ((value / 16) % 8) as int);
    lemma_replace_low(p.g as int, 4, ((value / 4) % 4) as int);
    lemma_replace_low(p.b as int, 4, (value % 4) as int);
    assert(((value / 16) % 8) * 16 + ((value / 4) % 4) * 4 + value % 4 == value % 128)
        by (bit_vector);
}

/// Replacing the remainder of `x` modulo `m` by `low` keeps the quotient.
proof fn lemma_replace_low(x: int, m: int, low: int)
    requires
        0 <= x,
        0 <= low < m,
    ensures
        0 <= x - x % m + low <= x - x % m + m - 1,
        x - x % m + m - 1 <= x + m - 1,
        (x - x % m + low) % m == low,
        (x - x % m + low) / m == x / m,
{
    lemma_fundamental_div_mod(x, m);
    lemma_fundamental_div_mod_converse(x - x % m + low, m, x / m, low);
}

/// Writing back the word that a pixel carries changes nothing.
pub proof fn lemma_with_word_of(p: Pixel)
    ensures
        with_word(p, word_of(p)) == p,
{
    let r: u8 = p.r;
    let g: u8 = p.g;
    let b: u8 = p.b;
    assert({
        let w = ((r % 8) * 16 + (g % 4) * 4 + b % 4) as u8;
        &&& (w / 16) % 8 == r % 8
        &&& (w / 4) % 4 == g % 4
        &&& w % 4 == b % 4
    }) by (bit_vector);
}

impl Grid {
    /// The column of the cell that carries the word at `addr`.
    pub open spec fn column(self, addr: nat) -> nat {
        addr % self.width
    }

    /// The row of the cell that carries the word at `addr`.
    ///
    /// The row is found by dividing by the height, not by the width: on a
    /// grid that is not square, consecutive addresses do not run along rows.
    pub open spec fn row(self, addr: nat) -> nat {
        addr / self.height
    }

    /// Whether the grid has a cell for the word at `addr`.
    pub open spec fn holds(self, addr: nat) -> bool {
        self.has(self.column(addr), self.row(addr))
    }

    /// The number of word addresses, counted from 0 and expressible in 32
    /// bits, for which the grid has a cell.
    pub open spec fn capacity(self) -> nat {
        if self.width == 0 || self.height == 0 {
            0
        } else if self.height * self.height <= 0x1_0000_0000 {
            self.height * self.height
        } else {
            0x1_0000_0000
        }
    }

    /// Whether the word addresses below `n` lie in cells that differ from
    /// one another.
    pub open spec fn distinct(self, n: nat) -> bool {
        forall|a: nat, b: nat| a < b < n ==> !#[trigger] self.shared(a, b)
    }

    /// Whether the addresses `a` and `b` lie in the same cell.
    pub open spec fn shared(self, a: nat, b: nat) -> bool {
        self.column(a) == self.column(b) && self.row(a) == self.row(b)
    }

    /// Whether `words`, written from address `start` on, agree wherever two
    /// of them are written to the same cell: they have the same low seven
    /// bits there. Words written to cells that all differ agree.
    pub open spec fn agree(self, start: nat, words: Seq<u8>) -> bool {
        forall|a: int, b: int|
            0 <= a < b < words.len() && #[trigger] self.shared((start + a) as nat, (start + b) as nat)
                ==> words[a] % 128 == words[b] % 128
    }

    /// The word at `addr`.
    pub open spec fn word_at(self, addr: nat) -> u8 {
        word_of(self.at(self.column(addr), self.row(addr)))
    }

    /// The grid with `value` written as the word at `addr`.
    pub open spec fn put_word(self, addr: nat, value: u8) -> Grid {
        self.set(
            self.column(addr),
            self.row(addr),
            with_word(self.at(self.column(addr), self.row(addr)), value),
        )
    }

    /// The grid with `words` written, first to last, at the addresses from
    /// `start` on.
    pub open spec fn put_words(self, start: nat, words: Seq<u8>) -> Grid
        decreases words.len(),
    {
        if words.len() == 0 {
            self
        } else {
            self.put_words(start, words.drop_last()).put_word(
                (start + words.len() - 1) as nat,
                words.last(),
            )
        }
    }

    /// Writing one run of words and then a second behind it is writing the
    /// two as one run.
    pub proof fn lemma_put_words_twice(self, start: nat, head: Seq<u8>, tail: Seq<u8>)
        ensures
            self.put_words(start, head).put_words(start + head.len(), tail) == self.put_words(
                start,
                head + tail,
            ),
        decreases tail.len(),
    {
        if tail.len() == 0 {
            assert(head + tail =~= head);
        } else {
            self.lemma_put_words_twice(start, head, tail.drop_last());
            assert((head + tail).drop_last() =~= head + tail.drop_last());
        }
    }

    /// Writing words changes no extent, and so no capacity.
    pub proof fn lemma_put_words_extent(self, start: nat, words: Seq<u8>)
        ensures
            self.put_words(start, words).width == self.width,
            self.put_words(start, words).height == self.height,
            self.put_words(start, words).capacity() == self.capacity(),
        decreases words.len(),
    {
        if words.len() > 0 {
            self.lemma_put_words_extent(start, words.drop_last());
        }
    }

    /// The addresses below the capacity are those the grid has a cell for.
    pub proof fn lemma_capacity(self, addr: nat)
        requires
            addr <= u32::MAX,
        ensures
            self.holds(addr) <==> addr < self.capacity(),
    {
        if self.width > 0 && self.height > 0 {
            let h = self.height as int;
            let a = addr as int;
            assert(a / h < h <==> a < h * h) by (nonlinear_arith)
                requires
                    h > 0,
                    a >= 0,
            ;
            assert(a % (self.width as int) < self.width) by (nonlinear_arith)
                requires
                    self.width > 0,
                    a >= 0,
            ;
        }
    }
}

} // verus!
