//! The format information: error correction level and mask, protected by a
//! (15, 5) BCH code and placed twice beside the finder patterns.

use vstd::prelude::*;
use crate::binary::{bit, write_bits};
use crate::qr_code::layout::{Pattern, in_grid, zone};
use crate::qr_code::matrix::Matrix;

verus! {

/// The generator polynomial of the BCH code, of degree 10.
pub const FORMAT_GENERATOR: u16 = 0b101_0011_0111;

/// The pattern that is added to every format code.
pub const FORMAT_MASK: u16 = 0b101_0100_0001_0010;

/// The two bits that stand for error correction level L, ahead of the three
/// bits of the mask.
pub const LEVEL_L: u16 = 0b01_000;

/// The remainder of `v`, a polynomial over GF(2) of degree at most `top`,
/// modulo the generator: the terms from `x^top` down to `x^10` are cancelled in
/// turn.
pub open spec fn bch_reduce(v: u16, top: nat) -> u16
    decreases top,
{
    if top < 10 {
        v
    } else {
        let w = if (v >> (top as u16)) & 1 == 1 {
            v ^ (FORMAT_GENERATOR << ((top - 10) as u16))
        } else {
            v
        };
        bch_reduce(w, (top - 1) as nat)
    }
}

/// The five data bits of level L and `mask_no`, followed by the ten bits of
/// their remainder.
pub open spec fn bch_codeword(mask_no: int) -> u16 {
    let data = ((LEVEL_L + mask_no) as u16) << 10;
    data | bch_reduce(data, 14)
}

/// The 15 bits of format information for level L and the mask `mask_no`.
pub open spec fn format_code(mask_no: int) -> u16 {
    bch_codeword(mask_no) ^ FORMAT_MASK
}

/// Which bit of the format information the cell at (`r`, `c`) shows, counted
/// from the most significant, or -1 where it shows none.
pub open spec fn format_slot(r: int, c: int) -> int {
    if r == 8 && 0 <= c <= 5 {
        c
    } else if r == 8 && 7 <= c <= 8 {
        c - 1
    } else if r == 8 && 17 <= c <= 24 {
        c - 10
    } else if c == 8 && 0 <= r <= 5 {
        14 - r
    } else if c == 8 && r == 7 {
        8
    } else if c == 8 && 18 <= r <= 24 {
        24 - r
    } else {
        -1
    }
}

/// The cell beside the upper left finder pattern that shows bit `i`.
pub open spec fn first_copy(i: int) -> (int, int) {
    if i <= 5 {
        (8, i)
    } else if i <= 7 {
        (8, i + 1)
    } else if i == 8 {
        (7, 8)
    } else {
        (14 - i, 8)
    }
}

/// The cell beside the lower left or the upper right finder pattern that shows
/// bit `i`.
pub open spec fn second_copy(i: int) -> (int, int) {
    if i <= 6 {
        (24 - i, 8)
    } else {
        (8, i + 10)
    }
}

/// The module at (`r`, `c`) once the format information `code` is placed in `g`.
pub open spec fn format_module(g: Seq<Seq<u8>>, code: u16, r: int, c: int) -> u8 {
    if format_slot(r, c) >= 0 {
        bit(code as int, 14 - format_slot(r, c))
    } else {
        g[r][c]
    }
}

/// The grid `g` with the format information `code` in its two places.
pub open spec fn with_format(g: Seq<Seq<u8>>, code: u16) -> Seq<Seq<u8>> {
    Seq::new(25, |r: int| Seq::new(25, |c: int| format_module(g, code, r, c)))
}

/// The codeword of every mask is a multiple of the generator polynomial.
pub proof fn lemma_codeword_divisible(mask_no: int)
    requires
        0 <= mask_no < 8,
    ensures
        bch_reduce(bch_codeword(mask_no), 14) == 0,
        bch_codeword(mask_no) < 0x8000,
{
    let d = (LEVEL_L + mask_no) as u16;
    reveal_with_fuel(bch_reduce, 6);
    assert(d < 16 ==> bch_reduce((d << 10) | bch_reduce(d << 10, 14), 14) == 0 && ((d << 10)
        | bch_reduce(d << 10, 14)) < 0x8000) by (bit_vector);
}

/// Each bit of the format information has two cells, both in the area that is
/// reserved for it, and no other cell shows format information.
pub proof fn lemma_format_cells(r: int, c: int, i: int)
    requires
        0 <= i < 15,
    ensures
        format_slot(first_copy(i).0, first_copy(i).1) == i,
        format_slot(second_copy(i).0, second_copy(i).1) == i,
        first_copy(i) != second_copy(i),
        zone(Pattern::Format, first_copy(i).0, first_copy(i).1),
        zone(Pattern::Format, second_copy(i).0, second_copy(i).1),
        in_grid(r, c) ==> (format_slot(r, c) == i <==> ((r, c) == first_copy(i) || (r, c)
            == second_copy(i))),
        format_slot(r, c) >= -1,
        format_slot(r, c) < 15,
{
}

/// The 15 bits of format information for level L and the mask `mask_no`.
pub fn format_string(mask_no: usize) -> (code: u16)
    requires
        mask_no < 8,
    ensures
        code == format_code(mask_no as int),
        code < 0x8000,
{
    let data: u16 = (LEVEL_L + mask_no as u16) << 10;
    let mut rest: u16 = data;
    let mut top: u16 = 14;
    while top >= 10
        invariant
            9 <= top <= 14,
            bch_reduce(rest, top as nat) == bch_reduce(data, 14),
        decreases top,
    {
        if (rest >> top) & 1 == 1 {
            rest = rest ^ (FORMAT_GENERATOR << (top - 10));
        }
        top -= 1;
    }
    let code = (data | rest) ^ FORMAT_MASK;
    proof {
        lemma_codeword_divisible(mask_no as int);
        let word = data | rest;
        assert(word < 0x8000 ==> word ^ FORMAT_MASK < 0x8000) by (bit_vector);
    }
    code
}

impl Matrix {
    /// Writes the format information for level L and the mask `mask_no` into
    /// its two places.
    pub fn place_format_string(&mut self, mask_no: usize)
        requires
            mask_no < 8,
        ensures
            final(self).modules() == with_format(old(self).modules(), format_code(mask_no as int)),
            final(self).reservation() == old(self).reservation(),
    {
        let code = format_string(mask_no);
        let mut bits: [u8; 15] = [0; 15];
        write_bits(&mut bits, 0, code, 15);
        let ghost g = self.modules();
        let mut n: usize = 0;
        while n < 8
            invariant
                n <= 8,
                g == old(self).modules(),
                forall|j: int| 0 <= j < 15 ==> #[trigger] bits[j] == bit(code as int, 14 - j),
                forall|r: int, c: int|
                    0 <= r < 25 && 0 <= c < 25 ==> #[trigger] self.reserved(r, c) == old(
                        self,
                    ).reserved(r, c),
                forall|r: int, c: int|
                    0 <= r < 25 && 0 <= c < 25 ==> #[trigger] self.module(r, c) == (if 0
                        <= format_slot(r, c) < n || 14 - n < format_slot(r, c) {
                        format_module(g, code, r, c)
                    } else {
                        old(self).module(r, c)
                    }),
            decreases 8 - n,
        {
            let near = if n < 6 {
                n
            } else {
                n + 1
            };
            self.put(8, near, bits[n]);
            self.put(near, 8, bits[14 - n]);
            if n < 7 {
                self.put(24 - n, 8, bits[n]);
            }
            self.put(8, 24 - n, bits[14 - n]);
            n += 1;
        }
        assert(self.modules() =~~= with_format(g, code));
        assert(self.reservation() =~~= old(self).reservation());
    }
}

} // verus!
