//! Placement of the data and error correction bits.
//!
//! The bits run along a path that starts in the lower right corner and covers
//! the symbol in twelve pairs of columns from right to left, upwards in the
//! first pair, downwards in the next, and so on; within a pair the right cell
//! of a row comes before the left one. Column 6, the vertical timing pattern,
//! belongs to no pair. Reserved cells on the path are passed over.

use vstd::prelude::*;
use crate::qr_code::layout::in_grid;
use crate::qr_code::matrix::Matrix;

verus! {

/// The right column of pair `p`.
pub open spec fn pair_column(p: int) -> int {
    if p < 9 {
        24 - 2 * p
    } else {
        23 - 2 * p
    }
}

/// The row of the `i`-th cell of the path.
pub open spec fn path_row(i: int) -> int {
    if (i / 50) % 2 == 0 {
        24 - (i % 50) / 2
    } else {
        (i % 50) / 2
    }
}

/// The column of the `i`-th cell of the path.
pub open spec fn path_col(i: int) -> int {
    pair_column(i / 50) - i % 2
}

/// The place on the path of the cell at row `r`, column `c`, for `c` other than 6.
pub open spec fn path_index(r: int, c: int) -> int {
    let p = if c > 6 {
        (24 - c) / 2
    } else {
        (23 - c) / 2
    };
    let step = if p % 2 == 0 {
        24 - r
    } else {
        r
    };
    50 * p + 2 * step + (pair_column(p) - c)
}

/// The number of cells among the first `i` of the path that are not reserved.
pub open spec fn free_before(res: Seq<Seq<bool>>, i: int) -> int
    decreases i,
{
    if i <= 0 {
        0
    } else {
        free_before(res, i - 1) + if res[path_row(i - 1)][path_col(i - 1)] {
            0int
        } else {
            1int
        }
    }
}

/// The module at (`r`, `c`) after `bits` are placed in `g`: a free cell on the
/// path takes the bit whose number is the count of free cells before it, as
/// long as there is such a bit; every other module stays.
pub open spec fn filled_module(
    g: Seq<Seq<u8>>,
    res: Seq<Seq<bool>>,
    bits: Seq<u8>,
    r: int,
    c: int,
) -> u8 {
    if c != 6 && !res[r][c] && free_before(res, path_index(r, c)) < bits.len() {
        bits[free_before(res, path_index(r, c))]
    } else {
        g[r][c]
    }
}

/// The grid `g` after `bits` are placed in the cells that `res` leaves free.
pub open spec fn filled(g: Seq<Seq<u8>>, res: Seq<Seq<bool>>, bits: Seq<u8>) -> Seq<Seq<u8>> {
    Seq::new(25, |r: int| Seq::new(25, |c: int| filled_module(g, res, bits, r, c)))
}

/// Every cell of the path lies in the symbol, outside column 6, and is found
/// again by its coordinates.
pub proof fn lemma_path_cell(i: int)
    requires
        0 <= i < 600,
    ensures
        in_grid(path_row(i), path_col(i)),
        path_col(i) != 6,
        path_index(path_row(i), path_col(i)) == i,
{
    let p = i / 50;
    assert(0 <= p < 12);
    let side = i % 2;
    let step = (i % 50) / 2;
    assert(i == 50 * p + 2 * step + side);
    let c = path_col(i);
    if p < 9 {
        assert(c == 24 - 2 * p - side);
        assert((24 - c) / 2 == p);
    } else {
        assert(c == 23 - 2 * p - side);
        assert((23 - c) / 2 == p);
    }
}

/// Every cell of the symbol outside column 6 lies on the path.
pub proof fn lemma_cell_on_path(r: int, c: int)
    requires
        in_grid(r, c),
        c != 6,
    ensures
        0 <= path_index(r, c) < 600,
        path_row(path_index(r, c)) == r,
        path_col(path_index(r, c)) == c,
{
    let p = if c > 6 {
        (24 - c) / 2
    } else {
        (23 - c) / 2
    };
    let step = if p % 2 == 0 {
        24 - r
    } else {
        r
    };
    let side = pair_column(p) - c;
    assert(0 <= p < 12);
    assert(0 <= side <= 1);
    let i = path_index(r, c);
    assert(i == 50 * p + (2 * step + side));
    assert(i / 50 == p && i % 50 == 2 * step + side) by {
        vstd::arithmetic::div_mod::lemma_fundamental_div_mod_converse(i, 50, p, 2 * step + side);
    }
    assert(i % 2 == side);
}

/// The count of free cells grows along the path.
pub proof fn lemma_free_before_grows(res: Seq<Seq<bool>>, i: int, j: int)
    requires
        i <= j,
    ensures
        free_before(res, i) <= free_before(res, j),
        0 <= free_before(res, i),
        i >= 0 ==> free_before(res, i) <= i,
    decreases j - i, i,
{
    if i < j {
        lemma_free_before_grows(res, i, j - 1);
    } else if i > 0 {
        lemma_free_before_grows(res, i - 1, i - 1);
    }
}

impl Matrix {
    /// Places the 352 bits of the codewords along the path, passing over
    /// reserved cells. Free cells that are left when the bits run out keep their
    /// modules, and so do all reserved cells.
    pub fn fill_data(&mut self, data_bits: [u8; 352])
        ensures
            final(self).modules() == filled(
                old(self).modules(),
                old(self).reservation(),
                data_bits@,
            ),
            final(self).reservation() == old(self).reservation(),
    {
        let ghost res = self.reservation();
        let ghost g = self.modules();
        let mut index: usize = 0;
        let mut i: usize = 0;
        while i < 600 && index < 352
            invariant
                i <= 600,
                index <= 352,
                res == old(self).reservation(),
                g == old(self).modules(),
                index == free_before(res, i as int),
                forall|r: int, c: int|
                    0 <= r < 25 && 0 <= c < 25 ==> #[trigger] self.reserved(r, c) == old(
                        self,
                    ).reserved(r, c),
                forall|r: int, c: int|
                    0 <= r < 25 && 0 <= c < 25 ==> #[trigger] self.module(r, c) == (if c != 6
                        && path_index(r, c) < i {
                        filled_module(g, res, data_bits@, r, c)
                    } else {
                        old(self).module(r, c)
                    }),
            decreases 600 - i,
        {
            let pair = i / 50;
            let step = (i % 50) / 2;
            let right = if pair < 9 {
                24 - 2 * pair
            } else {
                23 - 2 * pair
            };
            let row = if pair % 2 == 0 {
                24 - step
            } else {
                step
            };
            let col = right - i % 2;
            proof {
                lemma_path_cell(i as int);
                assert forall|r: int, c: int| 0 <= r < 25 && 0 <= c < 25 && c != 6 && !(r == row
                    && c == col) implies path_index(r, c) != i by {
                    lemma_cell_on_path(r, c);
                }
            }
            if !self.is_reserved(row, col) {
                self.put(row, col, data_bits[index]);
                index += 1;
            }
            i += 1;
        }
        proof {
            assert forall|r: int, c: int| 0 <= r < 25 && 0 <= c < 25 implies #[trigger] self.module(
                r,
                c,
            ) == filled_module(g, res, data_bits@, r, c) by {
                if c != 6 && path_index(r, c) >= i {
                    lemma_cell_on_path(r, c);
                    lemma_free_before_grows(res, i as int, path_index(r, c));
                }
            }
            assert(self.modules() =~~= filled(g, res, data_bits@));
            assert(self.reservation() =~~= res);
        }
    }
}

} // verus!
