//! The eight data masks and the choice among them.
//!
//! A mask inverts the modules of the cells that are not reserved and at which
//! its pattern, a function of the row and the column, is zero. The mask whose
//! result has the lowest penalty score is applied; among equals, the first.

use vstd::prelude::*;
use crate::qr_code::format::{format_code, with_format};
use crate::qr_code::matrix::Matrix;
use crate::qr_code::penalty::penalty;

verus! {

/// The pattern of mask `mask_no` at row `r`, column `c`. A number above 7
/// stands for mask 7.
pub open spec fn mask_value(mask_no: int, r: int, c: int) -> int {
    if mask_no == 0 {
        (r + c) % 2
    } else if mask_no == 1 {
        r % 2
    } else if mask_no == 2 {
        c % 3
    } else if mask_no == 3 {
        (r + c) % 3
    } else if mask_no == 4 {
        (r / 2 + c / 3) % 2
    } else if mask_no == 5 {
        (r * c) % 2 + (r * c) % 3
    } else if mask_no == 6 {
        ((r * c) % 2 + (r * c) % 3) % 2
    } else {
        ((r + c) % 2 + (r * c) % 3) % 2
    }
}

/// The module `v` inverted: dark becomes light and light dark.
pub open spec fn flipped(v: u8) -> u8 {
    if v == 1 {
        0
    } else {
        1
    }
}

/// The grid `g` with the module at (`row`, `col`) inverted, unless `res`
/// reserves that cell.
pub open spec fn toggled(g: Seq<Seq<u8>>, res: Seq<Seq<bool>>, row: int, col: int) -> Seq<
    Seq<u8>,
> {
    Seq::new(
        25,
        |r: int|
            Seq::new(
                25,
                |c: int|
                    if r == row && c == col && !res[r][c] {
                        flipped(g[r][c])
                    } else {
                        g[r][c]
                    },
            ),
    )
}

/// The module at (`r`, `c`) of `g` under mask `mask_no`.
pub open spec fn masked_module(
    g: Seq<Seq<u8>>,
    res: Seq<Seq<bool>>,
    mask_no: int,
    r: int,
    c: int,
) -> u8 {
    if !res[r][c] && mask_value(mask_no, r, c) == 0 {
        flipped(g[r][c])
    } else {
        g[r][c]
    }
}

/// The grid `g` under mask `mask_no`, which spares the cells that `res` reserves.
pub open spec fn masked(g: Seq<Seq<u8>>, res: Seq<Seq<bool>>, mask_no: int) -> Seq<Seq<u8>> {
    Seq::new(25, |r: int| Seq::new(25, |c: int| masked_module(g, res, mask_no, r, c)))
}

/// The penalty score of `g` under mask `mask_no`.
pub open spec fn mask_score(g: Seq<Seq<u8>>, res: Seq<Seq<bool>>, mask_no: int) -> int {
    penalty(masked(g, res, mask_no))
}

/// The first of the masks below `n` with the lowest score among them.
pub open spec fn best_mask_below(g: Seq<Seq<u8>>, res: Seq<Seq<bool>>, n: int) -> int
    decreases n,
{
    if n <= 1 {
        0
    } else {
        let best = best_mask_below(g, res, n - 1);
        if mask_score(g, res, n - 1) < mask_score(g, res, best) {
            n - 1
        } else {
            best
        }
    }
}

/// The mask that is chosen for `g`.
pub open spec fn best_mask(g: Seq<Seq<u8>>, res: Seq<Seq<bool>>) -> int {
    best_mask_below(g, res, 8)
}

/// The grid `g` under its best mask, with the format information of that mask.
pub open spec fn finished(g: Seq<Seq<u8>>, res: Seq<Seq<bool>>) -> Seq<Seq<u8>> {
    with_format(masked(g, res, best_mask(g, res)), format_code(best_mask(g, res)))
}

/// No mask changes a reserved cell.
pub proof fn lemma_mask_spares_reserved(
    g: Seq<Seq<u8>>,
    res: Seq<Seq<bool>>,
    mask_no: int,
    r: int,
    c: int,
)
    requires
        0 <= r < 25,
        0 <= c < 25,
        res[r][c],
    ensures
        masked(g, res, mask_no)[r][c] == g[r][c],
{
}

/// The chosen mask is one of the first `n`, none of them scores lower, and
/// none before it scores as low.
pub proof fn lemma_best_mask_below(g: Seq<Seq<u8>>, res: Seq<Seq<bool>>, n: int)
    requires
        1 <= n,
    ensures
        0 <= best_mask_below(g, res, n) < n,
        forall|k: int|
            0 <= k < n ==> mask_score(g, res, best_mask_below(g, res, n)) <= #[trigger] mask_score(
                g,
                res,
                k,
            ),
        forall|k: int|
            0 <= k < best_mask_below(g, res, n) ==> mask_score(g, res, best_mask_below(g, res, n))
                < #[trigger] mask_score(g, res, k),
    decreases n,
{
    if n > 1 {
        lemma_best_mask_below(g, res, n - 1);
    }
}

/// The chosen mask is one of the eight, no mask scores lower, and no mask
/// before it scores as low.
pub proof fn lemma_best_mask(g: Seq<Seq<u8>>, res: Seq<Seq<bool>>)
    ensures
        0 <= best_mask(g, res) < 8,
        forall|k: int|
            0 <= k < 8 ==> mask_score(g, res, best_mask(g, res)) <= #[trigger] mask_score(
                g,
                res,
                k,
            ),
        forall|k: int|
            0 <= k < best_mask(g, res) ==> mask_score(g, res, best_mask(g, res))
                < #[trigger] mask_score(g, res, k),
{
    lemma_best_mask_below(g, res, 8);
}

/// Whether the pattern of mask `mask_no` is zero at (`row`, `col`).
fn mask_hits(mask_no: usize, row: usize, col: usize) -> (hit: bool)
    requires
        row < 25,
        col < 25,
    ensures
        hit == (mask_value(mask_no as int, row as int, col as int) == 0),
{
    assert(row * col <= 576) by (nonlinear_arith)
        requires
            row < 25,
            col < 25,
    ;
    let value = match mask_no {
        0 => (row + col) % 2,
        1 => row % 2,
        2 => col % 3,
        3 => (row + col) % 3,
        4 => (row / 2 + col / 3) % 2,
        5 => (row * col) % 2 + (row * col) % 3,
        6 => ((row * col) % 2 + (row * col) % 3) % 2,
        _ => ((row + col) % 2 + (row * col) % 3) % 2,
    };
    value == 0
}

impl Matrix {
    /// Inverts the module at (`row`, `col`), unless the cell is reserved.
    pub fn flip_bit(&mut self, row: usize, col: usize)
        requires
            row < 25,
            col < 25,
        ensures
            final(self).modules() == toggled(
                old(self).modules(),
                old(self).reservation(),
                row as int,
                col as int,
            ),
            final(self).reservation() == old(self).reservation(),
    {
        if self.is_reserved(row, col) {
            assert(self.modules() =~~= toggled(
                self.modules(),
                self.reservation(),
                row as int,
                col as int,
            ));
            return ;
        }
        if self.module_at(row, col) == 1 {
            self.put(row, col, 0);
        } else {
            self.put(row, col, 1);
        }
        assert(self.modules() =~~= toggled(
            old(self).modules(),
            old(self).reservation(),
            row as int,
            col as int,
        ));
        assert(self.reservation() =~~= old(self).reservation());
    }

    /// Applies mask `mask_no` to the cells that are not reserved. A number
    /// above 7 stands for mask 7.
    pub fn transform(&mut self, mask_no: usize)
        ensures
            final(self).modules() == masked(
                old(self).modules(),
                old(self).reservation(),
                mask_no as int,
            ),
            final(self).reservation() == old(self).reservation(),
    {
        let ghost g = self.modules();
        let ghost res = self.reservation();
        let mut row: usize = 0;
        while row < 25
            invariant
                row <= 25,
                g == old(self).modules(),
                res == old(self).reservation(),
                self.reservation() == res,
                forall|r: int, c: int|
                    0 <= r < 25 && 0 <= c < 25 ==> #[trigger] self.modules()[r][c] == (if r < row {
                        masked_module(g, res, mask_no as int, r, c)
                    } else {
                        g[r][c]
                    }),
            decreases 25 - row,
        {
            let mut col: usize = 0;
            while col < 25
                invariant
                    row < 25,
                    col <= 25,
                    g == old(self).modules(),
                    res == old(self).reservation(),
                    self.reservation() == res,
                    forall|r: int, c: int|
                        0 <= r < 25 && 0 <= c < 25 ==> #[trigger] self.modules()[r][c] == (if r
                            < row || (r == row && c < col) {
                            masked_module(g, res, mask_no as int, r, c)
                        } else {
                            g[r][c]
                        }),
                decreases 25 - col,
            {
                if !self.is_reserved(row, col) && mask_hits(mask_no, row, col) {
                    self.flip_bit(row, col);
                }
                col += 1;
            }
            row += 1;
        }
        assert(self.modules() =~~= masked(g, res, mask_no as int));
    }

    /// Applies the mask with the lowest penalty score, the first of them if
    /// several score alike, and writes the format information for it.
    pub fn mask_and_place_format_string(&mut self)
        ensures
            final(self).modules() == finished(old(self).modules(), old(self).reservation()),
            final(self).reservation() == old(self).reservation(),
    {
        let ghost g = self.modules();
        let ghost res = self.reservation();
        let mut chosen: Matrix = *self;
        chosen.transform(0);
        let mut lowest: usize = chosen.evaluate();
        let mut best: usize = 0;
        let mut n: usize = 1;
        while n < 8
            invariant
                1 <= n <= 8,
                g == self.modules(),
                res == self.reservation(),
                best == best_mask_below(g, res, n as int),
                0 <= best < n,
                lowest == mask_score(g, res, best as int),
                chosen.modules() == masked(g, res, best as int),
                chosen.reservation() == res,
            decreases 8 - n,
        {
            let mut candidate: Matrix = *self;
            candidate.transform(n);
            let score = candidate.evaluate();
            if score < lowest {
                best = n;
                lowest = score;
                chosen = candidate;
            }
            n += 1;
        }
        *self = chosen;
        self.place_format_string(best);
    }
}

} // verus!
