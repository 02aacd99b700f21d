//! The module matrix of a symbol and the phases that fill it.

use vstd::prelude::*;
use crate::qr_code::layout::{
    Pattern, blank, dark, drawn, grid_view, pattern_module, reserved_with, stamped, unreserved,
    with_quiet_zone, zone,
};

verus! {

/// A version 2 symbol under construction: 25 x 25 modules, each `1` (dark) or
/// `0` (light), beside a map of the cells that may not carry data.
#[derive(Clone, Copy)]
pub struct Matrix {
    data: [[u8; 25]; 25],
    mask: [[bool; 25]; 25],
}

/// Whether pattern `p` owns the cell at (`row`, `col`).
fn in_zone(p: Pattern, row: usize, col: usize) -> (b: bool)
    requires
        row < 25,
        col < 25,
    ensures
        b == zone(p, row as int, col as int),
{
    match p {
        Pattern::Finder => (row < 8 && col < 8) || (row >= 17 && col < 8) || (row < 8 && col
            >= 17),
        Pattern::Alignment => 16 <= row && row <= 20 && 16 <= col && col <= 20,
        Pattern::DarkModule => row == 17 && col == 8,
        Pattern::Timing => (row == 6 && 8 <= col && col <= 16) || (col == 6 && 8 <= row && row
            <= 16),
        Pattern::Format => (row == 8 || col == 8) && (row <= 8 || row >= 17) && (col <= 8 || col
            >= 17),
    }
}

/// Whether a square pattern of side `side` is dark at (`i`, `j`), given that
/// its outer ring is dark and its centre from `lo` to `hi` is.
fn ring_or_centre(i: usize, j: usize, side: usize, lo: usize, hi: usize) -> (b: bool)
    requires
        side >= 1,
    ensures
        b == (i < side && j < side && (i == 0 || i == side - 1 || j == 0 || j == side - 1 || (lo
            <= i <= hi && lo <= j <= hi))),
{
    i < side && j < side && (i == 0 || i == side - 1 || j == 0 || j == side - 1 || (lo <= i && i
        <= hi && lo <= j && j <= hi))
}

/// Whether pattern `p` makes the cell at (`row`, `col`) dark.
fn is_dark(p: Pattern, row: usize, col: usize) -> (b: bool)
    requires
        row < 25,
        col < 25,
    ensures
        b == dark(p, row as int, col as int),
{
    match p {
        Pattern::Finder => {
            ring_or_centre(row, col, 7, 2, 4) || (row >= 18 && ring_or_centre(
                row - 18,
                col,
                7,
                2,
                4,
            )) || (col >= 18 && ring_or_centre(row, col - 18, 7, 2, 4))
        },
        Pattern::Alignment => row >= 16 && col >= 16 && ring_or_centre(
            row - 16,
            col - 16,
            5,
            2,
            2,
        ),
        Pattern::DarkModule => row == 17 && col == 8,
        Pattern::Timing => (row == 6 && 8 <= col && col <= 16 && col % 2 == 0) || (col == 6 && 8
            <= row && row <= 16 && row % 2 == 0),
        Pattern::Format => false,
    }
}

/// Writes one module of the exported grid; nothing else changes.
fn set_module(grid: &mut [[u8; 33]; 33], row: usize, col: usize, v: u8)
    requires
        row < 33,
        col < 33,
    ensures
        forall|r: int, c: int|
            0 <= r < 33 && 0 <= c < 33 ==> #[trigger] final(grid)[r][c] == (if r == row && c
                == col {
                v
            } else {
                old(grid)[r][c]
            }),
{
    grid[row][col] = v;
}

impl Matrix {
    /// The module at row `r`, column `c`.
    pub closed spec fn module(&self, r: int, c: int) -> u8 {
        self.data[r][c]
    }

    /// Whether the cell at row `r`, column `c` is closed to data.
    pub closed spec fn reserved(&self, r: int, c: int) -> bool {
        self.mask[r][c]
    }

    /// The modules as a grid: 25 rows of 25 values.
    pub open spec fn modules(&self) -> Seq<Seq<u8>> {
        Seq::new(25, |r: int| Seq::new(25, |c: int| self.module(r, c)))
    }

    /// The reserved cells as a grid of the same shape.
    pub open spec fn reservation(&self) -> Seq<Seq<bool>> {
        Seq::new(25, |r: int| Seq::new(25, |c: int| self.reserved(r, c)))
    }

    /// An empty symbol: every module light, no cell reserved.
    pub fn new() -> (m: Matrix)
        ensures
            m.modules() == blank(),
            m.reservation() == unreserved(),
    {
        let m = Matrix { data: [[0u8; 25]; 25], mask: [[false; 25]; 25] };
        assert(m.modules() =~~= blank());
        assert(m.reservation() =~~= unreserved());
        m
    }

    /// The module at (`row`, `col`).
    pub fn module_at(&self, row: usize, col: usize) -> (v: u8)
        requires
            row < 25,
            col < 25,
        ensures
            v == self.modules()[row as int][col as int],
    {
        self.data[row][col]
    }

    /// Whether the cell at (`row`, `col`) is reserved.
    pub fn is_reserved(&self, row: usize, col: usize) -> (b: bool)
        requires
            row < 25,
            col < 25,
        ensures
            b == self.reservation()[row as int][col as int],
    {
        self.mask[row][col]
    }

    /// Writes one module; nothing else changes.
    pub(crate) fn put(&mut self, row: usize, col: usize, v: u8)
        requires
            row < 25,
            col < 25,
        ensures
            forall|r: int, c: int|
                0 <= r < 25 && 0 <= c < 25 ==> #[trigger] final(self).module(r, c) == (if r == row
                    && c == col {
                    v
                } else {
                    old(self).module(r, c)
                }),
            forall|r: int, c: int|
                0 <= r < 25 && 0 <= c < 25 ==> #[trigger] final(self).reserved(r, c) == old(
                    self,
                ).reserved(r, c),
    {
        self.data[row][col] = v;
    }

    /// Reserves one cell; nothing else changes.
    pub(crate) fn reserve(&mut self, row: usize, col: usize)
        requires
            row < 25,
            col < 25,
        ensures
            forall|r: int, c: int|
                0 <= r < 25 && 0 <= c < 25 ==> #[trigger] final(self).module(r, c) == old(
                    self,
                ).module(r, c),
            forall|r: int, c: int|
                0 <= r < 25 && 0 <= c < 25 ==> #[trigger] final(self).reserved(r, c) == (old(
                    self,
                ).reserved(r, c) || (r == row && c == col)),
    {
        self.mask[row][col] = true;
    }

    /// Draws the modules of `p`, if it has any, and reserves its cells.
    fn place(&mut self, p: Pattern)
        ensures
            final(self).modules() == stamped(old(self).modules(), p),
            final(self).reservation() == reserved_with(old(self).reservation(), p),
    {
        let draws = match p {
            Pattern::Format => false,
            _ => true,
        };
        let mut row: usize = 0;
        while row < 25
            invariant
                row <= 25,
                draws == drawn(p),
                forall|r: int, c: int|
                    0 <= r < 25 && 0 <= c < 25 ==> #[trigger] self.module(r, c) == (if r < row
                        && drawn(p) && zone(p, r, c) {
                        pattern_module(p, r, c)
                    } else {
                        old(self).module(r, c)
                    }),
                forall|r: int, c: int|
                    0 <= r < 25 && 0 <= c < 25 ==> #[trigger] self.reserved(r, c) == (old(
                        self,
                    ).reserved(r, c) || (r < row && zone(p, r, c))),
            decreases 25 - row,
        {
            let mut col: usize = 0;
            while col < 25
                invariant
                    row < 25,
                    col <= 25,
                    draws == drawn(p),
                    forall|r: int, c: int|
                        0 <= r < 25 && 0 <= c < 25 ==> #[trigger] self.module(r, c) == (if (r
                            < row || (r == row && c < col)) && drawn(p) && zone(p, r, c) {
                            pattern_module(p, r, c)
                        } else {
                            old(self).module(r, c)
                        }),
                    forall|r: int, c: int|
                        0 <= r < 25 && 0 <= c < 25 ==> #[trigger] self.reserved(r, c) == (old(
                            self,
                        ).reserved(r, c) || ((r < row || (r == row && c < col)) && zone(
                            p,
                            r,
                            c,
                        ))),
                decreases 25 - col,
            {
                if in_zone(p, row, col) {
                    if draws {
                        let module: u8 = if is_dark(p, row, col) {
                            1
                        } else {
                            0
                        };
                        self.put(row, col, module);
                    }
                    self.reserve(row, col);
                }
                col += 1;
            }
            row += 1;
        }
        assert(self.modules() =~~= stamped(old(self).modules(), p));
        assert(self.reservation() =~~= reserved_with(old(self).reservation(), p));
    }

    /// Draws the three finder patterns with their separators and reserves them.
    pub fn place_finder_pattern(&mut self)
        ensures
            final(self).modules() == stamped(old(self).modules(), Pattern::Finder),
            final(self).reservation() == reserved_with(old(self).reservation(), Pattern::Finder),
    {
        self.place(Pattern::Finder);
    }

    /// Draws the alignment pattern and reserves it.
    pub fn place_alignment_pattern(&mut self)
        ensures
            final(self).modules() == stamped(old(self).modules(), Pattern::Alignment),
            final(self).reservation() == reserved_with(
                old(self).reservation(),
                Pattern::Alignment,
            ),
    {
        self.place(Pattern::Alignment);
    }

    /// Sets the module beside the lower left finder pattern and reserves it.
    pub fn place_dark_module(&mut self)
        ensures
            final(self).modules() == stamped(old(self).modules(), Pattern::DarkModule),
            final(self).reservation() == reserved_with(
                old(self).reservation(),
                Pattern::DarkModule,
            ),
    {
        self.place(Pattern::DarkModule);
    }

    /// Draws the two timing patterns and reserves them.
    pub fn place_timing_pattern(&mut self)
        ensures
            final(self).modules() == stamped(old(self).modules(), Pattern::Timing),
            final(self).reservation() == reserved_with(old(self).reservation(), Pattern::Timing),
    {
        self.place(Pattern::Timing);
    }

    /// Reserves the cells that will hold the format information; no module changes.
    pub fn reserve_format_area(&mut self)
        ensures
            final(self).modules() == old(self).modules(),
            final(self).reservation() == reserved_with(old(self).reservation(), Pattern::Format),
    {
        self.place(Pattern::Format);
        assert(self.modules() =~~= old(self).modules());
    }

    /// The symbol inside its quiet zone: a 33 x 33 grid with a light margin of
    /// four modules on every side.
    pub fn export(&self) -> (qr_final: [[u8; 33]; 33])
        ensures
            grid_view(qr_final) == with_quiet_zone(self.modules()),
    {
        let mut qr_final: [[u8; 33]; 33] = [[0; 33]; 33];
        let mut row: usize = 0;
        while row < 25
            invariant
                row <= 25,
                forall|r: int, c: int|
                    0 <= r < 33 && 0 <= c < 33 ==> #[trigger] qr_final[r][c] == (if 4 <= r < row
                        + 4 && 4 <= c < 29 {
                        self.module(r - 4, c - 4)
                    } else {
                        0u8
                    }),
            decreases 25 - row,
        {
            let mut col: usize = 0;
            while col < 25
                invariant
                    row < 25,
                    col <= 25,
                    forall|r: int, c: int|
                        0 <= r < 33 && 0 <= c < 33 ==> #[trigger] qr_final[r][c] == (if (4 <= r
                            < row + 4 && 4 <= c < 29) || (r == row + 4 && 4 <= c < col + 4) {
                            self.module(r - 4, c - 4)
                        } else {
                            0u8
                        }),
                decreases 25 - col,
            {
                set_module(&mut qr_final, row + 4, col + 4, self.data[row][col]);
                col += 1;
            }
            row += 1;
        }
        assert(grid_view(qr_final) =~~= with_quiet_zone(self.modules()));
        qr_final
    }
}

} // verus!
