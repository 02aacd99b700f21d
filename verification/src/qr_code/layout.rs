//! The geometry of a version 2 symbol, as functions of a module's coordinates.
//!
//! A grid of modules is a `Seq<Seq<u8>>` of 25 rows of 25 values, where `1` is a
//! dark module and any other value a light one; a reservation is a grid of
//! `bool` of the same shape, `true` where a module belongs to a function pattern
//! or to the format information and therefore never carries data.

use vstd::prelude::*;

verus! {

/// The function patterns of the symbol, and the area kept for the format information.
#[derive(Clone, Copy, PartialEq, Eq, Structural)]
pub enum Pattern {
    /// The three 7 x 7 finder patterns, each with its separator.
    Finder,
    /// The 5 x 5 alignment pattern centred on (18, 18).
    Alignment,
    /// The single module at (17, 8) that is always dark.
    DarkModule,
    /// The alternating row 6 and column 6 between the finder patterns.
    Timing,
    /// The cells next to the finder patterns that receive the format information.
    Format,
}

/// Whether (`r`, `c`) is a cell of the symbol.
pub open spec fn in_grid(r: int, c: int) -> bool {
    0 <= r < 25 && 0 <= c < 25
}

/// Whether module (i, j) of a 7 x 7 finder pattern is dark: the outer ring and
/// the 3 x 3 centre are, the ring between them is not.
pub open spec fn finder_shape(i: int, j: int) -> bool {
    0 <= i < 7 && 0 <= j < 7 && (i == 0 || i == 6 || j == 0 || j == 6 || (2 <= i <= 4 && 2 <= j
        <= 4))
}

/// Whether module (i, j) of the 5 x 5 alignment pattern is dark: the outer ring
/// and the centre are.
pub open spec fn alignment_shape(i: int, j: int) -> bool {
    0 <= i < 5 && 0 <= j < 5 && (i == 0 || i == 4 || j == 0 || j == 4 || (i == 2 && j == 2))
}

/// The cells that pattern `p` owns.
pub open spec fn zone(p: Pattern, r: int, c: int) -> bool {
    in_grid(r, c) && match p {
        Pattern::Finder => (r < 8 && c < 8) || (r >= 17 && c < 8) || (r < 8 && c >= 17),
        Pattern::Alignment => 16 <= r <= 20 && 16 <= c <= 20,
        Pattern::DarkModule => r == 17 && c == 8,
        Pattern::Timing => (r == 6 && 8 <= c <= 16) || (c == 6 && 8 <= r <= 16),
        Pattern::Format => (r == 8 || c == 8) && (r <= 8 || r >= 17) && (c <= 8 || c >= 17),
    }
}

/// The cells that pattern `p` makes dark.
pub open spec fn dark(p: Pattern, r: int, c: int) -> bool {
    in_grid(r, c) && match p {
        Pattern::Finder => finder_shape(r, c) || finder_shape(r - 18, c) || finder_shape(
            r,
            c - 18,
        ),
        Pattern::Alignment => alignment_shape(r - 16, c - 16),
        Pattern::DarkModule => r == 17 && c == 8,
        Pattern::Timing => (r == 6 && 8 <= c <= 16 && c % 2 == 0) || (c == 6 && 8 <= r <= 16 && r
            % 2 == 0),
        Pattern::Format => false,
    }
}

/// The value that a cell of pattern `p` shows in a finished symbol.
pub open spec fn pattern_module(p: Pattern, r: int, c: int) -> u8 {
    if dark(p, r, c) {
        1
    } else {
        0
    }
}

/// The grid with no dark module.
pub open spec fn blank() -> Seq<Seq<u8>> {
    Seq::new(25, |r: int| Seq::new(25, |c: int| 0u8))
}

/// The reservation with no reserved cell.
pub open spec fn unreserved() -> Seq<Seq<bool>> {
    Seq::new(25, |r: int| Seq::new(25, |c: int| false))
}

/// Whether the cells of `p` have modules of their own: those of the function
/// patterns have, those of the format information are only kept free.
pub open spec fn drawn(p: Pattern) -> bool {
    p != Pattern::Format
}

/// `g` after `p` is drawn: each of its cells shows the module of the pattern,
/// dark or light; no other module changes.
pub open spec fn stamped(g: Seq<Seq<u8>>, p: Pattern) -> Seq<Seq<u8>> {
    Seq::new(
        25,
        |r: int|
            Seq::new(
                25,
                |c: int|
                    if drawn(p) && zone(p, r, c) {
                        pattern_module(p, r, c)
                    } else {
                        g[r][c]
                    },
            ),
    )
}

/// `res` after the cells of `p` are reserved.
pub open spec fn reserved_with(res: Seq<Seq<bool>>, p: Pattern) -> Seq<Seq<bool>> {
    Seq::new(25, |r: int| Seq::new(25, |c: int| res[r][c] || zone(p, r, c)))
}

/// The rows of a square array as a grid.
pub open spec fn grid_view<const N: usize>(a: [[u8; N]; N]) -> Seq<Seq<u8>> {
    Seq::new(N as nat, |r: int| a[r]@)
}

/// The 33 x 33 grid that holds `g` inside a light margin four modules wide.
pub open spec fn with_quiet_zone(g: Seq<Seq<u8>>) -> Seq<Seq<u8>> {
    Seq::new(
        33,
        |r: int|
            Seq::new(
                33,
                |c: int|
                    if 4 <= r < 29 && 4 <= c < 29 {
                        g[r - 4][c - 4]
                    } else {
                        0u8
                    },
            ),
    )
}

} // verus!
