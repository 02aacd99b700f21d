//! The penalty score by which the eight masks are compared.
//!
//! Four rules are tallied over the grid: runs of five or more modules of one
//! colour in a row or a column, 2 x 2 blocks of one colour, sequences that look
//! like a finder pattern, and the distance of the share of dark modules from
//! one half.

use vstd::prelude::*;
use crate::qr_code::matrix::Matrix;

verus! {

/// What is counted at one position of the grid.
#[derive(Clone, Copy, PartialEq, Eq, Structural)]
pub enum Rule {
    /// A window of five modules of one colour along a line.
    Run,
    /// A 2 x 2 block of one colour.
    Block,
    /// A window of eleven modules along a line that reads like a finder pattern.
    FinderLike,
    /// A dark module.
    Dark,
}

/// The module of `g` at position `pos` of line `line`, where a line is a row if
/// `horizontal` and a column otherwise.
pub open spec fn along(g: Seq<Seq<u8>>, horizontal: bool, line: int, pos: int) -> u8 {
    if horizontal {
        g[line][pos]
    } else {
        g[pos][line]
    }
}

/// Whether the modules of line `line` from position `pos` on read `pattern`.
pub open spec fn shows(
    g: Seq<Seq<u8>>,
    horizontal: bool,
    line: int,
    pos: int,
    pattern: Seq<u8>,
) -> bool {
    forall|k: int| 0 <= k < pattern.len() ==> along(g, horizontal, line, pos + k) == #[trigger] pattern[k]
}

/// Five light modules.
pub open spec fn light_run() -> Seq<u8> {
    seq![0u8, 0u8, 0u8, 0u8, 0u8]
}

/// Five dark modules.
pub open spec fn dark_run() -> Seq<u8> {
    seq![1u8, 1u8, 1u8, 1u8, 1u8]
}

/// A finder pattern's cross-section with four light modules before it.
pub open spec fn finder_after_light() -> Seq<u8> {
    seq![0u8, 0u8, 0u8, 0u8, 1u8, 0u8, 1u8, 1u8, 1u8, 0u8, 1u8]
}

/// A finder pattern's cross-section with four light modules after it.
pub open spec fn finder_before_light() -> Seq<u8> {
    seq![1u8, 0u8, 1u8, 1u8, 1u8, 0u8, 1u8, 0u8, 0u8, 0u8, 0u8]
}

/// Whether the five modules from `pos` on are all light or all dark.
pub open spec fn is_run(g: Seq<Seq<u8>>, horizontal: bool, line: int, pos: int) -> bool {
    shows(g, horizontal, line, pos, light_run()) || shows(g, horizontal, line, pos, dark_run())
}

/// Whether the 2 x 2 block whose upper left module is (`r`, `c`) has one colour.
pub open spec fn is_block(g: Seq<Seq<u8>>, r: int, c: int) -> bool {
    let v = g[r][c];
    (v == 0 || v == 1) && g[r + 1][c] == v && g[r][c + 1] == v && g[r + 1][c + 1] == v
}

/// The number of lines, and of positions on each line, at which `rule` is counted.
pub open spec fn extent(rule: Rule) -> (int, int) {
    match rule {
        Rule::Run => (25, 21),
        Rule::Block => (24, 24),
        Rule::FinderLike => (25, 15),
        Rule::Dark => (25, 25),
    }
}

/// What position `pos` of line `line` adds to the tally of `rule`.
///
/// A run of `n >= 5` modules of one colour holds `n - 4` windows of five; the
/// first adds 3 and each further one adds 1, so that the run adds `3 + (n - 5)`.
pub open spec fn term(g: Seq<Seq<u8>>, rule: Rule, horizontal: bool, line: int, pos: int) -> int {
    match rule {
        Rule::Run => if !is_run(g, horizontal, line, pos) {
            0
        } else if pos > 0 && is_run(g, horizontal, line, pos - 1) {
            1
        } else {
            3
        },
        Rule::Block => if is_block(g, line, pos) {
            3
        } else {
            0
        },
        Rule::FinderLike => if shows(g, horizontal, line, pos, finder_after_light()) || shows(
            g,
            horizontal,
            line,
            pos,
            finder_before_light(),
        ) {
            40
        } else {
            0
        },
        Rule::Dark => if g[line][pos] == 1 {
            1
        } else {
            0
        },
    }
}

/// The sum of the terms of `rule` at the first `n` positions of line `line`.
pub open spec fn line_tally(
    g: Seq<Seq<u8>>,
    rule: Rule,
    horizontal: bool,
    line: int,
    n: int,
) -> int
    decreases n,
{
    if n <= 0 {
        0
    } else {
        line_tally(g, rule, horizontal, line, n - 1) + term(g, rule, horizontal, line, n - 1)
    }
}

/// The sum of the terms of `rule` on the first `n` lines.
pub open spec fn lines_tally(g: Seq<Seq<u8>>, rule: Rule, horizontal: bool, n: int) -> int
    decreases n,
{
    if n <= 0 {
        0
    } else {
        lines_tally(g, rule, horizontal, n - 1) + line_tally(
            g,
            rule,
            horizontal,
            n - 1,
            extent(rule).1,
        )
    }
}

/// The sum of the terms of `rule` over the whole grid, by rows if `horizontal`
/// and by columns otherwise.
pub open spec fn tally(g: Seq<Seq<u8>>, rule: Rule, horizontal: bool) -> int {
    lines_tally(g, rule, horizontal, extent(rule).0)
}

/// The penalty for `count` dark modules among the 625: with `p` the share of
/// dark modules in percent, rounded down, and `lo <= p < hi` the multiples of
/// five around it, twice the smaller of `|lo - 50|` and `|hi - 50|`.
pub open spec fn balance(count: int) -> int {
    let p = count * 100 / 625;
    let lo = 5 * (p / 5) - 50;
    let hi = lo + 5;
    let a = if lo < 0 {
        -lo
    } else {
        lo
    };
    let b = if hi < 0 {
        -hi
    } else {
        hi
    };
    if a <= b {
        2 * a
    } else {
        2 * b
    }
}

/// The penalty score of the grid `g`: the sum of the four rules.
pub open spec fn penalty(g: Seq<Seq<u8>>) -> int {
    tally(g, Rule::Run, true) + tally(g, Rule::Run, false) + tally(g, Rule::Block, true) + tally(
        g,
        Rule::FinderLike,
        true,
    ) + tally(g, Rule::FinderLike, false) + balance(tally(g, Rule::Dark, true))
}

/// No position adds more than 40.
pub proof fn lemma_term_bounds(g: Seq<Seq<u8>>, rule: Rule, horizontal: bool, line: int, pos: int)
    ensures
        0 <= term(g, rule, horizontal, line, pos) <= 40,
        rule == Rule::Dark ==> term(g, rule, horizontal, line, pos) <= 1,
{
}

impl Matrix {
    /// The module at position `pos` of line `line`.
    fn module_along(&self, horizontal: bool, line: usize, pos: usize) -> (v: u8)
        requires
            line < 25,
            pos < 25,
        ensures
            v == along(self.modules(), horizontal, line as int, pos as int),
    {
        if horizontal {
            self.module_at(line, pos)
        } else {
            self.module_at(pos, line)
        }
    }

    /// Whether the modules of line `line` from `pos` on read `pattern`.
    fn reads(&self, horizontal: bool, line: usize, pos: usize, pattern: &[u8]) -> (b: bool)
        requires
            line < 25,
            pos + pattern@.len() <= 25,
        ensures
            b == shows(self.modules(), horizontal, line as int, pos as int, pattern@),
    {
        let mut k: usize = 0;
        while k < pattern.len()
            invariant
                line < 25,
                pos + pattern@.len() <= 25,
                k <= pattern@.len(),
                forall|j: int|
                    0 <= j < k ==> along(self.modules(), horizontal, line as int, pos + j)
                        == #[trigger] pattern@[j],
            decreases pattern@.len() - k,
        {
            if self.module_along(horizontal, line, pos + k) != pattern[k] {
                return false;
            }
            k += 1;
        }
        true
    }

    /// Whether the five modules from `pos` on have one colour.
    fn run_at(&self, horizontal: bool, line: usize, pos: usize) -> (b: bool)
        requires
            line < 25,
            pos + 5 <= 25,
        ensures
            b == is_run(self.modules(), horizontal, line as int, pos as int),
    {
        let light: [u8; 5] = [0, 0, 0, 0, 0];
        let dark: [u8; 5] = [1, 1, 1, 1, 1];
        assert(light@ =~= light_run());
        assert(dark@ =~= dark_run());
        self.reads(horizontal, line, pos, light.as_slice()) || self.reads(
            horizontal,
            line,
            pos,
            dark.as_slice(),
        )
    }

    /// Whether the 2 x 2 block at (`row`, `col`) has one colour.
    fn block_at(&self, row: usize, col: usize) -> (b: bool)
        requires
            row < 24,
            col < 24,
        ensures
            b == is_block(self.modules(), row as int, col as int),
    {
        let v = self.module_at(row, col);
        (v == 0 || v == 1) && self.module_at(row + 1, col) == v && self.module_at(row, col + 1)
            == v && self.module_at(row + 1, col + 1) == v
    }

    /// What one position adds to the tally of `rule`.
    fn term_at(&self, rule: Rule, horizontal: bool, line: usize, pos: usize) -> (t: usize)
        requires
            line < extent(rule).0,
            pos < extent(rule).1,
        ensures
            t == term(self.modules(), rule, horizontal, line as int, pos as int),
    {
        match rule {
            Rule::Run => {
                if !self.run_at(horizontal, line, pos) {
                    0
                } else if pos > 0 && self.run_at(horizontal, line, pos - 1) {
                    1
                } else {
                    3
                }
            },
            Rule::Block => {
                if self.block_at(line, pos) {
                    3
                } else {
                    0
                }
            },
            Rule::FinderLike => {
                let after: [u8; 11] = [0, 0, 0, 0, 1, 0, 1, 1, 1, 0, 1];
                let before: [u8; 11] = [1, 0, 1, 1, 1, 0, 1, 0, 0, 0, 0];
                assert(after@ =~= finder_after_light());
                assert(before@ =~= finder_before_light());
                if self.reads(horizontal, line, pos, after.as_slice()) || self.reads(
                    horizontal,
                    line,
                    pos,
                    before.as_slice(),
                ) {
                    40
                } else {
                    0
                }
            },
            Rule::Dark => {
                if self.module_at(line, pos) == 1 {
                    1
                } else {
                    0
                }
            },
        }
    }

    /// The tally of `rule` over the whole symbol.
    fn tally_of(&self, rule: Rule, horizontal: bool) -> (total: usize)
        ensures
            total == tally(self.modules(), rule, horizontal),
            total <= 25000,
            rule == Rule::Dark ==> total <= 625,
    {
        let (lines, positions): (usize, usize) = match rule {
            Rule::Run => (25, 21),
            Rule::Block => (24, 24),
            Rule::FinderLike => (25, 15),
            Rule::Dark => (25, 25),
        };
        let mut total: usize = 0;
        let mut line: usize = 0;
        while line < lines
            invariant
                lines == extent(rule).0,
                positions == extent(rule).1,
                line <= lines,
                total == lines_tally(self.modules(), rule, horizontal, line as int),
                total <= 1000 * line,
                rule == Rule::Dark ==> total <= 25 * line,
            decreases lines - line,
        {
            let mut sum: usize = 0;
            let mut pos: usize = 0;
            while pos < positions
                invariant
                    lines == extent(rule).0,
                    positions == extent(rule).1,
                    line < lines,
                    pos <= positions,
                    sum == line_tally(self.modules(), rule, horizontal, line as int, pos as int),
                    sum <= 40 * pos,
                    rule == Rule::Dark ==> sum <= pos,
                decreases positions - pos,
            {
                proof {
                    lemma_term_bounds(self.modules(), rule, horizontal, line as int, pos as int);
                }
                sum += self.term_at(rule, horizontal, line, pos);
                pos += 1;
            }
            total += sum;
            line += 1;
        }
        total
    }

    /// The penalty score of the symbol as it stands.
    pub fn evaluate(&self) -> (score: usize)
        ensures
            score == penalty(self.modules()),
    {
        let runs = self.tally_of(Rule::Run, true) + self.tally_of(Rule::Run, false);
        let blocks = self.tally_of(Rule::Block, true);
        let finders = self.tally_of(Rule::FinderLike, true) + self.tally_of(
            Rule::FinderLike,
            false,
        );
        let count = self.tally_of(Rule::Dark, true);
        let percent = count * 100 / 625;
        let below = 5 * (percent / 5);
        let above = below + 5;
        let a = if below < 50 {
            50 - below
        } else {
            below - 50
        };
        let b = if above < 50 {
            50 - above
        } else {
            above - 50
        };
        let balance = if a <= b {
            2 * a
        } else {
            2 * b
        };
        runs + blocks + finders + balance
    }
}

} // verus!
