//! The symbol of a secret, from its bytes to the finished matrix.

use vstd::prelude::*;
use crate::binary::bit;
use crate::qr_code::base45::{ALPHANUMERIC_BASE, encode_bits, encoding, lemma_encoding_fits};
use crate::qr_code::format::{
    first_copy, format_code, format_slot, lemma_format_cells, second_copy,
};
use crate::qr_code::framing::{encapsulate_data, frame, lemma_frame_header};
use crate::qr_code::layout::{
    Pattern, blank, in_grid, pattern_module, reserved_with, stamped, unreserved, with_quiet_zone,
    zone,
};
use crate::qr_code::masking::{best_mask, finished, masked};
use crate::qr_code::matrix::Matrix;
use crate::qr_code::placement::{filled, free_before, lemma_path_cell, path_col, path_row};
use crate::qr_code::reed_solomon::{apply_ecc, encoded};

verus! {

/// The grid that holds the function patterns and nothing else.
pub open spec fn function_patterns() -> Seq<Seq<u8>> {
    stamped(
        stamped(
            stamped(stamped(blank(), Pattern::Finder), Pattern::Alignment),
            Pattern::DarkModule,
        ),
        Pattern::Timing,
    )
}

/// The cells of the function patterns and of the format information.
pub open spec fn function_cells() -> Seq<Seq<bool>> {
    reserved_with(
        reserved_with(
            reserved_with(
                reserved_with(reserved_with(unreserved(), Pattern::Finder), Pattern::Alignment),
                Pattern::DarkModule,
            ),
            Pattern::Timing,
        ),
        Pattern::Format,
    )
}

/// The 352 bits of the codewords of the secret `bytes`.
pub open spec fn code_bits(bytes: Seq<u8>) -> Seq<u8> {
    encoded(frame(encoding(bytes, 45)))
}

/// The symbol of `bytes` before a mask is applied: the function patterns and
/// the bits of the codewords.
pub open spec fn unmasked(bytes: Seq<u8>) -> Seq<Seq<u8>> {
    filled(function_patterns(), function_cells(), code_bits(bytes))
}

/// The mask that is chosen for the symbol of `bytes`.
pub open spec fn chosen_mask(bytes: Seq<u8>) -> int {
    best_mask(unmasked(bytes), function_cells())
}

/// The finished symbol of the secret `bytes`.
pub open spec fn symbol(bytes: Seq<u8>) -> Seq<Seq<u8>> {
    finished(unmasked(bytes), function_cells())
}

/// A cell is reserved exactly if a function pattern or the format
/// information owns it.
pub proof fn lemma_function_cells(r: int, c: int)
    requires
        in_grid(r, c),
    ensures
        function_cells()[r][c] == (zone(Pattern::Finder, r, c) || zone(Pattern::Alignment, r, c)
            || zone(Pattern::DarkModule, r, c) || zone(Pattern::Timing, r, c) || zone(
            Pattern::Format,
            r,
            c,
        )),
{
}

/// Whether a function pattern or the format information owns the cell at
/// (`r`, `c`).
pub open spec fn function_cell(r: int, c: int) -> bool {
    zone(Pattern::Finder, r, c) || zone(Pattern::Alignment, r, c) || zone(
        Pattern::DarkModule,
        r,
        c,
    ) || zone(Pattern::Timing, r, c) || zone(Pattern::Format, r, c)
}

/// The number of cells among the first `i` of the path that no function
/// pattern owns, nor the format information.
pub open spec fn data_cells(i: int) -> int
    decreases i,
{
    if i <= 0 {
        0
    } else {
        data_cells(i - 1) + if function_cell(path_row(i - 1), path_col(i - 1)) {
            0int
        } else {
            1int
        }
    }
}

/// The cells for data along the path, counted after every 25 cells.
proof fn lemma_data_cells_counted()
    ensures
        data_cells(600) == 359,
{
    reveal_with_fuel(data_cells, 26);
    assert(data_cells(25) == 25);
    assert(data_cells(50) == 32);
    assert(data_cells(75) == 39);
    assert(data_cells(100) == 64);
    assert(data_cells(125) == 79);
    assert(data_cells(150) == 86);
    assert(data_cells(175) == 93);
    assert(data_cells(200) == 108);
    assert(data_cells(225) == 128);
    assert(data_cells(250) == 151);
    assert(data_cells(275) == 174);
    assert(data_cells(300) == 199);
    assert(data_cells(325) == 224);
    assert(data_cells(350) == 247);
    assert(data_cells(375) == 270);
    assert(data_cells(400) == 295);
    assert(data_cells(425) == 304);
    assert(data_cells(450) == 311);
    assert(data_cells(475) == 318);
    assert(data_cells(500) == 327);
    assert(data_cells(525) == 336);
    assert(data_cells(550) == 343);
    assert(data_cells(575) == 350);
    assert(data_cells(600) == 359);
}

/// The cells that are free of function patterns are the cells for data.
proof fn lemma_free_cells_are_data_cells(i: int)
    requires
        0 <= i <= 600,
    ensures
        free_before(function_cells(), i) == data_cells(i),
    decreases i,
{
    if i > 0 {
        lemma_free_cells_are_data_cells(i - 1);
        lemma_path_cell(i - 1);
        lemma_function_cells(path_row(i - 1), path_col(i - 1));
    }
}

/// The path passes 359 cells that are free for data: the 352 bits of the
/// codewords all find their place, and seven cells after them stay light.
pub proof fn lemma_room_for_data()
    ensures
        free_before(function_cells(), 600) == 359,
{
    lemma_data_cells_counted();
    lemma_free_cells_are_data_cells(600);
}

/// In the finished symbol every module of a finder pattern and its separator,
/// of the alignment pattern, of the timing patterns, and the dark module shows
/// the value that its pattern gives it.
pub proof fn lemma_function_patterns_stand(bytes: Seq<u8>, p: Pattern, r: int, c: int)
    requires
        p != Pattern::Format,
        zone(p, r, c),
    ensures
        symbol(bytes)[r][c] == pattern_module(p, r, c),
{
    lemma_function_cells(r, c);
    assert(function_patterns()[r][c] == pattern_module(p, r, c));
    assert(unmasked(bytes)[r][c] == function_patterns()[r][c]);
    let k = chosen_mask(bytes);
    assert(masked(unmasked(bytes), function_cells(), k)[r][c] == unmasked(bytes)[r][c]);
    assert(format_slot(r, c) == -1);
}

/// In the finished symbol each of the 15 bits of the format information of
/// the chosen mask, most significant first, stands in its two cells.
pub proof fn lemma_format_information_stands(bytes: Seq<u8>, i: int)
    requires
        0 <= i < 15,
    ensures
        symbol(bytes)[first_copy(i).0][first_copy(i).1] == bit(
            format_code(chosen_mask(bytes)) as int,
            14 - i,
        ),
        symbol(bytes)[second_copy(i).0][second_copy(i).1] == bit(
            format_code(chosen_mask(bytes)) as int,
            14 - i,
        ),
{
    lemma_format_cells(0, 0, i);
}

/// The symbol in its quiet zone has a margin of four light modules on every
/// side, and the symbol inside it.
pub proof fn lemma_quiet_zone(g: Seq<Seq<u8>>, r: int, c: int)
    requires
        0 <= r < 33,
        0 <= c < 33,
    ensures
        with_quiet_zone(g).len() == 33,
        with_quiet_zone(g)[r].len() == 33,
        (r < 4 || r >= 29 || c < 4 || c >= 29) ==> with_quiet_zone(g)[r][c] == 0,
        (4 <= r < 29 && 4 <= c < 29) ==> with_quiet_zone(g)[r][c] == g[r - 4][c - 4],
{
}

/// Builds the symbol of the secret `bits`, of at most 32 bytes.
pub fn build_symbol(bits: Vec<u8>) -> (matrix: Matrix)
    requires
        bits.len() <= 32,
    ensures
        matrix.modules() == symbol(bits@),
        matrix.reservation() == function_cells(),
{
    proof {
        lemma_encoding_fits(bits@);
        lemma_frame_header(encoding(bits@, 45));
    }
    let encoded_bits = encode_bits(bits, ALPHANUMERIC_BASE);
    let data_bits = encapsulate_data(encoded_bits);
    let data_ecc = apply_ecc(data_bits);
    let mut matrix = Matrix::new();
    matrix.place_finder_pattern();
    matrix.place_alignment_pattern();
    matrix.place_dark_module();
    matrix.place_timing_pattern();
    matrix.reserve_format_area();
    matrix.fill_data(data_ecc);
    matrix.mask_and_place_format_string();
    matrix
}

} // verus!
