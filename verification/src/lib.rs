//! Renders a short binary secret (at most 256 bits) as a QR code image.
//!
//! The secret is written in base 45, framed as an alphanumeric QR segment,
//! protected with Reed-Solomon codewords, laid out as a version 2 symbol of
//! error correction level L, masked, and serialised as an uncompressed PNG.

pub mod binary;
pub mod checksum;
pub mod png;
pub mod qr_code;

pub use crate::png::form_png;

use vstd::prelude::*;
use crate::png::png_file;
use crate::qr_code::layout::with_quiet_zone;
use crate::qr_code::symbol::{build_symbol, symbol};

verus! {

/// The greatest number of bytes of a secret that a symbol holds.
pub const MAX_SECRET_BYTES: u8 = 32;

/// The PNG file that shows the symbol of the secret `bytes`.
pub open spec fn rendering(bytes: Seq<u8>) -> Seq<u8> {
    png_file(with_quiet_zone(symbol(bytes)))
}

/// The number of bytes that are read of a file of `file_length` bytes: all of
/// them, or the first 32 of a longer file.
pub fn secret_length(file_length: u64) -> (length: u8)
    ensures
        length == if file_length > 32 {
            32
        } else {
            file_length
        },
{
    if file_length > MAX_SECRET_BYTES as u64 {
        MAX_SECRET_BYTES
    } else {
        file_length as u8
    }
}

/// Renders the secret `bits`, of at most 32 bytes, as the PNG file of its
/// QR code.
pub fn render(bits: Vec<u8>) -> (png: Vec<u8>)
    requires
        bits.len() <= 32,
    ensures
        png@ == rendering(bits@),
{
    let matrix = build_symbol(bits);
    let qr_final = matrix.export();
    form_png(qr_final)
}

} // verus!
