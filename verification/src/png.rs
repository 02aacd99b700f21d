//! The symbol as a PNG file: one bit per pixel, eight pixels to a module,
//! stored without compression.

use vstd::prelude::*;
use crate::checksum::{adler32, calculate_adler32, calculate_crc, crc32};
use crate::qr_code::layout::grid_view;

verus! {

/// The four bytes of `v`, most significant first.
pub open spec fn be32(v: u32) -> Seq<u8> {
    seq![
        (v / 0x100_0000) as u8,
        ((v / 0x1_0000) % 0x100) as u8,
        ((v / 0x100) % 0x100) as u8,
        (v % 0x100) as u8,
    ]
}

/// The eight bytes that begin every PNG file.
pub open spec fn signature() -> Seq<u8> {
    seq![0x89u8, 0x50u8, 0x4Eu8, 0x47u8, 0x0Du8, 0x0Au8, 0x1Au8, 0x0Au8]
}

/// The type of the header chunk, `IHDR`.
pub open spec fn ihdr_type() -> Seq<u8> {
    seq![0x49u8, 0x48u8, 0x44u8, 0x52u8]
}

/// The type of the image data chunk, `IDAT`.
pub open spec fn idat_type() -> Seq<u8> {
    seq![0x49u8, 0x44u8, 0x41u8, 0x54u8]
}

/// The data of the header chunk: width and height of 264 pixels, one bit per
/// pixel, greyscale, and no compression method, filter method or interlacing
/// other than the standard ones.
pub open spec fn ihdr_data() -> Seq<u8> {
    seq![0u8, 0u8, 1u8, 8u8, 0u8, 0u8, 1u8, 8u8, 1u8, 0u8, 0u8, 0u8, 0u8]
}

/// The chunk that ends the file: no data, the type `IEND`, and the checksum
/// of the type.
pub open spec fn iend() -> Seq<u8> {
    seq![0u8, 0u8, 0u8, 0u8, 0x49u8, 0x45u8, 0x4Eu8, 0x44u8, 0xAEu8, 0x42u8, 0x60u8, 0x82u8]
}

/// A chunk: the length of the data, the type, the data, and the CRC-32 of type
/// and data. The length is taken modulo 2^32.
pub open spec fn chunk(kind: Seq<u8>, data: Seq<u8>) -> Seq<u8> {
    be32((data.len() % 0x1_0000_0000) as u32) + kind + data + be32(crc32(kind + data))
}

/// A zlib stream that holds `raw` in one stored block: the stream header, the
/// header of a last block without compression, the length of the data and its
/// complement with their low byte first, the data, and their Adler-32. The
/// length is taken modulo 2^16.
pub open spec fn zlib_stored(raw: Seq<u8>) -> Seq<u8> {
    let len = raw.len() % 0x1_0000;
    seq![
        0x78u8,
        0x01u8,
        0x01u8,
        (len % 0x100) as u8,
        (len / 0x100) as u8,
        (0xFF - len % 0x100) as u8,
        (0xFF - len / 0x100) as u8,
    ] + raw + be32(adler32(raw))
}

/// The byte of eight pixels that shows the module `v`: dark is 0, light is 255.
pub open spec fn pixels(v: u8) -> u8 {
    if v == 1 {
        0
    } else {
        255
    }
}

/// Byte `i` of the image of `grid`: every row of modules gives eight equal
/// scanlines, each the filter type 0 and then the pixels of its 33 modules.
pub open spec fn image_byte(grid: Seq<Seq<u8>>, i: int) -> u8 {
    if i % 34 == 0 {
        0
    } else {
        pixels(grid[i / 34 / 8][i % 34 - 1])
    }
}

/// The image of `grid`: 264 scanlines of 34 bytes.
pub open spec fn image(grid: Seq<Seq<u8>>) -> Seq<u8> {
    Seq::new(8976, |i: int| image_byte(grid, i))
}

/// The PNG file that shows `grid`.
pub open spec fn png_file(grid: Seq<Seq<u8>>) -> Seq<u8> {
    signature() + chunk(ihdr_type(), ihdr_data()) + chunk(idat_type(), zlib_stored(image(grid)))
        + iend()
}

/// Appends the four bytes of `v`, most significant first.
fn push_be32(out: &mut Vec<u8>, v: u32)
    ensures
        final(out)@ == old(out)@ + be32(v),
{
    out.push((v / 0x100_0000) as u8);
    out.push(((v / 0x1_0000) % 0x100) as u8);
    out.push(((v / 0x100) % 0x100) as u8);
    out.push((v % 0x100) as u8);
    assert(out@ =~= old(out)@ + be32(v));
}

/// Appends the bytes of `tail`.
fn push_all(out: &mut Vec<u8>, tail: &Vec<u8>)
    ensures
        final(out)@ == old(out)@ + tail@,
{
    let mut i: usize = 0;
    while i < tail.len()
        invariant
            i <= tail@.len(),
            out@ == old(out)@ + tail@.take(i as int),
        decreases tail@.len() - i,
    {
        out.push(tail[i]);
        assert(tail@.take(i + 1) =~= tail@.take(i as int).push(tail@[i as int]));
        i += 1;
    }
    assert(tail@.take(i as int) =~= tail@);
}

/// The chunk of type `kind` that holds `data`.
fn png_chunk(kind: [u8; 4], data: &Vec<u8>) -> (out: Vec<u8>)
    ensures
        out@ == chunk(kind@, data@),
{
    let mut body: Vec<u8> = Vec::new();
    body.push(kind[0]);
    body.push(kind[1]);
    body.push(kind[2]);
    body.push(kind[3]);
    assert(body@ =~= kind@);
    push_all(&mut body, data);
    let crc = calculate_crc(body.as_slice());
    let mut out: Vec<u8> = Vec::new();
    push_be32(&mut out, (data.len() as u64 % 0x1_0000_0000) as u32);
    push_all(&mut out, &body);
    push_be32(&mut out, crc);
    assert(out@ =~= chunk(kind@, data@));
    out
}

/// The eight bytes that begin every PNG file.
pub fn png_signature() -> (out: Vec<u8>)
    ensures
        out@ == signature(),
{
    let out = vec![0x89, 0x50, 0x4E, 0x47, 0x0D, 0x0A, 0x1A, 0x0A];
    assert(out@ =~= signature());
    out
}

/// The header chunk of an image of 264 x 264 pixels with one bit per pixel.
pub fn png_ihdr() -> (ihdr: Vec<u8>)
    ensures
        ihdr@ == chunk(ihdr_type(), ihdr_data()),
{
    let kind: [u8; 4] = [0x49, 0x48, 0x44, 0x52];
    let data: Vec<u8> = vec![0, 0, 1, 8, 0, 0, 1, 8, 1, 0, 0, 0, 0];
    assert(kind@ =~= ihdr_type());
    assert(data@ =~= ihdr_data());
    png_chunk(kind, &data)
}

/// The image data chunk that holds `image` in a zlib stream.
pub fn png_idat(image: Vec<u8>) -> (idat: Vec<u8>)
    ensures
        idat@ == chunk(idat_type(), zlib_stored(image@)),
{
    let kind: [u8; 4] = [0x49, 0x44, 0x41, 0x54];
    assert(kind@ =~= idat_type());
    let image_compressed = deflate(image);
    png_chunk(kind, &image_compressed)
}

/// The chunk that ends the file.
pub fn png_iend() -> (out: Vec<u8>)
    ensures
        out@ == iend(),
{
    let out = vec![0, 0, 0, 0, 0x49, 0x45, 0x4E, 0x44, 0xAE, 0x42, 0x60, 0x82];
    assert(out@ =~= iend());
    out
}

/// Wraps `data` in a zlib stream of one stored block.
pub fn deflate(data: Vec<u8>) -> (deflate_block: Vec<u8>)
    ensures
        deflate_block@ == zlib_stored(data@),
{
    let length: usize = data.len() % 0x1_0000;
    let adler32 = calculate_adler32(&data);
    let low = (length % 0x100) as u8;
    let high = (length / 0x100) as u8;
    let low_complement: u8 = 0xFF - low;
    let high_complement: u8 = 0xFF - high;
    let mut deflate_block: Vec<u8> = vec![
        0x78,
        0x01,
        0x01,
        low,
        high,
        low_complement,
        high_complement,
    ];
    push_all(&mut deflate_block, &data);
    push_be32(&mut deflate_block, adler32);
    assert(deflate_block@ =~= zlib_stored(data@));
    deflate_block
}

/// The PNG file that shows the symbol `qr_matrix`, whose dark modules are 1,
/// with eight black pixels and eight lines for each of them.
pub fn form_png(qr_matrix: [[u8; 33]; 33]) -> (png_image: Vec<u8>)
    ensures
        png_image@ == png_file(grid_view(qr_matrix)),
{
    let ghost grid = grid_view(qr_matrix);
    let mut image_serial: Vec<u8> = Vec::new();
    let mut row: usize = 0;
    while row < 33
        invariant
            row <= 33,
            grid == grid_view(qr_matrix),
            image_serial@.len() == 272 * row,
            forall|i: int| 0 <= i < 272 * row ==> #[trigger] image_serial@[i] == image_byte(grid, i),
        decreases 33 - row,
    {
        let mut line: usize = 0;
        while line < 8
            invariant
                row < 33,
                line <= 8,
                grid == grid_view(qr_matrix),
                image_serial@.len() == 272 * row + 34 * line,
                forall|i: int|
                    0 <= i < 272 * row + 34 * line ==> #[trigger] image_serial@[i] == image_byte(
                        grid,
                        i,
                    ),
            decreases 8 - line,
        {
            let ghost start = image_serial@.len() as int;
            assert(start == 34 * (8 * row + line));
            image_serial.push(0);
            let mut col: usize = 0;
            while col < 33
                invariant
                    row < 33,
                    line < 8,
                    col <= 33,
                    grid == grid_view(qr_matrix),
                    start == 34 * (8 * row + line),
                    image_serial@.len() == start + 1 + col,
                    forall|i: int|
                        0 <= i < start + 1 + col ==> #[trigger] image_serial@[i] == image_byte(
                            grid,
                            i,
                        ),
                decreases 33 - col,
            {
                let ghost i = start + 1 + col;
                assert(i / 34 == 8 * row + line && i % 34 == col + 1) by {
                    assert(i == 34 * (8 * row + line) + (col + 1));
                }
                assert((8 * row + line) / 8 == row);
                let pixel: u8 = if qr_matrix[row][col] == 1 {
                    0
                } else {
                    255
                };
                image_serial.push(pixel);
                col += 1;
            }
            line += 1;
        }
        row += 1;
    }
    assert(image_serial@ =~= image(grid));

    let mut png_image: Vec<u8> = Vec::new();
    let mut append = png_signature();
    push_all(&mut png_image, &append);
    append = png_ihdr();
    push_all(&mut png_image, &append);
    append = png_idat(image_serial);
    push_all(&mut png_image, &append);
    append = png_iend();
    push_all(&mut png_image, &append);
    png_image
}

} // verus!
