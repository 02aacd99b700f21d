use password_display::form_png;
use password_display::png::{deflate, png_idat, png_ihdr, png_iend, png_signature};

fn fnv(bytes: &[u8]) -> u64 {
    let mut h: u64 = 0xcbf2_9ce4_8422_2325;
    for b in bytes {
        h ^= *b as u64;
        h = h.wrapping_mul(0x0000_0100_0000_01b3);
    }
    h
}

#[test]
fn signature_is_fixed() {
    assert_eq!(png_signature(), vec![0x89, 0x50, 0x4E, 0x47, 0x0D, 0x0A, 0x1A, 0x0A]);
}

#[test]
fn header_chunk_names_264_by_264_pixels_of_one_bit() {
    assert_eq!(
        png_ihdr(),
        vec![
            0, 0, 0, 0x0D, 0x49, 0x48, 0x44, 0x52, 0, 0, 1, 8, 0, 0, 1, 8, 1, 0, 0, 0, 0, 0x8B,
            0x8D, 0x57, 0x52
        ]
    );
}

#[test]
fn end_chunk_is_fixed() {
    assert_eq!(
        png_iend(),
        vec![0, 0, 0, 0, 0x49, 0x45, 0x4E, 0x44, 0xAE, 0x42, 0x60, 0x82]
    );
}

#[test]
fn stored_block_of_three_bytes() {
    assert_eq!(
        deflate(vec![1, 2, 3]),
        vec![0x78, 0x01, 0x01, 3, 0, 0xFC, 0xFF, 1, 2, 3, 0x00, 0x0D, 0x00, 0x07]
    );
}

#[test]
fn stored_block_of_an_image() {
    let block = deflate(vec![0xFF; 8976]);
    assert_eq!(block.len(), 8976 + 11);
    assert_eq!(block[..7].to_vec(), vec![0x78, 0x01, 0x01, 0x10, 0x23, 0xEF, 0xDC]);
    assert_eq!(block[8983..].to_vec(), vec![0x4C, 0x79, 0xEE, 0xEF]);
}

#[test]
fn image_data_chunk_of_one_byte() {
    assert_eq!(
        png_idat(vec![0x2A]),
        vec![
            0x00, 0x00, 0x00, 0x0C, 0x49, 0x44, 0x41, 0x54, 0x78, 0x01, 0x01, 0x01, 0x00, 0xFE, 0xFF, 0x2A, 0x00, 0x2B, 0x00, 0x2B, 0x92, 0x9D, 0x3C, 0x14
        ]
    );
}

#[test]
fn png_of_a_light_grid() {
    let png = form_png([[0; 33]; 33]);
    assert_eq!(png.len(), 9044);
    assert_eq!(png[..8].to_vec(), png_signature());
    assert_eq!(png[8..33].to_vec(), png_ihdr());
    assert_eq!(png[33..41].to_vec(), vec![0, 0, 0x23, 0x1B, 0x49, 0x44, 0x41, 0x54]);
    for line in 0..264 {
        assert_eq!(png[48 + 34 * line], 0);
        assert_eq!(png[49 + 34 * line..82 + 34 * line].to_vec(), vec![0xFF; 33]);
    }
    assert_eq!(png[9032..].to_vec(), png_iend());
    assert_eq!(fnv(&png), 0x11F95B3DE9F0D8CA);
}

#[test]
fn a_dark_module_is_eight_black_pixels_on_eight_lines() {
    let mut grid = [[0u8; 33]; 33];
    grid[4][5] = 1;
    grid[32][32] = 1;
    grid[0][0] = 2;
    let png = form_png(grid);
    for line in 0..264 {
        for col in 0..33 {
            let dark = (line / 8 == 4 && col == 5) || (line / 8 == 32 && col == 32);
            assert_eq!(png[48 + 34 * line + 1 + col], if dark { 0 } else { 0xFF });
        }
    }
}

#[test]
fn adler_checksum_closes_the_image_data() {
    let mut grid = [[0u8; 33]; 33];
    for r in 0..33 {
        for c in 0..33 {
            grid[r][c] = ((r * 7 + c * 3) % 5 == 0) as u8;
        }
    }
    let png = form_png(grid);
    let raw = &png[48..48 + 8976];
    let mut s1: u32 = 1;
    let mut s2: u32 = 0;
    for b in raw {
        s1 = (s1 + *b as u32) % 65521;
        s2 = (s2 + s1) % 65521;
    }
    let adler = (s2 << 16) | s1;
    assert_eq!(png[9024..9028].to_vec(), adler.to_be_bytes().to_vec());
}
