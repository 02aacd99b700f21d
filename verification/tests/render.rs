use password_display::qr_code::{build_symbol, Matrix};
use password_display::{form_png, render, secret_length};

const SYMBOL_00: [&str; 25] = [
    "1111111011110111001111111",
    "1000001000011111001000001",
    "1011101001010110001011101",
    "1011101000110011001011101",
    "1011101000111101001011101",
    "1000001001010110001000001",
    "1111111010101010101111111",
    "0000000011001010000000000",
    "1101101001001111101000001",
    "0111010010100010001101001",
    "0011111101001010011001111",
    "0000010110000011001111011",
    "1010101001100110011011111",
    "1100000101101000011110001",
    "1101101010100011010000101",
    "1011010110001110100010101",
    "1011001100111001111110011",
    "0000000011010000100011011",
    "1111111001101111101011011",
    "1000001001010101100011111",
    "1011101011010100111111101",
    "1011101011001100010010101",
    "1011101000110100111100011",
    "1000001011111101111010110",
    "1111111011111101101000111",
];

const SYMBOL_FF: [&str; 25] = [
    "1111111001000001101111111",
    "1000001011011000001000001",
    "1011101001110010101011101",
    "1011101011010000101011101",
    "1011101000101111001011101",
    "1000001010100111101000001",
    "1111111010101010101111111",
    "0000000000001101000000000",
    "1111101111101011010101010",
    "1010000101000001101110101",
    "1001011011011000001011101",
    "1100110101110010111110101",
    "0111001111010000101101001",
    "1000100111101111011001010",
    "1001001010100111110100010",
    "1011110010001101000001010",
    "1011001011101011111110010",
    "0000000010100001100010101",
    "1111111010111001101011101",
    "1000001001010010100010111",
    "1011101011010000111111001",
    "1011101010101111110001001",
    "1011101010100110101110001",
    "1000001010001100001011000",
    "1111111010101011011110001",
];

const SYMBOL_AA: [&str; 25] = [
    "1111111010110111001111111",
    "1000001000011001001000001",
    "1011101000101010001011101",
    "1011101000001011101011101",
    "1011101001101101001011101",
    "1000001000111000001000001",
    "1111111010101010101111111",
    "0000000010000100000000000",
    "1101101000111001101000001",
    "0110110001110100101011010",
    "1111011001001011001011100",
    "0001100111110111011100110",
    "1111011100110101010110011",
    "1101000111000000011001110",
    "1110011111100110110111011",
    "1010000100000111001100110",
    "1001101010111100111111011",
    "0000000011111010100011001",
    "1111111001001111101010010",
    "1000001000001001100010110",
    "1011101011010011111111111",
    "1011101010100000100010011",
    "1011101001100111110011011",
    "1000001011110000110101110",
    "1111111011001100111111011",
];

fn grid(rows: &[&str; 25]) -> Vec<Vec<u8>> {
    rows.iter().map(|r| r.bytes().map(|b| b - b'0').collect()).collect()
}

fn modules(m: &Matrix) -> Vec<Vec<u8>> {
    (0..25).map(|r| (0..25).map(|c| m.module_at(r, c)).collect()).collect()
}

fn fnv(bytes: &[u8]) -> u64 {
    let mut h: u64 = 0xcbf2_9ce4_8422_2325;
    for b in bytes {
        h ^= *b as u64;
        h = h.wrapping_mul(0x0000_0100_0000_01b3);
    }
    h
}

#[test]
fn symbol_of_one_zero_byte() {
    assert_eq!(modules(&build_symbol(vec![0x00])), grid(&SYMBOL_00));
}

#[test]
fn symbol_of_one_byte_of_ones() {
    assert_eq!(modules(&build_symbol(vec![0xFF])), grid(&SYMBOL_FF));
}

#[test]
fn symbol_of_thirty_two_bytes() {
    assert_eq!(modules(&build_symbol(vec![0xAA; 32])), grid(&SYMBOL_AA));
}

#[test]
fn function_patterns_stand_in_every_symbol() {
    let finder = ["1111111", "1000001", "1011101", "1011101", "1011101", "1000001", "1111111"];
    let alignment = ["11111", "10001", "10101", "10001", "11111"];
    for secret in [vec![], vec![0x00], vec![0xFF; 11], vec![0x5A; 22], vec![0xFF; 32]] {
        let m = build_symbol(secret);
        for r in 0..8 {
            for c in 0..8 {
                let v = if r < 7 && c < 7 { finder[r].as_bytes()[c] - b'0' } else { 0 };
                assert_eq!(m.module_at(r, c), v);
                assert_eq!(m.module_at(24 - r, c), v);
                assert_eq!(m.module_at(r, 24 - c), v);
            }
        }
        for r in 0..5 {
            for c in 0..5 {
                assert_eq!(m.module_at(16 + r, 16 + c), alignment[r].as_bytes()[c] - b'0');
            }
        }
        for n in 8..=16 {
            assert_eq!(m.module_at(6, n), (n % 2 == 0) as u8);
            assert_eq!(m.module_at(n, 6), (n % 2 == 0) as u8);
        }
        assert_eq!(m.module_at(17, 8), 1);
    }
}

#[test]
fn every_module_of_a_symbol_is_light_or_dark() {
    let m = build_symbol(vec![0x12, 0x34, 0x56]);
    assert!(modules(&m).iter().flatten().all(|v| *v <= 1));
}

#[test]
fn rendering_of_one_byte_of_ones() {
    let png = render(vec![0xFF]);
    assert_eq!(png.len(), 9044);
    assert_eq!(
        png[..41].to_vec(),
        vec![
            0x89, 0x50, 0x4E, 0x47, 0x0D, 0x0A, 0x1A, 0x0A, 0x00, 0x00, 0x00, 0x0D, 0x49, 0x48,
            0x44, 0x52, 0x00, 0x00, 0x01, 0x08, 0x00, 0x00, 0x01, 0x08, 0x01, 0x00, 0x00, 0x00,
            0x00, 0x8B, 0x8D, 0x57, 0x52, 0x00, 0x00, 0x23, 0x1B, 0x49, 0x44, 0x41, 0x54
        ]
    );
    assert_eq!(
        png[9024..].to_vec(),
        vec![
            0xA0, 0xEE, 0xB1, 0x92, 0xC9, 0xB5, 0xE7, 0x92, 0x00, 0x00, 0x00, 0x00, 0x49, 0x45, 0x4E, 0x44, 0xAE, 0x42, 0x60, 0x82
        ]
    );
    assert_eq!(fnv(&png), 0x7EB302BB83FD5A30);
}

#[test]
fn renderings_of_other_secrets() {
    assert_eq!(fnv(&render(vec![0x00])), 0x669BF2589B6DE025);
    assert_eq!(fnv(&render(vec![0xAA; 32])), 0xEDD927B222309DC7);
}

#[test]
fn rendering_is_the_png_of_the_exported_symbol() {
    let secret = vec![0xDE, 0xAD, 0xBE, 0xEF];
    assert_eq!(render(secret.clone()), form_png(build_symbol(secret).export()));
}

#[test]
fn rendering_of_thirty_two_bytes_is_small() {
    assert!(render(vec![0xAA; 32]).len() <= 9200);
}

#[test]
fn pixels_of_the_rendering_show_the_symbol_in_its_quiet_zone() {
    let png = render(vec![0xFF]);
    let symbol = grid(&SYMBOL_FF);
    for line in 0..264 {
        assert_eq!(png[48 + 34 * line], 0);
        for col in 0..33 {
            let r = line / 8;
            let dark = r >= 4 && r < 29 && col >= 4 && col < 29 && symbol[r - 4][col - 4] == 1;
            assert_eq!(png[48 + 34 * line + 1 + col], if dark { 0x00 } else { 0xFF });
        }
    }
}

#[test]
fn only_the_first_thirty_two_bytes_of_a_file_are_read() {
    assert_eq!(secret_length(0), 0);
    assert_eq!(secret_length(1), 1);
    assert_eq!(secret_length(32), 32);
    assert_eq!(secret_length(33), 32);
    assert_eq!(secret_length(256), 32);
    assert_eq!(secret_length(u64::MAX), 32);
}
