use password_display::qr_code::{apply_ecc, encapsulate_data, encode_bits, gf_multiply};

const GENERATOR: [u8; 11] = [1, 216, 194, 159, 111, 199, 94, 95, 113, 157, 193];

// The product in GF(256) by the table of the powers of 2.
fn product(a: u8, b: u8) -> u8 {
    let mut exp = [0u8; 512];
    let mut log = [0usize; 256];
    let mut x: u16 = 1;
    for i in 0..255 {
        exp[i] = x as u8;
        log[x as usize] = i;
        x <<= 1;
        if x & 0x100 != 0 {
            x ^= 0x11D;
        }
    }
    for i in 255..512 {
        exp[i] = exp[i - 255];
    }
    if a == 0 || b == 0 {
        0
    } else {
        exp[log[a as usize] + log[b as usize]]
    }
}

fn codewords(bits: &[u8]) -> Vec<u8> {
    bits.chunks(8).map(|c| c.iter().fold(0u8, |v, b| v * 2 + b)).collect()
}

fn remainder(codewords: &[u8]) -> Vec<u8> {
    let mut p = codewords.to_vec();
    for i in 0..p.len() - 10 {
        let q = p[i];
        for k in 0..11 {
            p[i + k] ^= product(GENERATOR[k], q);
        }
    }
    p[p.len() - 10..].to_vec()
}

#[test]
fn gf_multiply_known_products() {
    assert_eq!(gf_multiply(GENERATOR, 0x53), [83, 112, 45, 173, 205, 47, 117, 38, 193, 11, 216]);
    assert_eq!(gf_multiply([2, 255, 0x57, 1, 0, 128, 3, 4, 5, 6, 7], 128)[0], 29);
    assert_eq!(gf_multiply([255; 11], 255), [226; 11]);
    assert_eq!(gf_multiply([0x57; 11], 0x83), [49; 11]);
}

#[test]
fn gf_multiply_by_zero_and_one() {
    assert_eq!(gf_multiply(GENERATOR, 0), [0; 11]);
    assert_eq!(gf_multiply(GENERATOR, 1), GENERATOR);
}

#[test]
fn gf_multiply_agrees_with_the_table_of_powers() {
    for a in 0..=255u8 {
        for b in [0u8, 1, 2, 3, 29, 76, 128, 200, 254, 255] {
            assert_eq!(gf_multiply([a; 11], b), [product(a, b); 11]);
        }
    }
}

#[test]
fn error_correction_of_a_short_message() {
    let data = encapsulate_data(encode_bits(vec![0xFF], 45));
    let out = apply_ecc(data);
    assert_eq!(out.len(), 352);
    assert_eq!(out[..272].to_vec(), data.to_vec());
    assert_eq!(
        codewords(&out[..272]),
        vec![
            32, 16, 255, 0, 236, 17, 236, 17, 236, 17, 236, 17, 236, 17, 236, 17, 236, 17, 236, 17, 236, 17, 236, 17, 236, 17, 236, 17, 236, 17, 236, 17, 236, 17
        ]
    );
    assert_eq!(codewords(&out[272..]), vec![109, 225, 239, 87, 178, 88, 152, 164, 198, 22]);
}

#[test]
fn error_correction_of_a_full_message() {
    let data = encapsulate_data(encode_bits(vec![0xAA; 32], 45));
    let out = apply_ecc(data);
    assert_eq!(
        codewords(&out[..272]),
        vec![
            33, 121, 55, 47, 227, 224, 248, 134, 16, 236, 64, 73, 202, 132, 132, 233, 96, 16, 236, 121, 147, 157, 207, 31, 36, 221, 136, 85, 78, 194, 12, 141, 2, 138
        ]
    );
    assert_eq!(codewords(&out[272..]), vec![150, 196, 76, 113, 117, 18, 110, 158, 65, 200]);
}

#[test]
fn codewords_leave_no_remainder() {
    for secret in [vec![0x00], vec![0xFF], vec![0x00, 0x01], vec![0xAA; 32], vec![0x5C; 17]] {
        let out = apply_ecc(encapsulate_data(encode_bits(secret, 45)));
        assert!(out.iter().all(|b| *b <= 1));
        assert_eq!(remainder(&codewords(&out)), vec![0; 10]);
    }
}

#[test]
fn error_correction_of_zeros_is_zero() {
    assert_eq!(apply_ecc([0; 272]), [0; 352]);
}
