use password_display::qr_code::{divmod, encode_bits};

fn value(digits: &[u8], base: u128) -> u128 {
    let mut v: u128 = 0;
    for d in digits {
        v = v * base + *d as u128;
    }
    v
}

#[test]
fn one_zero_byte_gives_two_zero_symbols() {
    assert_eq!(encode_bits(vec![0x00], 45), vec![0, 0]);
}

#[test]
fn one_byte_of_ones_gives_5_30() {
    assert_eq!(encode_bits(vec![0xFF], 45), vec![5, 30]);
}

#[test]
fn leading_zero_byte_is_kept_as_leading_zero_symbols() {
    assert_eq!(encode_bits(vec![0x00, 0x01], 45), vec![0, 0, 1]);
}

#[test]
fn every_single_byte_gives_two_symbols() {
    for b in 0..=255u8 {
        let s = encode_bits(vec![b], 45);
        assert_eq!(s, vec![b / 45, b % 45]);
    }
}

#[test]
fn thirty_two_bytes_give_47_symbols() {
    let s = encode_bits(vec![0xAA; 32], 45);
    assert_eq!(
        s,
        vec![
            6, 41, 8, 23, 5, 23, 11, 2, 2, 7, 2, 28, 5, 32, 6, 43, 14, 14, 23, 28, 13, 15, 0, 33, 38, 25, 27, 10, 36, 35, 10, 33, 40, 28, 39, 17, 11, 38, 14, 39, 23, 21, 35, 31, 22, 44, 10
        ]
    );
    assert_eq!(s.len(), 47);
    assert_eq!(encode_bits(vec![0xFF; 32], 45).len(), 47);
    assert_eq!(encode_bits(vec![0x00; 32], 45).len(), 47);
}

#[test]
fn zero_bytes_give_the_expected_number_of_zero_symbols() {
    for n in 0..=32usize {
        let expected = (n * 16 + 10) / 11;
        assert_eq!(encode_bits(vec![0; n], 45), vec![0; expected]);
    }
}

#[test]
fn length_is_two_symbols_for_eleven_bits_rounded_up() {
    for n in 1..=32usize {
        if n % 11 == 0 {
            continue;
        }
        let expected = (n * 16 + 10) / 11;
        assert_eq!(encode_bits(vec![0xFF; n], 45).len(), expected);
        assert_eq!(encode_bits(vec![0x01; n], 45).len(), expected);
    }
}

#[test]
fn eleven_bytes_of_ones_need_a_seventeenth_symbol() {
    let s = encode_bits(vec![0xFF; 11], 45);
    assert_eq!(s, vec![1, 4, 11, 21, 33, 13, 3, 41, 6, 36, 5, 43, 41, 26, 22, 22, 15]);
    assert_eq!(encode_bits(vec![0x7F; 11], 45).len(), 16);
    assert_eq!(encode_bits(vec![0xFF; 22], 45).len(), 33);
}

#[test]
fn symbols_spell_the_number_of_the_bytes() {
    let bytes = vec![0x12, 0x34, 0x56, 0x78, 0x9A, 0xBC, 0xDE, 0xF0, 0x01, 0x02];
    let s = encode_bits(bytes.clone(), 45);
    assert!(s.iter().all(|d| *d < 45));
    assert_eq!(value(&s, 45), value(&bytes, 256));
    let mut v = value(&s, 45);
    let mut back = vec![0u8; bytes.len()];
    for i in (0..bytes.len()).rev() {
        back[i] = (v % 256) as u8;
        v /= 256;
    }
    assert_eq!(back, bytes);
}

#[test]
fn empty_input_gives_no_symbol() {
    assert_eq!(encode_bits(vec![], 45), Vec::<u8>::new());
}

#[test]
fn other_bases_are_written_too() {
    assert_eq!(encode_bits(vec![0x05], 2), vec![1, 0, 1]);
    assert_eq!(encode_bits(vec![0xFF], 16), vec![15, 15]);
    assert_eq!(encode_bits(vec![0x01, 0x00], 255), vec![0, 1, 1]);
}

#[test]
fn divmod_gives_quotient_without_leading_zeros_and_remainder() {
    assert_eq!(divmod(vec![0xFF], 45), (vec![5], 30));
    assert_eq!(divmod(vec![0x00, 0x2C], 45), (vec![], 44));
    assert_eq!(divmod(vec![0x01, 0x00, 0x00], 45), (vec![0x05, 0xB0], 16));
    assert_eq!(divmod(vec![], 45), (vec![], 0));
    assert_eq!(divmod(vec![0x00, 0x07], 1), (vec![7], 0));
}
