use password_display::checksum::{
    calculate_adler32, calculate_crc, mirror_crc, next_bit, reflect_byte,
};

#[test]
fn crc_of_the_check_string() {
    assert_eq!(calculate_crc(b"123456789"), 0xCBF4_3926);
}

#[test]
fn crc_of_the_end_chunk_type() {
    assert_eq!(calculate_crc(b"IEND"), 0xAE42_6082);
}

#[test]
fn crc_of_the_header_chunk() {
    let mut data = b"IHDR".to_vec();
    data.extend_from_slice(&[0, 0, 1, 8, 0, 0, 1, 8, 1, 0, 0, 0, 0]);
    assert_eq!(calculate_crc(&data), 0x8B8D5752);
}

#[test]
fn crc_of_zeros_and_ones() {
    assert_eq!(calculate_crc(&[0, 0, 0, 0]), 0x2144DF1C);
    assert_eq!(calculate_crc(&[0xFF; 4]), 0xFFFFFFFF);
    assert_eq!(calculate_crc(&[0xFF; 40]), 0x8CD04C73);
    assert_eq!(calculate_crc(b"The quick brown fox jumps over the lazy dog"), 0x414F_A339);
}

#[test]
fn adler_of_known_strings() {
    assert_eq!(calculate_adler32(&b"Wikipedia".to_vec()), 0x11E6_0398);
    assert_eq!(calculate_adler32(&vec![]), 1);
    assert_eq!(calculate_adler32(&vec![0]), 0x0001_0001);
    assert_eq!(calculate_adler32(&vec![0xFF; 8976]), 0x4C79EEEF);
}

#[test]
fn reflect_byte_reverses_the_bits() {
    assert_eq!(reflect_byte(0b0000_0001), 0b1000_0000);
    assert_eq!(reflect_byte(0b1101_0010), 0b0100_1011);
    assert_eq!(reflect_byte(0), 0);
    assert_eq!(reflect_byte(0xFF), 0xFF);
    for b in 0..=255u8 {
        assert_eq!(reflect_byte(b), b.reverse_bits());
        assert_eq!(reflect_byte(reflect_byte(b)), b);
    }
}

#[test]
fn next_bit_reads_from_the_least_significant() {
    assert_eq!(next_bit(0b0000_0101, 0), 1);
    assert_eq!(next_bit(0b0000_0101, 1), 0);
    assert_eq!(next_bit(0b0000_0101, 2), 1);
    assert_eq!(next_bit(0x80, 7), 1);
    assert_eq!(next_bit(0x7F, 7), 0);
}

#[test]
fn mirror_crc_reverses_the_bits() {
    assert_eq!(mirror_crc(1), 0x8000_0000);
    assert_eq!(mirror_crc(0x04C1_1DB7), 0xEDB8_8320);
    assert_eq!(mirror_crc(0x1234_5678), 0x1234_5678u32.reverse_bits());
    assert_eq!(mirror_crc(0), 0);
}
