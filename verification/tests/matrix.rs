use password_display::qr_code::Matrix;

const PATTERNS: [&str; 25] = [
    "1111111000000000001111111",
    "1000001000000000001000001",
    "1011101000000000001011101",
    "1011101000000000001011101",
    "1011101000000000001011101",
    "1000001000000000001000001",
    "1111111010101010101111111",
    "0000000000000000000000000",
    "0000001000000000000000000",
    "0000000000000000000000000",
    "0000001000000000000000000",
    "0000000000000000000000000",
    "0000001000000000000000000",
    "0000000000000000000000000",
    "0000001000000000000000000",
    "0000000000000000000000000",
    "0000001000000000111110000",
    "0000000010000000100010000",
    "1111111000000000101010000",
    "1000001000000000100010000",
    "1011101000000000111110000",
    "1011101000000000000000000",
    "1011101000000000000000000",
    "1000001000000000000000000",
    "1111111000000000000000000",
];

const RESERVED: [&str; 25] = [
    "1111111110000000011111111",
    "1111111110000000011111111",
    "1111111110000000011111111",
    "1111111110000000011111111",
    "1111111110000000011111111",
    "1111111110000000011111111",
    "1111111111111111111111111",
    "1111111110000000011111111",
    "1111111110000000011111111",
    "0000001000000000000000000",
    "0000001000000000000000000",
    "0000001000000000000000000",
    "0000001000000000000000000",
    "0000001000000000000000000",
    "0000001000000000000000000",
    "0000001000000000000000000",
    "0000001000000000111110000",
    "1111111110000000111110000",
    "1111111110000000111110000",
    "1111111110000000111110000",
    "1111111110000000111110000",
    "1111111110000000000000000",
    "1111111110000000000000000",
    "1111111110000000000000000",
    "1111111110000000000000000",
];

fn grid(rows: &[&str; 25]) -> Vec<Vec<u8>> {
    rows.iter().map(|r| r.bytes().map(|b| b - b'0').collect()).collect()
}

fn modules(m: &Matrix) -> Vec<Vec<u8>> {
    (0..25).map(|r| (0..25).map(|c| m.module_at(r, c)).collect()).collect()
}

fn reserved(m: &Matrix) -> Vec<Vec<u8>> {
    (0..25).map(|r| (0..25).map(|c| m.is_reserved(r, c) as u8).collect()).collect()
}

fn count(g: &Vec<Vec<u8>>, v: u8) -> usize {
    g.iter().flatten().filter(|x| **x == v).count()
}

fn with_patterns() -> Matrix {
    let mut m = Matrix::new();
    m.place_finder_pattern();
    m.place_alignment_pattern();
    m.place_dark_module();
    m.place_timing_pattern();
    m.reserve_format_area();
    m
}

#[test]
fn new_matrix_is_light_and_free() {
    let m = Matrix::new();
    assert_eq!(modules(&m), vec![vec![0; 25]; 25]);
    assert_eq!(reserved(&m), vec![vec![0; 25]; 25]);
}

#[test]
fn finder_patterns_stand_in_three_corners() {
    let mut m = Matrix::new();
    m.place_finder_pattern();
    let finder = ["1111111", "1000001", "1011101", "1011101", "1011101", "1000001", "1111111"];
    for (r0, c0) in [(0usize, 0usize), (18, 0), (0, 18)] {
        for i in 0..7 {
            for j in 0..7 {
                assert_eq!(m.module_at(r0 + i, c0 + j), finder[i].as_bytes()[j] - b'0');
            }
        }
    }
    assert_eq!(count(&modules(&m), 1), 3 * 33);
    for r in 0..25 {
        for c in 0..25 {
            let zone = (r < 8 && c < 8) || (r >= 17 && c < 8) || (r < 8 && c >= 17);
            assert_eq!(m.is_reserved(r, c), zone);
        }
    }
}

#[test]
fn alignment_pattern_stands_around_18_18() {
    let mut m = Matrix::new();
    m.place_alignment_pattern();
    let pattern = ["11111", "10001", "10101", "10001", "11111"];
    for r in 0..25 {
        for c in 0..25 {
            let inside = (16..=20).contains(&r) && (16..=20).contains(&c);
            let expected = if inside { pattern[r - 16].as_bytes()[c - 16] - b'0' } else { 0 };
            assert_eq!(m.module_at(r, c), expected);
            assert_eq!(m.is_reserved(r, c), inside);
        }
    }
}

#[test]
fn dark_module_stands_at_17_8() {
    let mut m = Matrix::new();
    m.place_dark_module();
    for r in 0..25 {
        for c in 0..25 {
            assert_eq!(m.module_at(r, c), (r == 17 && c == 8) as u8);
            assert_eq!(m.is_reserved(r, c), r == 17 && c == 8);
        }
    }
}

#[test]
fn timing_patterns_alternate() {
    let mut m = Matrix::new();
    m.place_timing_pattern();
    for r in 0..25 {
        for c in 0..25 {
            let row = r == 6 && (8..=16).contains(&c);
            let col = c == 6 && (8..=16).contains(&r);
            assert_eq!(m.is_reserved(r, c), row || col);
            assert_eq!(m.module_at(r, c), ((row && c % 2 == 0) || (col && r % 2 == 0)) as u8);
        }
    }
}

#[test]
fn format_area_is_reserved_and_no_module_changes() {
    let mut m = Matrix::new();
    m.reserve_format_area();
    assert_eq!(modules(&m), vec![vec![0; 25]; 25]);
    for r in 0..25 {
        for c in 0..25 {
            let expected = (r == 8 && (c <= 8 || c >= 17)) || (c == 8 && (r <= 8 || r >= 17));
            assert_eq!(m.is_reserved(r, c), expected);
        }
    }
    assert_eq!(count(&reserved(&m), 1), 33);
}

#[test]
fn function_patterns_together() {
    let m = with_patterns();
    assert_eq!(modules(&m), grid(&PATTERNS));
    assert_eq!(reserved(&m), grid(&RESERVED));
    assert_eq!(count(&reserved(&m), 0), 359);
}

#[test]
fn a_pattern_is_drawn_over_what_stood_in_its_cells() {
    let mut m = Matrix::new();
    for r in 0..25 {
        for c in 0..25 {
            m.flip_bit(r, c);
        }
    }
    m.place_finder_pattern();
    m.place_alignment_pattern();
    m.place_dark_module();
    m.place_timing_pattern();
    m.reserve_format_area();
    let patterns = grid(&PATTERNS);
    let reserved = grid(&RESERVED);
    for r in 0..25 {
        for c in 0..25 {
            let format = (r == 8 && (c <= 8 || c >= 17)) || (c == 8 && (r <= 8 || r >= 17));
            let timing = (r == 6 || c == 6) && (8..=16).contains(&r.max(c));
            let dark_module = r == 17 && c == 8;
            let drawn = reserved[r][c] == 1 && (!format || timing || dark_module);
            assert_eq!(m.module_at(r, c), if drawn { patterns[r][c] } else { 1 });
        }
    }
}

#[test]
fn a_pattern_leaves_the_modules_outside_its_cells() {
    let mut m = Matrix::new();
    m.flip_bit(12, 12);
    m.flip_bit(8, 0);
    m.flip_bit(7, 20);
    m.place_finder_pattern();
    assert_eq!(m.module_at(12, 12), 1);
    assert_eq!(m.module_at(8, 0), 1);
    assert_eq!(m.module_at(7, 20), 0);
    assert_eq!(count(&modules(&m), 1), 3 * 33 + 2);
}

#[test]
fn data_bits_follow_the_path() {
    let mut bits = [0u8; 352];
    for i in 0..352 {
        bits[i] = (i % 250) as u8 + 2;
    }
    let mut m = with_patterns();
    m.fill_data(bits);
    let expected: [[u8; 25]; 25] = [
        [1, 1, 1, 1, 1, 1, 1, 0, 0, 250, 249, 248, 247, 154, 153, 152, 151, 0, 1, 1, 1, 1, 1, 1, 1],
        [1, 0, 0, 0, 0, 0, 1, 0, 0, 2, 251, 246, 245, 156, 155, 150, 149, 0, 1, 0, 0, 0, 0, 0, 1],
        [1, 0, 1, 1, 1, 0, 1, 0, 0, 4, 3, 244, 243, 158, 157, 148, 147, 0, 1, 0, 1, 1, 1, 0, 1],
        [1, 0, 1, 1, 1, 0, 1, 0, 0, 6, 5, 242, 241, 160, 159, 146, 145, 0, 1, 0, 1, 1, 1, 0, 1],
        [1, 0, 1, 1, 1, 0, 1, 0, 0, 8, 7, 240, 239, 162, 161, 144, 143, 0, 1, 0, 1, 1, 1, 0, 1],
        [1, 0, 0, 0, 0, 0, 1, 0, 0, 10, 9, 238, 237, 164, 163, 142, 141, 0, 1, 0, 0, 0, 0, 0, 1],
        [1, 1, 1, 1, 1, 1, 1, 0, 1, 0, 1, 0, 1, 0, 1, 0, 1, 0, 1, 1, 1, 1, 1, 1, 1],
        [0, 0, 0, 0, 0, 0, 0, 0, 0, 12, 11, 236, 235, 166, 165, 140, 139, 0, 0, 0, 0, 0, 0, 0, 0],
        [0, 0, 0, 0, 0, 0, 1, 0, 0, 14, 13, 234, 233, 168, 167, 138, 137, 0, 0, 0, 0, 0, 0, 0, 0],
        [96, 95, 94, 93, 64, 63, 0, 62, 61, 16, 15, 232, 231, 170, 169, 136, 135, 89, 88, 87, 86, 35, 34, 33, 32],
        [98, 97, 92, 91, 66, 65, 1, 60, 59, 18, 17, 230, 229, 172, 171, 134, 133, 91, 90, 85, 84, 37, 36, 31, 30],
        [100, 99, 90, 89, 68, 67, 0, 58, 57, 20, 19, 228, 227, 174, 173, 132, 131, 93, 92, 83, 82, 39, 38, 29, 28],
        [102, 101, 88, 87, 70, 69, 1, 56, 55, 22, 21, 226, 225, 176, 175, 130, 129, 95, 94, 81, 80, 41, 40, 27, 26],
        [0, 103, 86, 85, 72, 71, 0, 54, 53, 24, 23, 224, 223, 178, 177, 128, 127, 97, 96, 79, 78, 43, 42, 25, 24],
        [0, 0, 84, 83, 74, 73, 1, 52, 51, 26, 25, 222, 221, 180, 179, 126, 125, 99, 98, 77, 76, 45, 44, 23, 22],
        [0, 0, 82, 81, 76, 75, 0, 50, 49, 28, 27, 220, 219, 182, 181, 124, 123, 101, 100, 75, 74, 47, 46, 21, 20],
        [0, 0, 80, 79, 78, 77, 1, 48, 47, 30, 29, 218, 217, 184, 183, 122, 1, 1, 1, 1, 1, 49, 48, 19, 18],
        [0, 0, 0, 0, 0, 0, 0, 0, 1, 32, 31, 216, 215, 186, 185, 121, 1, 0, 0, 0, 1, 51, 50, 17, 16],
        [1, 1, 1, 1, 1, 1, 1, 0, 0, 34, 33, 214, 213, 188, 187, 120, 1, 0, 1, 0, 1, 53, 52, 15, 14],
        [1, 0, 0, 0, 0, 0, 1, 0, 0, 36, 35, 212, 211, 190, 189, 119, 1, 0, 0, 0, 1, 55, 54, 13, 12],
        [1, 0, 1, 1, 1, 0, 1, 0, 0, 38, 37, 210, 209, 192, 191, 118, 1, 1, 1, 1, 1, 57, 56, 11, 10],
        [1, 0, 1, 1, 1, 0, 1, 0, 0, 40, 39, 208, 207, 194, 193, 117, 116, 103, 102, 73, 72, 59, 58, 9, 8],
        [1, 0, 1, 1, 1, 0, 1, 0, 0, 42, 41, 206, 205, 196, 195, 115, 114, 105, 104, 71, 70, 61, 60, 7, 6],
        [1, 0, 0, 0, 0, 0, 1, 0, 0, 44, 43, 204, 203, 198, 197, 113, 112, 107, 106, 69, 68, 63, 62, 5, 4],
        [1, 1, 1, 1, 1, 1, 1, 0, 0, 46, 45, 202, 201, 200, 199, 111, 110, 109, 108, 67, 66, 65, 64, 3, 2],
    ];
    for r in 0..25 {
        for c in 0..25 {
            assert_eq!(m.module_at(r, c), expected[r][c]);
        }
    }
    assert_eq!(reserved(&m), grid(&RESERVED));
}

#[test]
fn data_bits_start_in_the_lower_right_corner() {
    let mut bits = [0u8; 352];
    bits[0] = 1;
    bits[2] = 1;
    bits[351] = 1;
    let mut m = Matrix::new();
    m.fill_data(bits);
    assert_eq!(m.module_at(24, 24), 1);
    assert_eq!(m.module_at(24, 23), 0);
    assert_eq!(m.module_at(23, 24), 1);
    // the last bit: eighth pair of columns (10 and 9), downwards, second cell of row 0
    assert_eq!(m.module_at(0, 9), 1);
    assert_eq!(count(&modules(&m), 1), 3);
}

#[test]
fn seven_free_cells_remain_after_the_data() {
    let mut m = with_patterns();
    m.fill_data([1; 352]);
    assert_eq!(count(&modules(&m), 1) - count(&grid(&PATTERNS), 1), 352);
    for r in 0..25 {
        for c in 0..25 {
            if m.is_reserved(r, c) {
                assert_eq!(m.module_at(r, c), grid(&PATTERNS)[r][c]);
            }
        }
    }
    // the last free cells of the path lie in columns 1 and 0
    let light: Vec<(usize, usize)> = (0..25)
        .flat_map(|r| (0..25).map(move |c| (r, c)))
        .filter(|(r, c)| !m.is_reserved(*r, *c) && m.module_at(*r, *c) == 0)
        .collect();
    assert_eq!(light, vec![(13, 0), (14, 0), (14, 1), (15, 0), (15, 1), (16, 0), (16, 1)]);
}

#[test]
fn data_are_written_over_earlier_data() {
    let mut m = with_patterns();
    m.fill_data([1; 352]);
    m.fill_data([0; 352]);
    assert_eq!(modules(&m), grid(&PATTERNS));
}

#[test]
fn reserved_cells_take_no_data() {
    let mut m = Matrix::new();
    m.place_finder_pattern();
    m.place_alignment_pattern();
    let before = modules(&m);
    m.fill_data([1; 352]);
    for r in 0..25 {
        for c in 0..25 {
            if m.is_reserved(r, c) || c == 6 {
                assert_eq!(m.module_at(r, c), before[r][c]);
            }
        }
    }
    assert_eq!(count(&modules(&m), 1) - count(&before, 1), 352);
}

#[test]
fn export_adds_a_quiet_zone_of_four() {
    let mut m = with_patterns();
    m.fill_data([1; 352]);
    let out = m.export();
    for r in 0..33 {
        for c in 0..33 {
            if r < 4 || r >= 29 || c < 4 || c >= 29 {
                assert_eq!(out[r][c], 0);
            } else {
                assert_eq!(out[r][c], m.module_at(r - 4, c - 4));
            }
        }
    }
    assert_eq!(out[4][4], 1);
    assert_eq!(out[28][28], 1);
}
