//! The two checksums of a PNG file: Adler-32 over the image data inside the
//! zlib stream, and CRC-32 over the type and data of every chunk.

use vstd::prelude::*;

verus! {

/// The largest prime below 2^16, modulo which Adler-32 sums.
pub const ADLER_MODULUS: u32 = 65521;

/// The generator polynomial of CRC-32 with the coefficient of `x^31` in bit 0,
/// as the register of the checksum holds it.
pub const CRC_POLYNOMIAL: u32 = 0xEDB8_8320;

/// The same polynomial with the coefficient of `x^31` in bit 31.
pub const CRC_GENERATOR: u32 = 0x04C1_1DB7;

/// The two sums of Adler-32 over `data`: one plus the bytes, and the
/// successive values of that sum, both modulo 65521.
pub open spec fn adler_sums(data: Seq<u8>) -> (nat, nat)
    decreases data.len(),
{
    if data.len() == 0 {
        (1, 0)
    } else {
        let (s1, s2) = adler_sums(data.drop_last());
        let t1 = (s1 + data.last() as nat) % 65521;
        (t1, (s2 + t1) % 65521)
    }
}

/// The Adler-32 checksum of `data`: the second sum in the upper half, the
/// first in the lower.
pub open spec fn adler32(data: Seq<u8>) -> u32 {
    (adler_sums(data).1 * 65536 + adler_sums(data).0) as u32
}

/// The register of CRC-32 after one shift: the polynomial is added whenever a
/// one leaves the register.
pub open spec fn crc_shift(r: u32) -> u32 {
    if r & 1 == 1 {
        (r >> 1) ^ CRC_POLYNOMIAL
    } else {
        r >> 1
    }
}

/// The register after `n` shifts.
pub open spec fn crc_shifts(r: u32, n: nat) -> u32
    decreases n,
{
    if n == 0 {
        r
    } else {
        crc_shift(crc_shifts(r, (n - 1) as nat))
    }
}

/// The register of CRC-32 after `data`: it starts with all bits set, and each
/// byte is added to its low end and shifted through.
pub open spec fn crc_register(data: Seq<u8>) -> u32
    decreases data.len(),
{
    if data.len() == 0 {
        0xFFFF_FFFF
    } else {
        crc_shifts(crc_register(data.drop_last()) ^ (data.last() as u32), 8)
    }
}

/// The CRC-32 checksum of `data`, as PNG and zlib define it: the register
/// after the data, inverted.
pub open spec fn crc32(data: Seq<u8>) -> u32 {
    crc_register(data) ^ 0xFFFF_FFFF
}

/// The lowest `n` bits of `x` in reverse order at the top of a byte: bit `k`
/// goes to bit `7 - k`.
pub open spec fn reflected(x: u8, n: nat) -> u8
    decreases n,
{
    if n == 0 {
        0
    } else {
        reflected(x, (n - 1) as nat) | (((x >> ((n - 1) as u8)) & 1) << ((8 - n) as u8))
    }
}

/// The lowest `n` bits of `x` in reverse order at the top of a word: bit `k`
/// goes to bit `31 - k`.
pub open spec fn mirrored(x: u32, n: nat) -> u32
    decreases n,
{
    if n == 0 {
        0
    } else {
        mirrored(x, (n - 1) as nat) | (((x >> ((n - 1) as u32)) & 1) << ((32 - n) as u32))
    }
}

/// One step of the division by the generator with the most significant bit
/// first: the register moves up by one, `b` enters at the bottom, and the
/// generator is added if a one left at the top.
pub open spec fn divide_step(c: u32, b: u32) -> u32 {
    if c & 0x8000_0000 == 0x8000_0000 {
        ((c << 1) | b) ^ CRC_GENERATOR
    } else {
        (c << 1) | b
    }
}

/// The byte of `data` at `i`, or zero past its end.
pub open spec fn byte_or_zero(data: Seq<u8>, i: int) -> u8 {
    if 0 <= i < data.len() {
        data[i]
    } else {
        0
    }
}

/// Four bytes as a word, the first in the lowest place.
pub open spec fn word(d0: u8, d1: u8, d2: u8, d3: u8) -> u32 {
    (d0 as u32) | ((d1 as u32) << 8) | ((d2 as u32) << 16) | ((d3 as u32) << 24)
}

/// The four bytes of `data` from `k` on, with zeros past its end, as a word.
pub open spec fn lookahead(data: Seq<u8>, k: int) -> u32 {
    word(
        byte_or_zero(data, k),
        byte_or_zero(data, k + 1),
        byte_or_zero(data, k + 2),
        byte_or_zero(data, k + 3),
    )
}

/// The word `u` with the byte `x` above it, moved down by `j` bits.
pub open spec fn tail(u: u32, x: u8, j: u32) -> u32 {
    (((u as u64) | ((x as u64) << 32)) >> (j as u64)) as u32
}

/// A step of the division with the most significant bit first is a shift of
/// the mirrored register, with the new bit at its top.
proof fn lemma_mirror_step(c: u32, b: u32)
    requires
        b <= 1,
    ensures
        mirrored(divide_step(c, b), 32) == crc_shift(mirrored(c, 32)) ^ (b << 31),
{
    reveal_with_fuel(mirrored, 33);
    assert(b <= 1 ==> mirrored(divide_step(c, b), 32) == crc_shift(mirrored(c, 32)) ^ (b << 31))
        by (bit_vector);
}

/// A shift of the register is linear: what is added to the register above its
/// lowest bit is added to the result one place lower.
proof fn lemma_shift_sum(a: u32, t: u32)
    requires
        t & 1 == 0,
    ensures
        crc_shift(a ^ t) == crc_shift(a) ^ (t >> 1),
{
    assert(t & 1 == 0 ==> crc_shift(a ^ t) == crc_shift(a) ^ (t >> 1)) by (bit_vector);
}

/// How the bytes that lie ahead move down through the register, bit by bit.
proof fn lemma_tail(u: u32, x: u8, j: u32)
    requires
        u & 0xFF == 0,
        j < 8,
    ensures
        tail(u, x, j) & 1 == 0,
        tail(u, x, (j + 1) as u32) == (tail(u, x, j) >> 1) ^ ((((x >> (j as u8)) & 1) as u32)
            << 31),
        ((x >> (j as u8)) & 1) as u32 <= 1,
        tail(u, x, 0) == u,
        tail(u, x, 8) == (u >> 8) | ((x as u32) << 24),
{
    assert(u & 0xFF == 0 && j < 8 ==> tail(u, x, j) & 1 == 0 && tail(u, x, (j + 1) as u32) == (tail(
        u,
        x,
        j,
    ) >> 1) ^ ((((x >> (j as u8)) & 1) as u32) << 31) && ((x >> (j as u8)) & 1) as u32 <= 1
        && tail(u, x, 0) == u && tail(u, x, 8) == (u >> 8) | ((x as u32) << 24)) by (bit_vector);
}

/// The register with the first four bytes loaded in reverse bit order and
/// inverted is, mirrored, the initial register with those bytes ahead.
proof fn lemma_load(d0: u8, d1: u8, d2: u8, d3: u8)
    ensures
        mirrored(
            !(((reflected(d0, 8) as u32) << 24) | ((reflected(d1, 8) as u32) << 16) | ((reflected(
                d2,
                8,
            ) as u32) << 8) | (reflected(d3, 8) as u32)),
            32,
        ) == 0xFFFF_FFFFu32 ^ word(d0, d1, d2, d3),
{
    reveal_with_fuel(mirrored, 33);
    reveal_with_fuel(reflected, 9);
    assert(mirrored(
        !(((reflected(d0, 8) as u32) << 24) | ((reflected(d1, 8) as u32) << 16) | ((reflected(
            d2,
            8,
        ) as u32) << 8) | (reflected(d3, 8) as u32)),
        32,
    ) == 0xFFFF_FFFFu32 ^ word(d0, d1, d2, d3)) by (bit_vector);
}

/// How a word of four bytes parts into its first byte and the rest, and what
/// the rest becomes when a fifth byte follows.
proof fn lemma_word(s: u32, d0: u8, d1: u8, d2: u8, d3: u8, x: u8)
    ensures
        s ^ word(d0, d1, d2, d3) == (s ^ (d0 as u32)) ^ (word(d0, d1, d2, d3) & 0xFFFF_FF00),
        (word(d0, d1, d2, d3) & 0xFFFF_FF00) & 0xFF == 0,
        ((word(d0, d1, d2, d3) & 0xFFFF_FF00) >> 8) | ((x as u32) << 24) == word(d1, d2, d3, x),
        s ^ word(0, 0, 0, 0) == s,
        !s == s ^ 0xFFFF_FFFF,
{
    assert(s ^ word(d0, d1, d2, d3) == (s ^ (d0 as u32)) ^ (word(d0, d1, d2, d3) & 0xFFFF_FF00) && (
    word(d0, d1, d2, d3) & 0xFFFF_FF00) & 0xFF == 0 && ((word(d0, d1, d2, d3) & 0xFFFF_FF00) >> 8)
        | ((x as u32) << 24) == word(d1, d2, d3, x) && s ^ word(0, 0, 0, 0) == s && !s == s
        ^ 0xFFFF_FFFF) by (bit_vector);
}

/// The Adler-32 checksum of `data`.
pub fn calculate_adler32(data: &Vec<u8>) -> (checksum: u32)
    ensures
        checksum == adler32(data@),
{
    let mut s1: u32 = 1;
    let mut s2: u32 = 0;
    let mut i: usize = 0;
    assert(data@.take(0) =~= Seq::<u8>::empty());
    while i < data.len()
        invariant
            i <= data@.len(),
            s1 < 65521,
            s2 < 65521,
            s1 == adler_sums(data@.take(i as int)).0,
            s2 == adler_sums(data@.take(i as int)).1,
        decreases data@.len() - i,
    {
        assert(data@.take(i + 1).drop_last() =~= data@.take(i as int));
        s1 = (s1 + data[i] as u32) % ADLER_MODULUS;
        s2 = (s2 + s1) % ADLER_MODULUS;
        i += 1;
    }
    assert(data@.take(i as int) =~= data@);
    s2 * 65536 + s1
}

/// The bits of `byte` in reverse order.
pub fn reflect_byte(byte: u8) -> (new_byte: u8)
    ensures
        new_byte == reflected(byte, 8),
{
    let mut new_byte: u8 = 0;
    let mut n: u8 = 0;
    while n < 8
        invariant
            n <= 8,
            new_byte == reflected(byte, n as nat),
        decreases 8 - n,
    {
        new_byte = new_byte | (((byte >> n) & 1) << (7 - n));
        n += 1;
    }
    new_byte
}

/// Bit `n` of `byte`, where bit 0 is the least significant.
pub fn next_bit(byte: u8, n: u32) -> (b: u32)
    requires
        n < 8,
    ensures
        b == ((byte >> (n as u8)) & 1) as u32,
        b <= 1,
{
    let b = (byte >> (n as u8)) & 1;
    assert(b <= 1) by (bit_vector)
        requires
            b == (byte >> (n as u8)) & 1,
    ;
    b as u32
}

/// The bits of `crc` in reverse order.
pub fn mirror_crc(crc: u32) -> (new_crc: u32)
    ensures
        new_crc == mirrored(crc, 32),
{
    let mut new_crc: u32 = 0;
    let mut n: u32 = 0;
    while n < 32
        invariant
            n <= 32,
            new_crc == mirrored(crc, n as nat),
        decreases 32 - n,
    {
        new_crc = new_crc | (((crc >> n) & 1) << (31 - n));
        n += 1;
    }
    new_crc
}

/// The CRC-32 checksum of `data`, which holds the four bytes of a chunk's type
/// and then its data.
///
/// The data are divided by the generator polynomial with the most significant
/// bit first, each byte entering in reverse bit order, and the remainder is
/// mirrored at the end; this gives the checksum that is defined on a register
/// with the least significant bit first.
pub fn calculate_crc(data: &[u8]) -> (checksum: u32)
    requires
        data@.len() >= 4,
    ensures
        checksum == crc32(data@),
{
    let len = data.len();
    let mut crc: u32 = ((reflect_byte(data[0]) as u32) << 24) | ((reflect_byte(data[1]) as u32)
        << 16) | ((reflect_byte(data[2]) as u32) << 8) | (reflect_byte(data[3]) as u32);
    crc = !crc;
    proof {
        lemma_load(data@[0], data@[1], data@[2], data@[3]);
        assert(data@.take(0) =~= Seq::<u8>::empty());
    }
    let mut k: usize = 0;
    while k < len
        invariant
            len == data@.len(),
            len >= 4,
            k <= len,
            mirrored(crc, 32) == crc_register(data@.take(k as int)) ^ lookahead(data@, k as int),
        decreases len - k,
    {
        let byte: u8 = if len - k > 4 {
            data[k + 4]
        } else {
            0
        };
        let ghost before = crc_register(data@.take(k as int));
        let ghost ahead = lookahead(data@, k as int);
        let ghost start = before ^ (data@[k as int] as u32);
        let ghost rest = ahead & 0xFFFF_FF00;
        proof {
            lemma_word(
                before,
                data@[k as int],
                byte_or_zero(data@, k + 1),
                byte_or_zero(data@, k + 2),
                byte_or_zero(data@, k + 3),
                byte,
            );
            lemma_tail(rest, byte, 0);
        }
        let mut m: u32 = 0;
        while m < 8
            invariant
                m <= 8,
                rest & 0xFF == 0,
                mirrored(crc, 32) == crc_shifts(start, m as nat) ^ tail(rest, byte, m),
            decreases 8 - m,
        {
            let bit = next_bit(byte, m);
            proof {
                lemma_mirror_step(crc, bit);
                lemma_tail(rest, byte, m);
                lemma_shift_sum(crc_shifts(start, m as nat), tail(rest, byte, m));
                lemma_xor_order(
                    crc_shift(crc_shifts(start, m as nat)),
                    tail(rest, byte, m) >> 1,
                    bit << 31,
                );
            }
            let carry = crc & 0x8000_0000 == 0x8000_0000;
            crc = (crc << 1) | bit;
            if carry {
                crc = crc ^ CRC_GENERATOR;
            }
            m += 1;
        }
        proof {
            lemma_tail(rest, byte, 7);
            assert(data@.take(k + 1).drop_last() =~= data@.take(k as int));
            assert(data@.take(k + 1).last() == data@[k as int]);
            assert(crc_register(data@.take(k + 1)) == crc_shifts(start, 8));
        }
        k += 1;
    }
    crc = mirror_crc(crc);
    proof {
        assert(data@.take(len as int) =~= data@);
        lemma_word(crc_register(data@), 0, 0, 0, 0, 0);
        lemma_word(crc, 0, 0, 0, 0, 0);
    }
    !crc
}

/// Sums over GF(2) may be grouped at will.
proof fn lemma_xor_order(a: u32, b: u32, c: u32)
    by (bit_vector)
    ensures
        (a ^ b) ^ c == a ^ (b ^ c),
{
}

} // verus!
