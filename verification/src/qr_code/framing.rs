//! Framing of the base-45 symbols as the data bits of the symbol.
//!
//! The 34 data codewords hold, in this order and each most significant bit
//! first: the mode indicator of the alphanumeric mode, the number of
//! symbols in nine bits, the symbols two by two in eleven bits (a last single
//! one in six), a terminator of up to four zero bits, zero bits up to the next
//! codeword boundary, and pad codewords up to the end.

use vstd::prelude::*;
use crate::binary::{bit, halved, write_bits};
use crate::qr_code::base45::number;
use crate::qr_code::reed_solomon::binary;

verus! {

/// The mode indicator of the alphanumeric mode.
pub const ALPHANUMERIC: u16 = 2;

/// The first pad codeword.
pub const PAD_FIRST: u16 = 236;

/// The second pad codeword.
pub const PAD_SECOND: u16 = 17;

/// The index after the last bit of the `len` symbols.
pub open spec fn payload_end(len: int) -> int {
    13 + 11 * (len / 2) + 6 * (len % 2)
}

/// The index at which the pad codewords begin: after the terminator, which is
/// cut off at the end of the buffer, on the next multiple of 8.
pub open spec fn pad_start(len: int) -> int {
    let end = if payload_end(len) + 4 <= 272 {
        payload_end(len) + 4
    } else {
        272
    };
    (end + 7) / 8 * 8
}

/// Bit `i` of the frame of the symbols `s`.
pub open spec fn frame_bit(s: Seq<u8>, i: int) -> u8 {
    let len = s.len() as int;
    if i < 4 {
        bit(ALPHANUMERIC as int, 3 - i)
    } else if i < 13 {
        bit(len, 12 - i)
    } else if i < payload_end(len) {
        let pair = (i - 13) / 11;
        if pair < len / 2 {
            bit(s[2 * pair] * 45 + s[2 * pair + 1], 10 - (i - 13) % 11)
        } else {
            bit(s[len - 1] as int, 5 - (i - 13 - 11 * (len / 2)))
        }
    } else if i < pad_start(len) {
        0
    } else {
        let k = i - pad_start(len);
        bit(
            if (k / 8) % 2 == 0 {
                PAD_FIRST as int
            } else {
                PAD_SECOND as int
            },
            7 - k % 8,
        )
    }
}

/// The 272 data bits that frame the symbols `s`, one bit per element.
pub open spec fn frame(s: Seq<u8>) -> Seq<u8> {
    Seq::new(272, |i: int| frame_bit(s, i))
}

/// The frame has 272 bits, each 0 or 1. It begins with the mode indicator of
/// the alphanumeric mode, and its next nine bits spell the number of symbols.
pub proof fn lemma_frame_header(s: Seq<u8>)
    requires
        s.len() <= 47,
    ensures
        frame(s).len() == 272,
        binary(frame(s)),
        frame(s).subrange(0, 4) == seq![0u8, 0u8, 1u8, 0u8],
        number(frame(s).subrange(4, 13), 2) == s.len(),
{
    reveal_with_fuel(halved, 10);
    let f = frame(s);
    assert(f[0] == 0 && f[1] == 0 && f[2] == 1 && f[3] == 0);
    assert(f.subrange(0, 4) =~= seq![0u8, 0u8, 1u8, 0u8]);
    let c9 = f.subrange(4, 13);
    let c8 = c9.drop_last();
    let c7 = c8.drop_last();
    let c6 = c7.drop_last();
    let c5 = c6.drop_last();
    let c4 = c5.drop_last();
    let c3 = c4.drop_last();
    let c2 = c3.drop_last();
    let c1 = c2.drop_last();
    let len = s.len() as int;
    assert(number(c1.drop_last(), 2) == 0);
    assert(number(c1, 2) == halved(len, 8));
    assert(number(c2, 2) == halved(len, 7));
    assert(number(c3, 2) == halved(len, 6));
    assert(number(c4, 2) == halved(len, 5));
    assert(number(c5, 2) == halved(len, 4));
    assert(number(c6, 2) == halved(len, 3));
    assert(number(c7, 2) == halved(len, 2));
    assert(number(c8, 2) == halved(len, 1));
}

/// The bits of the `n`-th pad codeword are those of the frame at its place.
proof fn lemma_pad_codeword(s: Seq<u8>, n: int, j: int)
    requires
        s.len() <= 47,
        0 <= n,
        pad_start(s.len() as int) + 8 * n <= j < pad_start(s.len() as int) + 8 * n + 8,
    ensures
        frame_bit(s, j) == bit(
            if n % 2 == 0 {
                PAD_FIRST as int
            } else {
                PAD_SECOND as int
            },
            pad_start(s.len() as int) + 8 * n + 7 - j,
        ),
{
    let k = j - pad_start(s.len() as int);
    assert(k / 8 == n && k % 8 == k - 8 * n) by {
        assert(k == 8 * n + (k - 8 * n));
    }
}

/// Frames the base-45 symbols as the data bits of the symbol.
///
/// The buffer has room for 47 symbols, which is what 32 bytes give.
pub fn encapsulate_data(encoded_bits: Vec<u8>) -> (data: [u8; 272])
    requires
        encoded_bits.len() <= 47,
    ensures
        data@ == frame(encoded_bits@),
{
    let len = encoded_bits.len();
    let mut data = [0u8; 272];
    write_bits(&mut data, 0, ALPHANUMERIC, 4);
    write_bits(&mut data, 4, len as u16, 9);

    let mut index: usize = 13;
    let mut i: usize = 0;
    while i + 1 < len
        invariant
            len == encoded_bits@.len(),
            len <= 47,
            i % 2 == 0,
            i <= len,
            index == 13 + 11 * (i / 2),
            forall|j: int| 0 <= j < index ==> #[trigger] data[j] == frame_bit(encoded_bits@, j),
            forall|j: int| index <= j < 272 ==> #[trigger] data[j] == 0,
        decreases len - i,
    {
        let pair: u16 = encoded_bits[i] as u16 * 45 + encoded_bits[i + 1] as u16;
        write_bits(&mut data, index, pair, 11);
        index += 11;
        i += 2;
    }
    if i < len {
        write_bits(&mut data, index, encoded_bits[i] as u16, 6);
        index += 6;
    }
    assert(index == payload_end(len as int));
    index = if index + 4 <= 272 {
        index + 4
    } else {
        272
    };
    index = (index + 7) / 8 * 8;
    assert(index == pad_start(len as int));

    let ghost mut n: int = 0;
    let mut first = true;
    while index < 272
        invariant
            len == encoded_bits@.len(),
            len <= 47,
            0 <= n,
            index == pad_start(len as int) + 8 * n,
            index <= 272,
            index % 8 == 0,
            first == (n % 2 == 0),
            forall|j: int| 0 <= j < index ==> #[trigger] data[j] == frame_bit(encoded_bits@, j),
            forall|j: int| index <= j < 272 ==> #[trigger] data[j] == 0,
        decreases 272 - index,
    {
        assert forall|j: int| index <= j < index + 8 implies frame_bit(encoded_bits@, j) == bit(
            if first {
                PAD_FIRST as int
            } else {
                PAD_SECOND as int
            },
            index + 7 - j,
        ) by {
            lemma_pad_codeword(encoded_bits@, n, j);
        }
        write_bits(
            &mut data,
            index,
            if first {
                PAD_FIRST
            } else {
                PAD_SECOND
            },
            8,
        );
        index += 8;
        first = !first;
        proof {
            n = n + 1;
        }
    }
    assert(data@ =~= frame(encoded_bits@));
    data
}

} // verus!
