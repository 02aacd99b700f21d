//! Numbers as sequences of bits.

use vstd::prelude::*;

verus! {

/// The natural number `v` halved `k` times, rounding down.
pub open spec fn halved(v: int, k: int) -> int
    decreases k,
{
    if k <= 0 {
        v
    } else {
        halved(v, k - 1) / 2
    }
}

/// Bit `k` of the natural number `v`, where bit 0 is the least significant.
pub open spec fn bit(v: int, k: int) -> u8 {
    (halved(v, k) % 2) as u8
}

/// Writes the lowest `width` bits of `value`, most significant first, one bit
/// per element from `start` on; no other element changes.
pub fn write_bits<const N: usize>(data: &mut [u8; N], start: usize, value: u16, width: usize)
    requires
        start + width <= N,
    ensures
        forall|j: int|
            0 <= j < N ==> #[trigger] final(data)[j] == (if start <= j < start + width {
                bit(value as int, start + width - 1 - j)
            } else {
                old(data)[j]
            }),
{
    let mut rest: u16 = value;
    let mut k: usize = 0;
    while k < width
        invariant
            start + width <= N,
            k <= width,
            rest as int == halved(value as int, k as int),
            forall|j: int|
                0 <= j < N ==> #[trigger] data[j] == (if start + width - k <= j < start + width {
                    bit(value as int, start + width - 1 - j)
                } else {
                    old(data)[j]
                }),
        decreases width - k,
    {
        data[start + width - 1 - k] = (rest % 2) as u8;
        rest = rest / 2;
        k += 1;
    }
}

} // verus!
