//! Reed-Solomon error correction over GF(256).
//!
//! An element of the field is a polynomial over GF(2) of degree below 8, held in
//! a byte with the coefficient of `x^k` in bit `k`. Addition is `^`;
//! multiplication is the product of the polynomials modulo
//! `x^8 + x^4 + x^3 + x^2 + 1`. The ten error correction codewords of a message
//! are the remainder of the message, as a polynomial over the field with its
//! first codeword as the leading coefficient, times `x^10`, divided by the
//! generator polynomial.

use vstd::prelude::*;
use crate::binary::{bit, halved, write_bits};

verus! {

/// The polynomial `x^8 + x^4 + x^3 + x^2 + 1` that defines the field.
pub const FIELD_POLYNOMIAL: u16 = 0x11D;

/// The product over GF(2) of the polynomial `a` and the lowest `n` terms of `b`.
pub open spec fn carryless_product(a: u8, b: u8, n: nat) -> u16
    decreases n,
{
    if n == 0 {
        0
    } else {
        let low = carryless_product(a, b, (n - 1) as nat);
        let k = (n - 1) as u16;
        if ((b as u16) >> k) & 1 == 1 {
            low ^ ((a as u16) << k)
        } else {
            low
        }
    }
}

/// The remainder of `p`, a polynomial of degree at most `top`, modulo the field
/// polynomial: the terms from `x^top` down to `x^8` are cancelled in turn.
pub open spec fn reduce(p: u16, top: nat) -> u16
    decreases top,
{
    if top < 8 {
        p
    } else {
        let q = if (p >> (top as u16)) & 1 == 1 {
            p ^ (FIELD_POLYNOMIAL << ((top - 8) as u16))
        } else {
            p
        };
        reduce(q, (top - 1) as nat)
    }
}

/// The product of `a` and `b` in GF(256).
pub open spec fn gf_mul(a: u8, b: u8) -> u8 {
    reduce(carryless_product(a, b, 8), 15) as u8
}

/// `p` with each term from `x^8` to `x^15` replaced by its remainder modulo the
/// field polynomial.
pub open spec fn fold(p: u16) -> u16 {
    let p = if p & 0x0100 == 0x0100 {
        p ^ 29
    } else {
        p
    };
    let p = if p & 0x0200 == 0x0200 {
        p ^ 58
    } else {
        p
    };
    let p = if p & 0x0400 == 0x0400 {
        p ^ 116
    } else {
        p
    };
    let p = if p & 0x0800 == 0x0800 {
        p ^ 232
    } else {
        p
    };
    let p = if p & 0x1000 == 0x1000 {
        p ^ 205
    } else {
        p
    };
    let p = if p & 0x2000 == 0x2000 {
        p ^ 135
    } else {
        p
    };
    let p = if p & 0x4000 == 0x4000 {
        p ^ 19
    } else {
        p
    };
    let p = if p & 0x8000 == 0x8000 {
        p ^ 38
    } else {
        p
    };
    p & 0xFF
}

/// Replacing each high term by its remainder gives the remainder of the whole.
pub proof fn lemma_fold_is_reduce(p: u16)
    ensures
        fold(p) == reduce(p, 15),
        fold(p) <= 0xFF,
{
    reveal_with_fuel(reduce, 10);
    assert(fold(p) == reduce(p, 15) && fold(p) <= 0xFF) by (bit_vector);
}

/// The generator polynomial for ten error correction codewords, leading
/// coefficient first.
pub open spec fn generator() -> Seq<u8> {
    seq![1u8, 216u8, 194u8, 159u8, 111u8, 199u8, 94u8, 95u8, 113u8, 157u8, 193u8]
}

/// One step of the division of `p` by the generator: the multiple of the
/// generator that cancels the coefficient at index `i` is added to `p`.
pub open spec fn cancel(p: Seq<u8>, i: int) -> Seq<u8> {
    Seq::new(
        p.len(),
        |k: int|
            if i <= k <= i + 10 {
                p[k] ^ gf_mul(generator()[k - i], p[i])
            } else {
                p[k]
            },
    )
}

/// `p` after the first `n` steps of its division by the generator.
pub open spec fn divide(p: Seq<u8>, n: nat) -> Seq<u8>
    decreases n,
{
    if n == 0 {
        p
    } else {
        cancel(divide(p, (n - 1) as nat), n - 1)
    }
}

/// The remainder of `p`, of at least ten coefficients, divided by the generator.
pub open spec fn remainder(p: Seq<u8>) -> Seq<u8> {
    divide(p, (p.len() - 10) as nat).subrange(p.len() - 10, p.len() as int)
}

/// Ten coefficients that are zero.
pub open spec fn zeros() -> Seq<u8> {
    Seq::new(10, |k: int| 0u8)
}

/// The error correction codewords of `message`.
pub open spec fn error_correction(message: Seq<u8>) -> Seq<u8> {
    remainder(message + zeros())
}

/// Codeword `n` of the bits `bits`: eight of them, most significant first.
pub open spec fn codeword(bits: Seq<u8>, n: int) -> int {
    bits[8 * n] * 128 + bits[8 * n + 1] * 64 + bits[8 * n + 2] * 32 + bits[8 * n + 3] * 16 + bits[8
        * n + 4] * 8 + bits[8 * n + 5] * 4 + bits[8 * n + 6] * 2 + bits[8 * n + 7]
}

/// The codewords that `bits` spell.
pub open spec fn pack(bits: Seq<u8>) -> Seq<u8> {
    Seq::new(bits.len() / 8, |n: int| codeword(bits, n) as u8)
}

/// The bits of `codewords`, most significant first, one bit per element.
pub open spec fn expand(codewords: Seq<u8>) -> Seq<u8> {
    Seq::new(8 * codewords.len(), |i: int| bit(codewords[i / 8] as int, 7 - i % 8))
}

/// Whether every element of `bits` is 0 or 1.
pub open spec fn binary(bits: Seq<u8>) -> bool {
    forall|i: int| 0 <= i < bits.len() ==> #[trigger] bits[i] <= 1
}

/// The data bits followed by the bits of their error correction codewords.
pub open spec fn encoded(data: Seq<u8>) -> Seq<u8> {
    data + expand(error_correction(pack(data)))
}

/// A step of the division leaves the coefficients that lie after its window.
pub proof fn lemma_divide_leaves_tail(p: Seq<u8>, n: nat, k: int)
    requires
        n + 10 <= k < p.len(),
    ensures
        divide(p, n).len() == p.len(),
        divide(p, n)[k] == p[k],
    decreases n,
{
    if n > 0 {
        lemma_divide_leaves_tail(p, (n - 1) as nat, k);
    }
}

/// The steps of the division keep the number of coefficients.
pub proof fn lemma_divide_len(p: Seq<u8>, n: nat)
    ensures
        divide(p, n).len() == p.len(),
    decreases n,
{
    if n > 0 {
        lemma_divide_len(p, (n - 1) as nat);
    }
}

/// Addition in the field: zero is neutral, every element is its own inverse,
/// and the order of two additions does not matter.
proof fn lemma_xor_laws(a: u8, b: u8, c: u8)
    by (bit_vector)
    ensures
        a ^ 0 == a,
        0 ^ a == a,
        a ^ a == 0,
        (a ^ b) ^ c == (a ^ c) ^ b,
{
}

/// Division is linear in the low coefficients: if `c` differs from `p` by `d`,
/// and `d` is zero wherever a step of the division reads its leading
/// coefficient, then after `n` steps the two still differ by `d`.
proof fn lemma_divide_offset(p: Seq<u8>, c: Seq<u8>, d: Seq<u8>, n: nat)
    requires
        p.len() == c.len(),
        p.len() == d.len(),
        n + 10 <= p.len(),
        forall|k: int| 0 <= k < p.len() - 10 ==> #[trigger] d[k] == 0,
        forall|k: int| 0 <= k < p.len() ==> #[trigger] c[k] == p[k] ^ d[k],
    ensures
        divide(p, n).len() == p.len(),
        divide(c, n).len() == p.len(),
        forall|k: int| 0 <= k < p.len() ==> #[trigger] divide(c, n)[k] == divide(p, n)[k] ^ d[k],
    decreases n,
{
    if n > 0 {
        let i = n - 1;
        lemma_divide_offset(p, c, d, i as nat);
        let pn = divide(p, i as nat);
        let cn = divide(c, i as nat);
        assert(cn[i] == pn[i]) by {
            lemma_xor_laws(pn[i], 0, 0);
        }
        assert forall|k: int| 0 <= k < p.len() implies #[trigger] divide(c, n)[k] == divide(
            p,
            n,
        )[k] ^ d[k] by {
            if i <= k <= i + 10 {
                lemma_xor_laws(pn[k], d[k], gf_mul(generator()[k - i], pn[i]));
            }
        }
    }
}

/// The data codewords followed by their error correction codewords, read as a
/// polynomial over GF(256), leave no remainder when divided by the generator
/// polynomial.
pub proof fn lemma_codewords_divisible(message: Seq<u8>)
    ensures
        remainder(message + error_correction(message)) == zeros(),
{
    let n = message.len();
    let p = message + zeros();
    let e = error_correction(message);
    let c = message + e;
    let d = Seq::new(n + 10, |k: int| if k < n { 0u8 } else { e[k - n] });
    lemma_divide_len(p, n);
    assert forall|k: int| 0 <= k < p.len() implies #[trigger] c[k] == p[k] ^ d[k] by {
        lemma_xor_laws(p[k], 0, 0);
        lemma_xor_laws(d[k], 0, 0);
    }
    lemma_divide_offset(p, c, d, n);
    assert forall|k: int| 0 <= k < 10 implies #[trigger] remainder(c)[k] == 0 by {
        lemma_xor_laws(e[k], 0, 0);
    }
    assert(remainder(c) =~= zeros());
}

/// Eight bits, most significant first, spell the number they are the bits of.
pub proof fn lemma_codeword_of_bits(v: u8)
    ensures
        bit(v as int, 7) * 128 + bit(v as int, 6) * 64 + bit(v as int, 5) * 32 + bit(v as int, 4)
            * 16 + bit(v as int, 3) * 8 + bit(v as int, 2) * 4 + bit(v as int, 1) * 2 + bit(
            v as int,
            0,
        ) == v,
{
    reveal_with_fuel(halved, 9);
}

/// The bits of a codeword are the bits that spell it.
pub proof fn lemma_bits_of_codeword(bits: Seq<u8>, n: int, j: int)
    requires
        binary(bits),
        0 <= n,
        8 * n + 8 <= bits.len(),
        0 <= j < 8,
    ensures
        0 <= codeword(bits, n) < 256,
        bit(codeword(bits, n), 7 - j) == bits[8 * n + j],
{
    let b0 = bits[8 * n] as int;
    let b1 = bits[8 * n + 1] as int;
    let b2 = bits[8 * n + 2] as int;
    let b3 = bits[8 * n + 3] as int;
    let b4 = bits[8 * n + 4] as int;
    let b5 = bits[8 * n + 5] as int;
    let b6 = bits[8 * n + 6] as int;
    let b7 = bits[8 * n + 7] as int;
    assert(b0 <= 1 && b1 <= 1 && b2 <= 1 && b3 <= 1 && b4 <= 1 && b5 <= 1 && b6 <= 1 && b7 <= 1);
    let x = codeword(bits, n);
    assert(halved(x, 0) == x);
    assert(halved(x, 1) == b0 * 64 + b1 * 32 + b2 * 16 + b3 * 8 + b4 * 4 + b5 * 2 + b6);
    assert(halved(x, 2) == b0 * 32 + b1 * 16 + b2 * 8 + b3 * 4 + b4 * 2 + b5);
    assert(halved(x, 3) == b0 * 16 + b1 * 8 + b2 * 4 + b3 * 2 + b4);
    assert(halved(x, 4) == b0 * 8 + b1 * 4 + b2 * 2 + b3);
    assert(halved(x, 5) == b0 * 4 + b1 * 2 + b2);
    assert(halved(x, 6) == b0 * 2 + b1);
    assert(halved(x, 7) == b0);
}

/// Packing the bits of codewords gives the codewords back.
pub proof fn lemma_pack_expand(codewords: Seq<u8>)
    ensures
        pack(expand(codewords)) == codewords,
        binary(expand(codewords)),
{
    let bits = expand(codewords);
    assert forall|n: int| 0 <= n < codewords.len() implies #[trigger] pack(bits)[n] == codewords[n] by {
        lemma_codeword_of_bits(codewords[n]);
        assert((8 * n) / 8 == n && (8 * n) % 8 == 0);
        assert((8 * n + 1) / 8 == n && (8 * n + 1) % 8 == 1);
        assert((8 * n + 2) / 8 == n && (8 * n + 2) % 8 == 2);
        assert((8 * n + 3) / 8 == n && (8 * n + 3) % 8 == 3);
        assert((8 * n + 4) / 8 == n && (8 * n + 4) % 8 == 4);
        assert((8 * n + 5) / 8 == n && (8 * n + 5) % 8 == 5);
        assert((8 * n + 6) / 8 == n && (8 * n + 6) % 8 == 6);
        assert((8 * n + 7) / 8 == n && (8 * n + 7) % 8 == 7);
    }
    assert(pack(bits) =~= codewords);
}

/// The bits of the codewords that binary bits spell are those bits.
pub proof fn lemma_expand_pack(bits: Seq<u8>)
    requires
        binary(bits),
        bits.len() % 8 == 0,
    ensures
        expand(pack(bits)) == bits,
{
    assert forall|i: int| 0 <= i < bits.len() implies #[trigger] expand(pack(bits))[i] == bits[i] by {
        let n = i / 8;
        let j = i % 8;
        lemma_bits_of_codeword(bits, n, j);
    }
    assert(expand(pack(bits)) =~= bits);
}

/// The encoded bits are the bits of the data codewords followed by their error
/// correction codewords, and these codewords, read as a polynomial, are a
/// multiple of the generator polynomial.
pub proof fn lemma_encoded_divisible(data: Seq<u8>)
    requires
        binary(data),
        data.len() % 8 == 0,
    ensures
        encoded(data) == expand(pack(data) + error_correction(pack(data))),
        pack(encoded(data)) == pack(data) + error_correction(pack(data)),
        remainder(pack(encoded(data))) == zeros(),
{
    let message = pack(data);
    let ecc = error_correction(message);
    lemma_expand_pack(data);
    lemma_divide_len(message + zeros(), message.len());
    assert(ecc.len() == 10);
    assert(expand(message + ecc) =~= expand(message) + expand(ecc)) by {
        assert forall|i: int| 0 <= i < 8 * (message.len() + 10) implies #[trigger] expand(
            message + ecc,
        )[i] == (expand(message) + expand(ecc))[i] by {
            if i >= 8 * message.len() {
                let k = i - 8 * message.len();
                assert(i / 8 == message.len() + k / 8 && i % 8 == k % 8);
            }
        }
    }
    lemma_pack_expand(message + ecc);
    lemma_codewords_divisible(message);
}

/// Multiplies each coefficient of `gen_poly` by `factor` in GF(256).
pub fn gf_multiply(gen_poly: [u8; 11], factor: u8) -> (result: [u8; 11])
    ensures
        forall|n: int| 0 <= n < 11 ==> #[trigger] result[n] == gf_mul(gen_poly[n], factor),
{
    let mut result: [u8; 11] = [0; 11];
    let mut n: usize = 0;
    while n < 11
        invariant
            n <= 11,
            forall|m: int| 0 <= m < n ==> #[trigger] result[m] == gf_mul(gen_poly[m], factor),
        decreases 11 - n,
    {
        let coefficient = gen_poly[n] as u16;
        let mut product: u16 = 0;
        let mut k: u16 = 0;
        while k < 8
            invariant
                k <= 8,
                n < 11,
                coefficient == gen_poly[n as int] as u16,
                product == carryless_product(gen_poly[n as int], factor, k as nat),
            decreases 8 - k,
        {
            if ((factor as u16) >> k) & 1 == 1 {
                product = product ^ (coefficient << k);
            }
            k += 1;
        }
        let mut folded = product;
        if folded & 0x0100 == 0x0100 {
            folded = folded ^ 29;
        }
        if folded & 0x0200 == 0x0200 {
            folded = folded ^ 58;
        }
        if folded & 0x0400 == 0x0400 {
            folded = folded ^ 116;
        }
        if folded & 0x0800 == 0x0800 {
            folded = folded ^ 232;
        }
        if folded & 0x1000 == 0x1000 {
            folded = folded ^ 205;
        }
        if folded & 0x2000 == 0x2000 {
            folded = folded ^ 135;
        }
        if folded & 0x4000 == 0x4000 {
            folded = folded ^ 19;
        }
        if folded & 0x8000 == 0x8000 {
            folded = folded ^ 38;
        }
        folded = folded & 0xFF;
        proof {
            lemma_fold_is_reduce(product);
        }
        result[n] = folded as u8;
        n += 1;
    }
    result
}

/// Appends the ten error correction codewords to the 34 data codewords.
///
/// Both are held as bits, most significant first, one bit per element.
pub fn apply_ecc(data: [u8; 272]) -> (message_ecc: [u8; 352])
    requires
        binary(data@),
    ensures
        message_ecc@ == encoded(data@),
{
    let mut message: [u8; 44] = [0; 44];
    let mut n: usize = 0;
    while n < 34
        invariant
            n <= 34,
            binary(data@),
            forall|m: int| 0 <= m < n ==> #[trigger] message[m] == pack(data@)[m],
            forall|m: int| n <= m < 44 ==> #[trigger] message[m] == 0,
        decreases 34 - n,
    {
        let index = 8 * n;
        message[n] = data[index] * 128 + data[index + 1] * 64 + data[index + 2] * 32 + data[index
            + 3] * 16 + data[index + 4] * 8 + data[index + 5] * 4 + data[index + 6] * 2
            + data[index + 7];
        n += 1;
    }
    let ghost dividend = pack(data@) + zeros();
    assert(message@ =~= dividend);

    let gen_poly: [u8; 11] = [1, 216, 194, 159, 111, 199, 94, 95, 113, 157, 193];
    assert(gen_poly@ =~= generator());
    let mut window: [u8; 11] = [0; 11];
    let mut m: usize = 0;
    while m < 11
        invariant
            m <= 11,
            forall|k: int| 0 <= k < m ==> #[trigger] window[k] == message[k],
        decreases 11 - m,
    {
        window[m] = message[m];
        m += 1;
    }

    let mut step: usize = 0;
    while step < 34
        invariant
            step <= 34,
            message@ == dividend,
            dividend.len() == 44,
            gen_poly@ == generator(),
            divide(dividend, step as nat).len() == 44,
            forall|k: int|
                0 <= k < 11 && step + k < 44 ==> #[trigger] window[k] == divide(
                    dividend,
                    step as nat,
                )[step + k],
        decreases 34 - step,
    {
        let multiple = gf_multiply(gen_poly, window[0]);
        let ghost before = divide(dividend, step as nat);
        let ghost after = divide(dividend, (step + 1) as nat);
        let ghost previous = window;
        assert(after == cancel(before, step as int));
        let mut k: usize = 0;
        while k < 10
            invariant
                k <= 10,
                step < 34,
                before.len() == 44,
                after == cancel(before, step as int),
                gen_poly@ == generator(),
                forall|j: int|
                    0 <= j < 11 ==> #[trigger] multiple[j] == gf_mul(gen_poly[j], previous[0]),
                forall|j: int| 0 <= j < 11 ==> #[trigger] previous[j] == before[step + j],
                forall|j: int| k <= j < 11 ==> #[trigger] window[j] == previous[j],
                forall|j: int| 0 <= j < k ==> #[trigger] window[j] == after[step + 1 + j],
            decreases 10 - k,
        {
            window[k] = window[k + 1] ^ multiple[k + 1];
            k += 1;
        }
        if step != 33 {
            window[10] = message[step + 11];
            proof {
                lemma_divide_leaves_tail(dividend, (step + 1) as nat, step + 11);
            }
        }
        step += 1;
    }

    let mut message_ecc: [u8; 352] = [0; 352];
    let mut i: usize = 0;
    while i < 272
        invariant
            i <= 272,
            forall|j: int| 0 <= j < i ==> #[trigger] message_ecc[j] == data[j],
        decreases 272 - i,
    {
        message_ecc[i] = data[i];
        i += 1;
    }
    let ghost ecc = error_correction(pack(data@));
    assert(ecc =~= Seq::new(10, |k: int| window[k]));
    let mut w: usize = 0;
    while w < 10
        invariant
            w <= 10,
            ecc.len() == 10,
            forall|k: int| 0 <= k < 10 ==> #[trigger] window[k] == ecc[k],
            forall|j: int| 0 <= j < 272 ==> #[trigger] message_ecc[j] == data[j],
            forall|j: int| 272 <= j < 272 + 8 * w ==> #[trigger] message_ecc[j] == expand(ecc)[j - 272],
        decreases 10 - w,
    {
        write_bits(&mut message_ecc, 272 + 8 * w, window[w] as u16, 8);
        assert forall|j: int| 272 + 8 * w <= j < 272 + 8 * w + 8 implies #[trigger] message_ecc[j]
            == expand(ecc)[j - 272] by {
            let i = j - 272;
            assert(i / 8 == w && i % 8 == i - 8 * w) by {
                assert(i == 8 * w + (i - 8 * w));
            }
        }
        w += 1;
    }
    assert(message_ecc@ =~= encoded(data@));
    message_ecc
}

} // verus!
