//! The secret as a number in base 45.
//!
//! The bytes of the secret are the digits, most significant first, of a number
//! in base 256. The same number is written in base 45, whose digits are the
//! values of the characters of the alphanumeric mode, with leading zeros up to
//! two digits for every eleven bits of input.

use vstd::prelude::*;
use vstd::arithmetic::div_mod::{
    lemma_basic_div, lemma_div_denominator, lemma_fundamental_div_mod,
    lemma_fundamental_div_mod_converse,
};

verus! {

/// The base whose digits the alphanumeric mode can hold.
pub const ALPHANUMERIC_BASE: u8 = 45;

/// `b` to the power of `e`.
pub open spec fn power(b: nat, e: nat) -> nat
    decreases e,
{
    if e == 0 {
        1
    } else {
        b * power(b, (e - 1) as nat)
    }
}

/// The number whose digits in base `base`, most significant first, are `digits`.
pub open spec fn number(digits: Seq<u8>, base: nat) -> nat
    decreases digits.len(),
{
    if digits.len() == 0 {
        0
    } else {
        number(digits.drop_last(), base) * base + digits.last() as nat
    }
}

/// The last `len` digits of `v` in base `base`, most significant first.
pub open spec fn numeral(v: nat, base: nat, len: nat) -> Seq<u8>
    decreases len,
{
    if len == 0 {
        Seq::empty()
    } else {
        numeral(v / base, base, (len - 1) as nat).push((v % base) as u8)
    }
}

/// The number of digits of `v` in base `base`, which is none for zero.
pub open spec fn digits_needed(v: nat, base: nat) -> nat
    decreases v,
    via digits_needed_decreases
{
    if v == 0 || base < 2 {
        0
    } else {
        1 + digits_needed(v / base, base)
    }
}

/// The quotient by a base of at least two is below a number that is not zero.
#[via_fn]
proof fn digits_needed_decreases(v: nat, base: nat) {
    if v != 0 && base >= 2 {
        lemma_fundamental_div_mod(v as int, base as int);
        let q = v / base;
        assert(q < v) by (nonlinear_arith)
            requires
                v == base * q + v % base,
                0 <= v % base,
                base >= 2,
                v > 0,
                q >= 0,
        ;
    }
}

/// The number of digits that `n` bytes are given: two for every eleven bits,
/// rounded up.
pub open spec fn expected_len(n: nat) -> nat {
    (n * 8 * 2 + 10) / 11
}

/// The number of digits of the encoding of `bytes`: as many as are expected
/// for their count, or as many as their number needs if that is more.
pub open spec fn encoded_len(bytes: Seq<u8>, base: nat) -> nat {
    let needed = digits_needed(number(bytes, 256), base);
    if needed > expected_len(bytes.len()) {
        needed
    } else {
        expected_len(bytes.len())
    }
}

/// The digits in base `base` of the number that `bytes` spell in base 256.
pub open spec fn encoding(bytes: Seq<u8>, base: nat) -> Seq<u8> {
    numeral(number(bytes, 256), base, encoded_len(bytes, base))
}

/// Whether `digits` has no leading zero.
pub open spec fn canonical(digits: Seq<u8>) -> bool {
    digits.len() > 0 ==> digits[0] != 0
}

/// A numeral of `len` digits has `len` digits, each below the base.
pub proof fn lemma_numeral_digits(v: nat, base: nat, len: nat)
    requires
        1 <= base <= 256,
    ensures
        numeral(v, base, len).len() == len,
        forall|i: int| 0 <= i < len ==> #[trigger] numeral(v, base, len)[i] < base,
    decreases len,
{
    if len > 0 {
        lemma_numeral_digits(v / base, base, (len - 1) as nat);
    }
}

/// A number with a digit appended.
pub proof fn lemma_number_push(digits: Seq<u8>, d: u8, base: nat)
    ensures
        number(digits.push(d), base) == number(digits, base) * base + d as nat,
{
    assert(digits.push(d).drop_last() =~= digits);
}

/// A number without leading zeros is zero only if it has no digit.
pub proof fn lemma_canonical_zero(digits: Seq<u8>, base: nat)
    requires
        canonical(digits),
        base >= 1,
    ensures
        number(digits, base) == 0 <==> digits.len() == 0,
    decreases digits.len(),
{
    if digits.len() > 1 {
        lemma_canonical_zero(digits.drop_last(), base);
        let high = number(digits.drop_last(), base);
        assert(high * base >= 1) by (nonlinear_arith)
            requires
                high >= 1,
                base >= 1,
        ;
    } else if digits.len() == 1 {
        assert(digits.drop_last().len() == 0);
        assert(number(digits.drop_last(), base) == 0);
    }
}

/// One step of long division: the quotient and the remainder of a number with
/// a byte appended, from those of the number.
pub proof fn lemma_long_division_step(v: nat, byte: nat, base: nat)
    requires
        base >= 1,
        byte < 256,
    ensures
        (v * 256 + byte) / base == (v / base) * 256 + ((v % base) * 256 + byte) / base,
        (v * 256 + byte) % base == ((v % base) * 256 + byte) % base,
        ((v % base) * 256 + byte) / base < 256,
{
    let q = v / base;
    let t = v % base;
    let x = t * 256 + byte;
    let q2 = x / base;
    let r2 = x % base;
    lemma_fundamental_div_mod(v as int, base as int);
    lemma_fundamental_div_mod(x as int, base as int);
    assert(v * 256 + byte == (q * 256 + q2) * base + r2) by (nonlinear_arith)
        requires
            v == base * q + t,
            x == base * q2 + r2,
            x == t * 256 + byte,
    ;
    lemma_fundamental_div_mod_converse(
        (v * 256 + byte) as int,
        base as int,
        (q * 256 + q2) as int,
        r2 as int,
    );
    assert(q2 < 256) by (nonlinear_arith)
        requires
            x == base * q2 + r2,
            x < base * 256,
            base >= 1,
            0 <= r2,
    ;
}

/// Digit `len` of a number stands before its last `len` digits.
pub proof fn lemma_numeral_grows(v: nat, base: nat, len: nat)
    requires
        1 <= base <= 256,
    ensures
        power(base, len) >= 1,
        numeral(v, base, len + 1) == seq![((v / power(base, len)) % base) as u8] + numeral(
            v,
            base,
            len,
        ),
    decreases len,
{
    if len == 0 {
        reveal_with_fuel(numeral, 2);
        assert(numeral(v, base, 1) =~= seq![(v % base) as u8]);
        assert(numeral(v, base, 1) =~= seq![((v / 1) % base) as u8] + numeral(v, base, 0));
    } else {
        let high = (len - 1) as nat;
        lemma_numeral_grows(v / base, base, high);
        lemma_div_denominator(v as int, base as int, power(base, high) as int);
        assert(power(base, len) == base * power(base, high));
        assert(power(base, len) >= 1) by (nonlinear_arith)
            requires
                power(base, len) == base * power(base, high),
                base >= 1,
                power(base, high) >= 1,
        ;
        assert(numeral(v, base, len + 1) =~= seq![((v / power(base, len)) % base) as u8] + numeral(
            v,
            base,
            len,
        ));
    }
}

/// A number is below the power of the base that its count of digits names,
/// and below every higher power.
pub proof fn lemma_below_power(v: nat, base: nat, len: nat)
    requires
        2 <= base <= 256,
        len >= digits_needed(v, base),
    ensures
        v < power(base, len),
    decreases len,
{
    if v == 0 {
        lemma_numeral_grows(0, base, len);
    } else {
        lemma_below_power(v / base, base, (len - 1) as nat);
        lemma_fundamental_div_mod(v as int, base as int);
        let q = v / base;
        let p = power(base, (len - 1) as nat);
        assert(v < base * p) by (nonlinear_arith)
            requires
                v == base * q + v % base,
                v % base < base,
                q + 1 <= p,
                base >= 2,
        ;
    }
}

/// A number below a power of the base needs no more digits than the exponent.
pub proof fn lemma_digits_needed(v: nat, base: nat, len: nat)
    requires
        base >= 2,
        v < power(base, len),
    ensures
        digits_needed(v, base) <= len,
    decreases len,
{
    if v != 0 {
        if len == 0 {
        } else {
            let p = power(base, (len - 1) as nat);
            lemma_fundamental_div_mod(v as int, base as int);
            let q = v / base;
            assert(q < p) by (nonlinear_arith)
                requires
                    v == base * q + v % base,
                    0 <= v % base,
                    v < base * p,
                    base >= 2,
            ;
            lemma_digits_needed(q, base, (len - 1) as nat);
        }
    }
}

/// The digits of a number that fits spell that number.
pub proof fn lemma_number_of_numeral(v: nat, base: nat, len: nat)
    requires
        2 <= base <= 256,
        v < power(base, len),
    ensures
        number(numeral(v, base, len), base) == v,
    decreases len,
{
    if len > 0 {
        let p = power(base, (len - 1) as nat);
        lemma_fundamental_div_mod(v as int, base as int);
        let q = v / base;
        assert(q < p) by (nonlinear_arith)
            requires
                v == base * q + v % base,
                0 <= v % base,
                v < base * p,
                base >= 2,
        ;
        lemma_number_of_numeral(q, base, (len - 1) as nat);
        lemma_number_push(numeral(q, base, (len - 1) as nat), (v % base) as u8, base);
        assert(q * base == base * q) by (nonlinear_arith);
    }
}

/// The bytes of a number, as many as spelt it, are the bytes that spelt it.
pub proof fn lemma_numeral_of_number(bytes: Seq<u8>)
    ensures
        numeral(number(bytes, 256), 256, bytes.len()) == bytes,
    decreases bytes.len(),
{
    if bytes.len() > 0 {
        lemma_numeral_of_number(bytes.drop_last());
        assert(numeral(number(bytes, 256), 256, bytes.len()) =~= bytes);
    }
}

/// The encoding has the expected number of digits, two for every eleven bits
/// rounded up, exactly when the number of the bytes is below 45 to that power.
pub proof fn lemma_encoding_len(bytes: Seq<u8>)
    ensures
        encoding(bytes, 45).len() == encoded_len(bytes, 45),
        number(bytes, 256) < power(45, expected_len(bytes.len())) <==> encoding(bytes, 45).len()
            == expected_len(bytes.len()),
{
    let v = number(bytes, 256);
    let expected = expected_len(bytes.len());
    lemma_numeral_digits(v, 45, encoded_len(bytes, 45));
    if v < power(45, expected) {
        lemma_digits_needed(v, 45, expected);
    }
    if digits_needed(v, 45) <= expected {
        lemma_below_power(v, 45, expected);
    }
}

/// The number that the digits of the encoding spell in base 45, written in as
/// many bytes as the input has, is the input.
pub proof fn lemma_round_trip(bytes: Seq<u8>)
    ensures
        number(encoding(bytes, 45), 45) == number(bytes, 256),
        numeral(number(encoding(bytes, 45), 45), 256, bytes.len()) == bytes,
{
    let v = number(bytes, 256);
    lemma_below_power(v, 45, encoded_len(bytes, 45));
    lemma_number_of_numeral(v, 45, encoded_len(bytes, 45));
    lemma_numeral_of_number(bytes);
}

/// Every digit of the number zero is zero.
pub proof fn lemma_numeral_of_zero(base: nat, len: nat)
    requires
        1 <= base <= 256,
    ensures
        numeral(0, base, len) == Seq::new(len, |i: int| 0u8),
    decreases len,
{
    if len > 0 {
        lemma_numeral_of_zero(base, (len - 1) as nat);
        assert(0nat / base == 0 && 0nat % base == 0) by (nonlinear_arith)
            requires
                base >= 1,
        ;
    }
    assert(numeral(0, base, len) =~= Seq::new(len, |i: int| 0u8));
}

/// Bytes that are all zero spell the number zero.
pub proof fn lemma_number_of_zeros(bytes: Seq<u8>, base: nat)
    requires
        forall|i: int| 0 <= i < bytes.len() ==> #[trigger] bytes[i] == 0,
    ensures
        number(bytes, base) == 0,
    decreases bytes.len(),
{
    if bytes.len() > 0 {
        lemma_number_of_zeros(bytes.drop_last(), base);
        assert(0 * base == 0) by (nonlinear_arith);
    }
}

/// The encoding of bytes that are all zero is the expected number of zeros.
pub proof fn lemma_encoding_of_zeros(bytes: Seq<u8>)
    requires
        forall|i: int| 0 <= i < bytes.len() ==> #[trigger] bytes[i] == 0,
    ensures
        encoding(bytes, 45) == Seq::new(expected_len(bytes.len()), |i: int| 0u8),
{
    lemma_number_of_zeros(bytes, 256);
    lemma_numeral_of_zero(45, expected_len(bytes.len()));
}

/// Bytes spell a number below 256 to the power of their count.
pub proof fn lemma_number_below_power(bytes: Seq<u8>)
    ensures
        number(bytes, 256) < power(256, bytes.len()),
    decreases bytes.len(),
{
    if bytes.len() > 0 {
        lemma_number_below_power(bytes.drop_last());
    }
}

/// A power of a base of at least one grows with its exponent.
pub proof fn lemma_power_grows(b: nat, e1: nat, e2: nat)
    requires
        b >= 1,
        e1 <= e2,
    ensures
        1 <= power(b, e1) <= power(b, e2),
    decreases e2,
{
    if e1 < e2 {
        lemma_power_grows(b, e1, (e2 - 1) as nat);
        let p = power(b, (e2 - 1) as nat);
        assert(p <= b * p) by (nonlinear_arith)
            requires
                b >= 1,
                p >= 1,
        ;
    } else if e1 > 0 {
        lemma_power_grows(b, (e1 - 1) as nat, (e1 - 1) as nat);
        let p = power(b, (e1 - 1) as nat);
        assert(1 <= b * p) by (nonlinear_arith)
            requires
                b >= 1,
                p >= 1,
        ;
    }
}

/// The powers of 256 up to the 32nd, other than the 11th and the 22nd, beside
/// the powers of 45 whose exponent is the expected number of digits.
proof fn lemma_powers()
    ensures
        power(256, 1) <= power(45, 2),
        power(256, 2) <= power(45, 3),
        power(256, 3) <= power(45, 5),
        power(256, 4) <= power(45, 6),
        power(256, 5) <= power(45, 8),
        power(256, 6) <= power(45, 9),
        power(256, 7) <= power(45, 11),
        power(256, 8) <= power(45, 12),
        power(256, 9) <= power(45, 14),
        power(256, 10) <= power(45, 15),
        power(256, 12) <= power(45, 18),
        power(256, 13) <= power(45, 19),
        power(256, 14) <= power(45, 21),
        power(256, 15) <= power(45, 22),
        power(256, 16) <= power(45, 24),
        power(256, 17) <= power(45, 25),
        power(256, 18) <= power(45, 27),
        power(256, 19) <= power(45, 28),
        power(256, 20) <= power(45, 30),
        power(256, 21) <= power(45, 31),
        power(256, 23) <= power(45, 34),
        power(256, 24) <= power(45, 35),
        power(256, 25) <= power(45, 37),
        power(256, 26) <= power(45, 38),
        power(256, 27) <= power(45, 40),
        power(256, 28) <= power(45, 41),
        power(256, 29) <= power(45, 43),
        power(256, 30) <= power(45, 44),
        power(256, 31) <= power(45, 46),
        power(256, 32) <= power(45, 47),
{
    reveal_with_fuel(power, 48);
}

/// As many digits as are expected hold every number of `n` bytes, for `n` up
/// to 32 other than 11 and 22: sixteen digits in base 45 do not hold every
/// number of eleven bytes.
pub proof fn lemma_expected_holds(n: nat)
    requires
        n <= 32,
        n % 11 != 0,
    ensures
        power(256, n) <= power(45, expected_len(n)),
{
    lemma_powers();
    assert(n == 1 || n == 2 || n == 3 || n == 4 || n == 5 || n == 6 || n == 7 || n == 8 || n == 9
        || n == 10 || n == 12 || n == 13 || n == 14 || n == 15 || n == 16 || n == 17 || n == 18
        || n == 19 || n == 20 || n == 21 || n == 23 || n == 24 || n == 25 || n == 26 || n == 27
        || n == 28 || n == 29 || n == 30 || n == 31 || n == 32);
}

/// The encoding of up to 32 bytes, other than 11 or 22, has the expected
/// number of digits, two for every eleven bits rounded up.
pub proof fn lemma_encoding_len_regular(bytes: Seq<u8>)
    requires
        bytes.len() <= 32,
        bytes.len() % 11 != 0,
    ensures
        encoding(bytes, 45).len() == expected_len(bytes.len()),
{
    lemma_number_below_power(bytes);
    lemma_expected_holds(bytes.len());
    lemma_encoding_len(bytes);
}

/// The encoding of up to 32 bytes has at most 47 digits.
pub proof fn lemma_encoding_fits(bytes: Seq<u8>)
    requires
        bytes.len() <= 32,
    ensures
        encoding(bytes, 45).len() == encoded_len(bytes, 45),
        encoded_len(bytes, 45) <= 47,
{
    lemma_number_below_power(bytes);
    lemma_power_grows(256, bytes.len(), 32);
    lemma_expected_holds(32);
    lemma_digits_needed(number(bytes, 256), 45, 47);
    lemma_encoding_len(bytes);
}

/// The number of divisions that writing `digits` in base `base` takes: one
/// for each digit of the result, and one for the number zero unless it has no
/// digit.
pub open spec fn rounds(digits: Seq<u8>, base: nat) -> nat {
    if digits.len() == 0 {
        0
    } else if digits_needed(number(digits, 256), base) == 0 {
        1
    } else {
        digits_needed(number(digits, 256), base)
    }
}

/// Divides the number that `number` spells in base 256 by `base`: the quotient,
/// without leading zeros, and the remainder.
pub fn divmod(number: Vec<u8>, base: u8) -> (result: (Vec<u8>, u8))
    requires
        base >= 1,
    ensures
        self::number(result.0@, 256) == self::number(number@, 256) / (base as nat),
        result.1 == self::number(number@, 256) % (base as nat),
        canonical(result.0@),
        result.0@.len() <= number@.len(),
{
    let mut temp: u16 = 0;
    let mut result: Vec<u8> = Vec::with_capacity(32);
    let mut i: usize = 0;
    assert(number@.take(0) =~= Seq::<u8>::empty());
    while i < number.len()
        invariant
            base >= 1,
            i <= number@.len(),
            temp < base,
            self::number(result@, 256) == self::number(number@.take(i as int), 256) / (
            base as nat),
            temp == self::number(number@.take(i as int), 256) % (base as nat),
            canonical(result@),
            result@.len() <= i,
        decreases number@.len() - i,
    {
        let byte = number[i];
        proof {
            let v = self::number(number@.take(i as int), 256);
            assert(number@.take(i + 1) =~= number@.take(i as int).push(byte));
            lemma_number_push(number@.take(i as int), byte, 256);
            lemma_long_division_step(v, byte as nat, base as nat);
        }
        assert(temp * 256 + byte <= 65535);
        temp = temp * 256 + byte as u16;
        let quotient: u16 = temp / base as u16;
        temp = temp % base as u16;
        if !(quotient == 0 && result.is_empty()) {
            proof {
                lemma_number_push(result@, quotient as u8, 256);
            }
            result.push(quotient as u8);
        } else {
            assert(self::number(result@, 256) == 0);
        }
        i += 1;
    }
    assert(number@.take(i as int) =~= number@);
    (result, temp as u8)
}

/// Writes the number that `bits` spell in base 256 in base `base`, most
/// significant digit first, with leading zeros up to two digits for every
/// eleven bits of input.
pub fn encode_bits(bits: Vec<u8>, base: u8) -> (encoded_bits: Vec<u8>)
    requires
        base >= 2,
        bits.len() * 16 <= usize::MAX,
    ensures
        encoded_bits@ == encoding(bits@, base as nat),
{
    let ghost input = bits@;
    let ghost v = number(input, 256);
    let ghost b = base as nat;
    let input_length = bits.len();
    let mut bits = bits;
    let mut encoded_bits: Vec<u8> = Vec::new();
    proof {
        lemma_numeral_grows(v, b, 0);
        assert(v / 1 == v);
    }
    while !bits.is_empty()
        invariant
            b == base as nat,
            base >= 2,
            power(b, encoded_bits@.len()) >= 1,
            number(bits@, 256) == v / power(b, encoded_bits@.len()),
            encoded_bits@ == numeral(v, b, encoded_bits@.len()),
            encoded_bits@.len() + rounds(bits@, b) == rounds(input, b),
        decreases
                (if bits@.len() == 0 {
                    0
                } else {
                    number(bits@, 256) + 1
                }),
    {
        let ghost k = encoded_bits@.len();
        let ghost current = number(bits@, 256);
        let (quotient, remainder) = divmod(bits, base);
        proof {
            lemma_numeral_grows(v, b, k);
            lemma_div_denominator(v as int, power(b, k) as int, b as int);
            assert(power(b, k + 1) == b * power(b, k));
            assert(power(b, k) * b == b * power(b, k)) by (nonlinear_arith);
            lemma_canonical_zero(quotient@, 256);
            lemma_fundamental_div_mod(current as int, b as int);
            assert(current / b < current || current == 0) by (nonlinear_arith)
                requires
                    current == b * (current / b) + current % b,
                    0 <= current % b,
                    b >= 2,
                    0 <= current / b,
            ;
            assert(encoded_bits@.insert(0, remainder) =~= seq![remainder] + encoded_bits@);
            if current / b > 0 {
                assert(digits_needed(current / b, b) >= 1);
                assert(digits_needed(current, b) == 1 + digits_needed(current / b, b));
            } else if current > 0 {
                assert(digits_needed(current / b, b) == 0);
                assert(digits_needed(current, b) == 1);
            }
        }
        encoded_bits.insert(0, remainder);
        bits = quotient;
    }

    let temp = input_length * 8 * 2;
    let expected_length = if temp % 11 == 0 {
        temp / 11
    } else {
        temp / 11 + 1
    };
    assert(expected_length == expected_len(input.len()));
    proof {
        if input_length > 0 {
            assert(expected_length >= 2);
        }
    }
    assert(rounds(bits@, b) == 0);
    assert(number(input, 256) == 0 ==> digits_needed(v, b) == 0);
    while encoded_bits.len() < expected_length
        invariant
            b == base as nat,
            base >= 2,
            encoded_bits@.len() >= digits_needed(v, b),
            encoded_bits@ == numeral(v, b, encoded_bits@.len()),
            encoded_bits@.len() <= expected_length || encoded_bits@.len() == rounds(input, b),
        decreases expected_length - encoded_bits@.len(),
    {
        proof {
            let k = encoded_bits@.len();
            lemma_numeral_grows(v, b, k);
            lemma_below_power(v, b, k);
            lemma_basic_div(v as int, power(b, k) as int);
            assert(v / power(b, k) == 0);
            assert((0nat % b) as u8 == 0u8) by (nonlinear_arith)
                requires
                    b >= 2,
            ;
            assert(encoded_bits@.insert(0, 0u8) =~= seq![0u8] + encoded_bits@);
        }
        encoded_bits.insert(0, 0);
    }
    assert(encoded_bits@.len() == encoded_len(input, b));
    encoded_bits
}

} // verus!
