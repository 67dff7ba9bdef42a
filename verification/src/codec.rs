//! Numbers as byte strings.

use vstd::prelude::*;

verus! {

/// The eight bytes of a number, the highest first.
pub open spec fn be_bytes(x: u64) -> Seq<u8> {
    seq![
        (x >> 56) as u8,
        (x >> 48) as u8,
        (x >> 40) as u8,
        (x >> 32) as u8,
        (x >> 24) as u8,
        (x >> 16) as u8,
        (x >> 8) as u8,
        x as u8,
    ]
}

/// The number that eight bytes stand for, the highest first.
pub open spec fn be_value(bytes: Seq<u8>) -> u64 {
    ((bytes[0] as u64) << 56) | ((bytes[1] as u64) << 48) | ((bytes[2] as u64) << 40) | ((bytes[3] as u64) << 32) | ((
    bytes[4] as u64) << 24) | ((bytes[5] as u64) << 16) | ((bytes[6] as u64) << 8) | (bytes[7] as u64)
}

/// Writing a number as bytes and reading it back gives the number.
pub proof fn law_be_value_of_be_bytes(x: u64)
    ensures
        be_bytes(x).len() == 8,
        be_value(be_bytes(x)) == x,
{
    assert((((x >> 56) as u8 as u64) << 56) | (((x >> 48) as u8 as u64) << 48) | (((x >> 40) as u8 as u64) << 40) | (((
    x >> 32) as u8 as u64) << 32) | (((x >> 24) as u8 as u64) << 24) | (((x >> 16) as u8 as u64) << 16) | (((x
        >> 8) as u8 as u64) << 8) | (x as u8 as u64) == x) by (bit_vector);
}

/// Reading a number from eight bytes and writing it gives the bytes.
pub proof fn law_be_bytes_of_be_value(bytes: Seq<u8>)
    requires
        bytes.len() == 8,
    ensures
        be_bytes(be_value(bytes)) == bytes,
{
    let (a, b, c, d) = (bytes[0], bytes[1], bytes[2], bytes[3]);
    let (e, f, g, h) = (bytes[4], bytes[5], bytes[6], bytes[7]);
    let x = be_value(bytes);
    assert((x >> 56) as u8 == a && (x >> 48) as u8 == b && (x >> 40) as u8 == c && (x >> 32) as u8 == d && (x
        >> 24) as u8 == e && (x >> 16) as u8 == f && (x >> 8) as u8 == g && x as u8 == h) by (bit_vector)
        requires
            x == ((a as u64) << 56) | ((b as u64) << 48) | ((c as u64) << 40) | ((d as u64) << 32) | ((e as u64) << 24)
                | ((f as u64) << 16) | ((g as u64) << 8) | (h as u64),
    ;
    assert(be_bytes(x) =~= bytes);
}

/// Write a number as eight bytes, the highest first.
pub fn to_be_bytes(x: u64) -> (bytes: Vec<u8>)
    ensures
        bytes@ == be_bytes(x),
{
    let mut bytes: Vec<u8> = Vec::with_capacity(8);
    bytes.push((x >> 56) as u8);
    bytes.push((x >> 48) as u8);
    bytes.push((x >> 40) as u8);
    bytes.push((x >> 32) as u8);
    bytes.push((x >> 24) as u8);
    bytes.push((x >> 16) as u8);
    bytes.push((x >> 8) as u8);
    bytes.push(x as u8);
    assert(bytes@ =~= be_bytes(x));
    bytes
}

/// Read a number from bytes, the highest first. There have to be eight.
pub fn from_be_bytes(bytes: &[u8]) -> (x: Option<u64>)
    ensures
        match x {
            Some(x) => bytes@.len() == 8 && x == be_value(bytes@),
            None => bytes@.len() != 8,
        },
{
    if bytes.len() != 8 {
        return None;
    }
    Some(
        ((bytes[0] as u64) << 56) | ((bytes[1] as u64) << 48) | ((bytes[2] as u64) << 40) | ((bytes[3] as u64) << 32) | ((
        bytes[4] as u64) << 24) | ((bytes[5] as u64) << 16) | ((bytes[6] as u64) << 8) | (bytes[7] as u64),
    )
}

/// The eight bytes of a number, the lowest first.
pub open spec fn le_bytes_u64(x: u64) -> Seq<u8> {
    be_bytes(x).reverse()
}

/// The four bytes of a number, the lowest first.
pub open spec fn le_bytes_u32(x: u32) -> Seq<u8> {
    seq![x as u8, (x >> 8) as u8, (x >> 16) as u8, (x >> 24) as u8]
}

/// A number is determined by its eight bytes.
pub proof fn lemma_le_bytes_u64_determine(x: u64, y: u64)
    requires
        le_bytes_u64(x) == le_bytes_u64(y),
    ensures
        x == y,
{
    assert(be_bytes(x) =~= le_bytes_u64(x).reverse());
    assert(be_bytes(y) =~= le_bytes_u64(y).reverse());
    law_be_value_of_be_bytes(x);
    law_be_value_of_be_bytes(y);
}

/// A number is determined by its four bytes.
pub proof fn lemma_le_bytes_u32_determine(x: u32, y: u32)
    requires
        le_bytes_u32(x) == le_bytes_u32(y),
    ensures
        x == y,
{
    assert(le_bytes_u32(x)[0] == x as u8 && le_bytes_u32(x)[1] == (x >> 8) as u8);
    assert(le_bytes_u32(x)[2] == (x >> 16) as u8 && le_bytes_u32(x)[3] == (x >> 24) as u8);
    assert(le_bytes_u32(y)[0] == y as u8 && le_bytes_u32(y)[1] == (y >> 8) as u8);
    assert(le_bytes_u32(y)[2] == (y >> 16) as u8 && le_bytes_u32(y)[3] == (y >> 24) as u8);
    assert(x == y) by (bit_vector)
        requires
            x as u8 == y as u8,
            (x >> 8) as u8 == (y >> 8) as u8,
            (x >> 16) as u8 == (y >> 16) as u8,
            (x >> 24) as u8 == (y >> 24) as u8,
    ;
}

/// The `i`-th bit of a number, from the lowest.
pub open spec fn bit(x: u64, i: u64) -> bool {
    (x >> i) & 1 == 1
}

/// The lowest `n` bits of a number, read from the lowest to the highest and written
/// from the highest to the lowest.
pub open spec fn reversed_low_bits(x: u64, n: nat) -> u64
    decreases n,
{
    if n == 0 {
        0
    } else {
        (reversed_low_bits(x, (n - 1) as nat) << 1) | ((x >> ((n - 1) as u64)) & 1)
    }
}

/// A number with its bits in reverse order.
pub open spec fn reversed_bits(x: u64) -> u64 {
    reversed_low_bits(x, 64)
}

/// Reverse the bits of a number.
pub fn reverse_bits(x: u64) -> (reversed: u64)
    ensures
        reversed == reversed_bits(x),
{
    let mut reversed: u64 = 0;
    let mut n: u64 = 0;
    while n < 64
        invariant
            n <= 64,
            reversed == reversed_low_bits(x, n as nat),
        decreases 64 - n,
    {
        reversed = (reversed << 1) | ((x >> n) & 1);
        n = n + 1;
    }
    reversed
}

proof fn lemma_reversed_low_bits(x: u64, n: nat, i: u64)
    requires
        i < n <= 64,
    ensures
        bit(reversed_low_bits(x, n), (n - 1 - i) as u64) == bit(x, i),
    decreases n,
{
    let before = reversed_low_bits(x, (n - 1) as nat);
    let top = (n - 1) as u64;
    let b = (x >> top) & 1;
    let after = (before << 1) | b;
    assert(b == 0 || b == 1) by (bit_vector)
        requires
            b == (x >> top) & 1,
    ;
    if i == n - 1 {
        assert((after >> 0) & 1 == b) by (bit_vector)
            requires
                after == (before << 1) | b,
                b == 0 || b == 1,
        ;
    } else {
        lemma_reversed_low_bits(x, (n - 1) as nat, i);
        let k = (n - 2 - i) as u64;
        let k1 = (n - 1 - i) as u64;
        assert((after >> k1) & 1 == (before >> k) & 1) by (bit_vector)
            requires
                after == (before << 1) | b,
                b == 0 || b == 1,
                k < 63,
                k1 == k + 1,
        ;
    }
}

/// Numbers with the same bits are the same.
proof fn lemma_same_bits(x: u64, y: u64, n: u64)
    requires
        n <= 64,
        n < 64 ==> x >> n == 0 && y >> n == 0,
        forall|i: u64| i < n ==> #[trigger] bit(x, i) == bit(y, i),
    ensures
        x == y,
    decreases n,
{
    if n == 0 {
        assert(x == 0 && y == 0) by (bit_vector)
            requires
                x >> 0 == 0,
                y >> 0 == 0,
        ;
    } else {
        let n1 = (n - 1) as u64;
        let x1 = x >> 1;
        let y1 = y >> 1;
        assert forall|i: u64| i < n1 implies #[trigger] bit(x1, i) == bit(y1, i) by {
            let i1 = (i + 1) as u64;
            assert(bit(x, i1) == bit(y, i1));
            assert((x1 >> i) & 1 == (x >> i1) & 1 && (y1 >> i) & 1 == (y >> i1) & 1) by (bit_vector)
                requires
                    x1 == x >> 1,
                    y1 == y >> 1,
                    i < 63,
                    i1 == i + 1,
            ;
        }
        assert(x1 >> n1 == 0 && y1 >> n1 == 0) by (bit_vector)
            requires
                x1 == x >> 1,
                y1 == y >> 1,
                n1 + 1 == n,
                n <= 64,
                n < 64 ==> x >> n == 0 && y >> n == 0,
        ;
        lemma_same_bits(x1, y1, n1);
        assert(bit(x, 0) == bit(y, 0));
        assert(x == y) by (bit_vector)
            requires
                x >> 1 == y >> 1,
                ((x >> 0) & 1 == 1) == ((y >> 0) & 1 == 1),
        ;
    }
}

/// The bits of the reversed number are those of the number, from the other end.
pub proof fn law_reversed_bits(x: u64, i: u64)
    requires
        i < 64,
    ensures
        bit(reversed_bits(x), (63 - i) as u64) == bit(x, i),
{
    lemma_reversed_low_bits(x, 64, i);
}

/// Reversing twice gives the number back.
pub proof fn law_reversing_twice(x: u64)
    ensures
        reversed_bits(reversed_bits(x)) == x,
{
    let once = reversed_bits(x);
    let twice = reversed_bits(once);
    assert forall|i: u64| i < 64 implies #[trigger] bit(twice, i) == bit(x, i) by {
        let j = (63 - i) as u64;
        law_reversed_bits(once, j);
        law_reversed_bits(x, i);
    }
    lemma_same_bits(twice, x, 64);
}

/// A number whose lowest 56 bits are clear has its other bits, reversed, in its
/// lowest eight.
pub proof fn lemma_high_byte_reverses_low(x: u64)
    requires
        x << 8 == 0,
    ensures
        reversed_bits(x) < 256,
{
    let r = reversed_bits(x);
    let high = r >> 8;
    assert forall|i: u64| i < 64 implies #[trigger] bit(high, i) == bit(0, i) by {
        assert((0u64 >> i) & 1 == 0) by (bit_vector);
        if i < 56 {
            let j = (i + 8) as u64;
            let k = (63 - j) as u64;
            law_reversed_bits(x, k);
            assert((high >> i) & 1 == (r >> j) & 1) by (bit_vector)
                requires
                    high == r >> 8,
                    i < 56,
                    j == i + 8,
            ;
            assert((x >> k) & 1 == 0) by (bit_vector)
                requires
                    x << 8 == 0,
                    k < 56,
            ;
        } else {
            assert((high >> i) & 1 == 0) by (bit_vector)
                requires
                    high == r >> 8,
                    56 <= i < 64,
            ;
        }
    }
    lemma_same_bits(high, 0, 64);
    assert(r < 256) by (bit_vector)
        requires
            r >> 8 == 0,
    ;
}

/// The bytes of a number are its digits to the base 256: the first is the highest.
pub proof fn law_be_bytes_are_digits(x: u64)
    ensures
        be_bytes(x).len() == 8,
        be_bytes(x)[0] == x / 0x100_0000_0000_0000,
        be_bytes(x)[1] == x / 0x1_0000_0000_0000 % 256,
        be_bytes(x)[2] == x / 0x100_0000_0000 % 256,
        be_bytes(x)[3] == x / 0x1_0000_0000 % 256,
        be_bytes(x)[4] == x / 0x100_0000 % 256,
        be_bytes(x)[5] == x / 0x1_0000 % 256,
        be_bytes(x)[6] == x / 0x100 % 256,
        be_bytes(x)[7] == x % 256,
{
    assert((x >> 56) as u8 == x / 0x100_0000_0000_0000 && (x >> 48) as u8 == x / 0x1_0000_0000_0000 % 256 && (x
        >> 40) as u8 == x / 0x100_0000_0000 % 256 && (x >> 32) as u8 == x / 0x1_0000_0000 % 256 && (x >> 24) as u8
        == x / 0x100_0000 % 256 && (x >> 16) as u8 == x / 0x1_0000 % 256 && (x >> 8) as u8 == x / 0x100 % 256
        && x as u8 == x % 256) by (bit_vector);
}

/// Eight bytes stand for the number of which they are the digits to the base 256, the
/// first the highest.
pub proof fn law_be_value_is_the_number(bytes: Seq<u8>)
    requires
        bytes.len() == 8,
    ensures
        be_value(bytes) == bytes[0] * 0x100_0000_0000_0000 + bytes[1] * 0x1_0000_0000_0000 + bytes[2]
            * 0x100_0000_0000 + bytes[3] * 0x1_0000_0000 + bytes[4] * 0x100_0000 + bytes[5] * 0x1_0000 + bytes[6]
            * 0x100 + bytes[7],
{
    let (a, b, c, d) = (bytes[0], bytes[1], bytes[2], bytes[3]);
    let (e, f, g, h) = (bytes[4], bytes[5], bytes[6], bytes[7]);
    let x = be_value(bytes);
    assert(x == a * 0x100_0000_0000_0000 + b * 0x1_0000_0000_0000 + c * 0x100_0000_0000 + d * 0x1_0000_0000 + e
        * 0x100_0000 + f * 0x1_0000 + g * 0x100 + h) by (bit_vector)
        requires
            x == ((a as u64) << 56) | ((b as u64) << 48) | ((c as u64) << 40) | ((d as u64) << 32) | ((e as u64) << 24)
                | ((f as u64) << 16) | ((g as u64) << 8) | (h as u64),
    ;
}

/// The bytes of a number, the lowest first, are its digits to the base 256.
pub proof fn law_le_bytes_are_digits(x: u64, y: u32)
    ensures
        le_bytes_u64(x).len() == 8,
        le_bytes_u64(x)[0] == x % 256,
        le_bytes_u64(x)[1] == x / 0x100 % 256,
        le_bytes_u64(x)[2] == x / 0x1_0000 % 256,
        le_bytes_u64(x)[3] == x / 0x100_0000 % 256,
        le_bytes_u64(x)[4] == x / 0x1_0000_0000 % 256,
        le_bytes_u64(x)[5] == x / 0x100_0000_0000 % 256,
        le_bytes_u64(x)[6] == x / 0x1_0000_0000_0000 % 256,
        le_bytes_u64(x)[7] == x / 0x100_0000_0000_0000,
        le_bytes_u32(y).len() == 4,
        le_bytes_u32(y)[0] == y % 256,
        le_bytes_u32(y)[1] == y / 0x100 % 256,
        le_bytes_u32(y)[2] == y / 0x1_0000 % 256,
        le_bytes_u32(y)[3] == y / 0x100_0000,
{
    law_be_bytes_are_digits(x);
    assert(y as u8 == y % 256 && (y >> 8) as u8 == y / 0x100 % 256 && (y >> 16) as u8 == y / 0x1_0000 % 256 && (y
        >> 24) as u8 == y / 0x100_0000) by (bit_vector);
}

/// The `i`-th bit of a number is its `i`-th digit to the base 2.
pub proof fn law_bits_are_digits(x: u64, i: u64)
    requires
        i < 64,
    ensures
        bit(x, i) <==> (x as nat / vstd::arithmetic::power2::pow2(i as nat)) % 2 == 1,
{
    vstd::bits::lemma_u64_shr_is_div(x, i);
    let y = x >> i;
    assert(y & 1 == y % 2) by (bit_vector);
}

} // verus!
