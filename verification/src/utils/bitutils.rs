use vstd::prelude::*;
use vstd::arithmetic::power2::pow2;
use vstd::bits::lemma_u64_shr_is_div;

verus! {

/// The value of bit `n` of `value`, counting from the least significant bit.
pub open spec fn nth_bit(value: usize, n: usize) -> bool {
    (value >> n) & 1usize == 1usize
}

/// The value of bit `n` of the byte `value`.
pub open spec fn nth_bit_u8(value: u8, n: u8) -> bool {
    (value >> n) & 1u8 == 1u8
}

proof fn lemma_bit_through_u64(value: usize, n: usize, x: u64, s: u64, b: u8, m: u8, y: u64, t: u64)
    by (bit_vector)
    requires
        x == value,
        s == n,
        n < 64,
        y == b,
        t == m,
        m < 8,
    ensures
        ((value >> n) & 1usize == 1usize) == ((x >> s) % 2u64 == 1u64),
        ((b >> m) & 1u8 == 1u8) == ((y >> t) % 2u64 == 1u64),
{
}

/// Bit `n` of a number is its binary digit of weight `2^n`: the bit is set exactly when
/// `value / 2^n` is odd (for a word and for a byte).
pub proof fn lemma_bit_is_binary_digit(value: usize, n: usize, b: u8, m: u8)
    requires
        n < 64,
        m < 8,
    ensures
        nth_bit(value, n) == ((value as nat / pow2(n as nat)) % 2 == 1),
        nth_bit_u8(b, m) == ((b as nat / pow2(m as nat)) % 2 == 1),
{
    let x = value as u64;
    let s = n as u64;
    let y = b as u64;
    let t = m as u64;
    lemma_bit_through_u64(value, n, x, s, b, m, y, t);
    lemma_u64_shr_is_div(x, s);
    lemma_u64_shr_is_div(y, t);
}

/// Returns whether bit `bit_index` of `number` is set. A bit beyond the width of `usize` is
/// clear; the shift that tests it would overflow from bit 64 on.
pub fn is_nth_bit_set(number: usize, bit_index: usize) -> (r: bool)
    requires
        bit_index < 64,
    ensures
        r == nth_bit(number, bit_index),
        r == ((number as nat / pow2(bit_index as nat)) % 2 == 1),
{
    proof {
        lemma_bit_is_binary_digit(number, bit_index, 0, 0);
    }
    if bit_index >= usize::BITS as usize {
        assert(((number >> bit_index) & 1usize) == 0usize) by (bit_vector)
            requires
                bit_index >= usize::BITS,
        ;
        return false;
    }
    let r = number & (1usize << bit_index) != 0;
    proof {
        assert((number & (1usize << bit_index) != 0usize) == (((number >> bit_index) & 1usize)
            == 1usize)) by (bit_vector)
            requires
                bit_index < usize::BITS,
        ;
    }
    r
}

/// Tests bit `n` of a byte.
pub fn test_bit(value: u8, n: u8) -> (r: bool)
    requires
        n < 8,
    ensures
        r == nth_bit_u8(value, n),
        r == ((value as nat / pow2(n as nat)) % 2 == 1),
{
    proof {
        lemma_bit_is_binary_digit(0, 0, value, n);
    }
    ((value >> n) & 1) == 1
}

/// Returns `num` with bit `n` set to `bit`, every other bit unchanged.
pub fn set_bit_to(num: u8, n: u8, bit: bool) -> (r: u8)
    requires
        n < 8,
    ensures
        nth_bit_u8(r, n) == bit,
        forall|m: u8| m < 8 && m != n ==> nth_bit_u8(r, m) == nth_bit_u8(num, m),
{
    let b: u8 = if bit { 1 } else { 0 };
    let r = (num & !(1u8 << n)) | (b << n);
    proof {
        assert(((r >> n) & 1u8 == 1u8) == (b == 1u8)) by (bit_vector)
            requires
                n < 8u8,
                b <= 1u8,
                r == (num & !(1u8 << n)) | (b << n),
        ;
        assert forall|m: u8| m < 8 && m != n implies nth_bit_u8(r, m) == nth_bit_u8(num, m) by {
            assert(((r >> m) & 1u8) == ((num >> m) & 1u8)) by (bit_vector)
                requires
                    n < 8u8,
                    m < 8u8,
                    m != n,
                    b <= 1u8,
                    r == (num & !(1u8 << n)) | (b << n),
            ;
        }
    }
    r
}

} // verus!

verus! {

/// The little-endian bytes of `x`.
pub open spec fn le32(x: u32) -> Seq<u8> {
    seq![
        (x & 0xFF) as u8,
        ((x >> 8u32) & 0xFF) as u8,
        ((x >> 16u32) & 0xFF) as u8,
        ((x >> 24u32) & 0xFF) as u8,
    ]
}

/// The little-endian bytes of `x`.
pub open spec fn le64(x: u64) -> Seq<u8> {
    le32((x & 0xFFFF_FFFF) as u32) + le32((x >> 32u64) as u32)
}

proof fn lemma_word_digits(x: u32)
    by (bit_vector)
    ensures
        x & 0xFFu32 == x % 0x100u32,
        (x >> 8u32) & 0xFFu32 == (x / 0x100u32) % 0x100u32,
        (x >> 16u32) & 0xFFu32 == (x / 0x10000u32) % 0x100u32,
        (x >> 24u32) & 0xFFu32 == (x / 0x1000000u32) % 0x100u32,
{
}

proof fn lemma_double_word_digits(y: u64)
    by (bit_vector)
    ensures
        (((y & 0xFFFF_FFFFu64) as u32) & 0xFFu32) as u64 == (y / 0x1u64) % 0x100u64,
        ((((y & 0xFFFF_FFFFu64) as u32) >> 8u32) & 0xFFu32) as u64 == (y / 0x100u64) % 0x100u64,
        ((((y & 0xFFFF_FFFFu64) as u32) >> 16u32) & 0xFFu32) as u64 == (y / 0x10000u64) % 0x100u64,
        ((((y & 0xFFFF_FFFFu64) as u32) >> 24u32) & 0xFFu32) as u64 == (y / 0x1000000u64) % 0x100u64,
        (((y >> 32u64) as u32) & 0xFFu32) as u64 == (y / 0x1_0000_0000u64) % 0x100u64,
        ((((y >> 32u64) as u32) >> 8u32) & 0xFFu32) as u64 == (y / 0x100_0000_0000u64) % 0x100u64,
        ((((y >> 32u64) as u32) >> 16u32) & 0xFFu32) as u64 == (y / 0x1_0000_0000_0000u64) % 0x100u64,
        ((((y >> 32u64) as u32) >> 24u32) & 0xFFu32) as u64 == (y / 0x100_0000_0000_0000u64) % 0x100u64,
{
}

/// The little-endian bytes of a number are its base-256 digits, lowest first: byte `k`
/// of `le32(x)` is `x / 256^k % 256`, and likewise for the eight bytes of `le64(y)`.
pub proof fn lemma_le_bytes_are_digits(x: u32, y: u64)
    ensures
        le32(x).len() == 4,
        le32(x)[0] == x % 0x100,
        le32(x)[1] == (x / 0x100) % 0x100,
        le32(x)[2] == (x / 0x10000) % 0x100,
        le32(x)[3] == (x / 0x1000000) % 0x100,
        le64(y).len() == 8,
        le64(y)[0] == y % 0x100,
        le64(y)[1] == (y / 0x100) % 0x100,
        le64(y)[2] == (y / 0x10000) % 0x100,
        le64(y)[3] == (y / 0x1000000) % 0x100,
        le64(y)[4] == (y / 0x1_0000_0000) % 0x100,
        le64(y)[5] == (y / 0x100_0000_0000) % 0x100,
        le64(y)[6] == (y / 0x1_0000_0000_0000) % 0x100,
        le64(y)[7] == (y / 0x100_0000_0000_0000) % 0x100,
{
    lemma_word_digits(x);
    lemma_double_word_digits(y);
    let lo = le32((y & 0xFFFF_FFFF) as u32);
    let hi = le32((y >> 32u64) as u32);
    assert(le64(y) == lo + hi);
    assert(le64(y)[4] == hi[0] && le64(y)[5] == hi[1] && le64(y)[6] == hi[2] && le64(y)[7] == hi[3]);
}

/// Appends the little-endian bytes of `x`.
pub fn push_le32(v: &mut Vec<u8>, x: u32)
    ensures
        final(v)@ == old(v)@ + le32(x),
{
    v.push((x & 0xFF) as u8);
    v.push(((x >> 8) & 0xFF) as u8);
    v.push(((x >> 16) & 0xFF) as u8);
    v.push(((x >> 24) & 0xFF) as u8);
    assert(v@ =~= old(v)@ + le32(x));
}

/// Appends the little-endian bytes of `x`.
pub fn push_le64(v: &mut Vec<u8>, x: u64)
    ensures
        final(v)@ == old(v)@ + le64(x),
{
    push_le32(v, (x & 0xFFFF_FFFF) as u32);
    push_le32(v, (x >> 32) as u32);
    assert(v@ =~= old(v)@ + le64(x));
}

} // verus!
