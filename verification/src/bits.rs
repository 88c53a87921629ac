//! Bit sequences packed into bytes, most significant bit first.

use vstd::prelude::*;

verus! {

/// Number of bits held by one byte of a packed sequence.
pub const BITS_PER_BYTE: usize = 8;

/// Bit `p` of a byte, where position 0 is the most significant bit and
/// position 7 the least.
pub open spec fn bit_of(b: u8, p: u8) -> bool {
    b & (0x80u8 >> p) != 0
}

/// Bit `n` of a packed byte sequence read as one flat bit stream.
pub open spec fn bit_at(bytes: Seq<u8>, n: int) -> bool
    recommends
        0 <= n < 8 * bytes.len(),
{
    bit_of(bytes[n / 8], (n % 8) as u8)
}

/// The bit stream that a packed byte sequence stands for.
pub open spec fn bits_of(bytes: Seq<u8>) -> Seq<bool> {
    Seq::new(8 * bytes.len(), |n: int| bit_at(bytes, n))
}

/// Number of bytes needed to hold `bits` bits.
pub open spec fn bytes_for(bits: nat) -> nat {
    (bits + 7) / 8
}

/// `s` followed by as many `false` bits as it takes to reach `len` bits.
pub open spec fn zero_padded(s: Seq<bool>, len: nat) -> Seq<bool> {
    Seq::new(len, |n: int| n < s.len() && s[n])
}

/// Setting one bit of a byte changes that bit and no other.
pub proof fn lemma_set_bit_of(b: u8, p: u8, q: u8)
    by (bit_vector)
    requires
        p < 8,
        q < 8,
    ensures
        (((b | (0x80u8 >> p)) & (0x80u8 >> q)) != 0) == ((b & (0x80u8 >> q)) != 0 || p == q),
{
}

/// The zero byte holds no set bit.
pub proof fn lemma_zero_byte(q: u8)
    by (bit_vector)
    requires
        q < 8,
    ensures
        (0u8 & (0x80u8 >> q)) == 0,
{
}

/// Bytes needed for `bits` bits, computed without overflow.
pub fn byte_len(bits: usize) -> (len: usize)
    ensures
        len == bytes_for(bits as nat),
{
    if bits % BITS_PER_BYTE == 0 {
        bits / BITS_PER_BYTE
    } else {
        bits / BITS_PER_BYTE + 1
    }
}

/// A buffer of `len` zero bytes: every bit of it is clear.
pub fn zeroed(len: usize) -> (buf: Vec<u8>)
    ensures
        buf@.len() == len,
        forall|n: int| 0 <= n < 8 * len ==> !bit_at(buf@, n),
{
    let buf = vec![0u8; len];
    proof {
        assert forall|n: int| 0 <= n < 8 * len implies !bit_at(buf@, n) by {
            assert(buf@[n / 8] == 0u8);
            lemma_zero_byte((n % 8) as u8);
        }
    }
    buf
}

/// Reads bit `p` of byte `i`.
pub fn get_bit(bytes: &[u8], i: usize, p: u8) -> (b: bool)
    requires
        i < bytes@.len(),
        p < 8,
    ensures
        b == bit_at(bytes@, 8 * i + p),
{
    bytes[i] & (0x80u8 >> p) != 0
}

/// Sets bit `p` of byte `i` and leaves every other bit as it was.
pub fn set_bit(bytes: &mut Vec<u8>, i: usize, p: u8)
    requires
        i < old(bytes)@.len(),
        p < 8,
    ensures
        final(bytes)@.len() == old(bytes)@.len(),
        forall|n: int|
            0 <= n < 8 * old(bytes)@.len() ==> bit_at(final(bytes)@, n) == (bit_at(old(bytes)@, n)
                || n == 8 * i + p),
{
    let byte = bytes[i];
    bytes.set(i, byte | (0x80u8 >> p));
    proof {
        assert forall|n: int| 0 <= n < 8 * old(bytes)@.len() implies bit_at(bytes@, n) == (bit_at(
            old(bytes)@,
            n,
        ) || n == 8 * i + p) by {
            if n / 8 == i {
                lemma_set_bit_of(byte, p, (n % 8) as u8);
            }
        }
    }
}

} // verus!
