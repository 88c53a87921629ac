//! Merging the bit sequences of the two axes into one.

use vstd::prelude::*;
use crate::bits::{bit_at, bits_of, byte_len, bytes_for, get_bit, set_bit, zero_padded, zeroed};
use crate::error::EncodeError;

verus! {

/// The two sequences merged bit by bit: place `2k` holds longitude bit `k`,
/// place `2k + 1` holds latitude bit `k`.
pub open spec fn merged_bits(lat: Seq<bool>, lng: Seq<bool>) -> Seq<bool>
    recommends
        lat.len() == lng.len(),
{
    Seq::new(
        2 * lat.len(),
        |m: int|
            if m % 2 == 0 {
                lng[m / 2]
            } else {
                lat[m / 2]
            },
    )
}

/// Interleaves the first `bits` bits of two packed sequences, the longitude
/// bit of each pair first. Both buffers must hold exactly `ceil(bits / 8)`
/// bytes. The result has twice as many bytes as one input; the `2 * bits`
/// merged bits stand at its start and every bit after them is zero.
pub fn interleave(lat: &[u8], lng: &[u8], bits: usize) -> (r: Result<Vec<u8>, EncodeError>)
    ensures
        (lat@.len() != bytes_for(bits as nat) || lng@.len() != bytes_for(bits as nat)) ==> r
            == Err::<Vec<u8>, EncodeError>(EncodeError::LengthMismatch),
        (lat@.len() == bytes_for(bits as nat) && lng@.len() == bytes_for(bits as nat)) ==> r is Ok
            && r->Ok_0@.len() == 2 * bytes_for(bits as nat) && bits_of(r->Ok_0@) == zero_padded(
            merged_bits(bits_of(lat@).take(bits as int), bits_of(lng@).take(bits as int)),
            16 * bytes_for(bits as nat),
        ),
{
    let len: usize = byte_len(bits);
    if lat.len() != len || lng.len() != len {
        return Err(EncodeError::LengthMismatch);
    }
    let mut buf: Vec<u8> = zeroed(2 * len);
    let ghost merged = merged_bits(bits_of(lat@).take(bits as int), bits_of(lng@).take(bits as int));
    for n in 0..bits
        invariant
            len == bytes_for(bits as nat),
            lat@.len() == len,
            lng@.len() == len,
            buf@.len() == 2 * len,
            merged == merged_bits(bits_of(lat@).take(bits as int), bits_of(lng@).take(bits as int)),
            forall|m: int| 0 <= m < 2 * n ==> bit_at(buf@, m) == merged[m],
            forall|m: int| 2 * n <= m < 16 * len ==> !bit_at(buf@, m),
    {
        let i: usize = n / 8;
        let p: u8 = (n % 8) as u8;
        let j: usize = n / 4;
        let q: u8 = (2 * (n % 4)) as u8;
        let lat_bit = get_bit(lat, i, p);
        let lng_bit = get_bit(lng, i, p);
        if lng_bit {
            set_bit(&mut buf, j, q);
        }
        if lat_bit {
            set_bit(&mut buf, j, q + 1);
        }
        proof {
            assert(8 * j + q == 2 * n);
            assert(8 * i + p == n);
            assert(merged[2 * n] == bit_at(lng@, n as int));
            assert(merged[2 * n + 1] == bit_at(lat@, n as int));
        }
    }
    proof {
        assert(bits_of(buf@) =~= zero_padded(merged, 16 * bytes_for(bits as nat)));
    }
    Ok(buf)
}

} // verus!
