//! The whole pipeline: quantize both axes, interleave, write in base 32.

use vstd::prelude::*;
use crate::base32::{base32_string, base32encode};
use crate::bisect::{
    lemma_quantized_monotone, lemma_rounding_down_keeps_bits, lemma_two_to_positive,
    lemma_two_to_sum, lex_le, quantized, trace_binary_search, two_to,
};
use crate::bits::{bits_of, bytes_for, zero_padded};
use crate::double::{
    exact_of, lemma_two_to_48, lemma_units_round_down, representable, units_from_double, units_of,
};
use crate::error::EncodeError;
use crate::interleave::{interleave, merged_bits};

verus! {

/// Coordinates are fixed-point numbers: this many units make one degree.
pub const UNITS_PER_DEGREE: i64 = 0x1_0000_0000_0000;

/// The largest latitude, 90 degrees, in units; the smallest is its negative.
pub const LATITUDE_LIMIT: i64 = 90 * UNITS_PER_DEGREE;

/// The largest longitude, 180 degrees, in units; the smallest is its negative.
pub const LONGITUDE_LIMIT: i64 = 180 * UNITS_PER_DEGREE;

/// A latitude within `[-90, 90]` degrees.
pub open spec fn valid_latitude(lat: int) -> bool {
    -LATITUDE_LIMIT <= lat <= LATITUDE_LIMIT
}

/// A longitude within `[-180, 180]` degrees.
pub open spec fn valid_longitude(lng: int) -> bool {
    -LONGITUDE_LIMIT <= lng <= LONGITUDE_LIMIT
}

/// The pattern of a number within `[-90, 90]`.
pub open spec fn valid_latitude_pattern(pattern: u64) -> bool {
    representable(pattern) && valid_latitude(units_of(pattern))
}

/// The pattern of a number within `[-180, 180]`.
pub open spec fn valid_longitude_pattern(pattern: u64) -> bool {
    representable(pattern) && valid_longitude(units_of(pattern))
}

/// The bits that quantize a latitude.
pub open spec fn latitude_bits(lat: int, bits: nat) -> Seq<bool> {
    quantized(lat, -LATITUDE_LIMIT as int, LATITUDE_LIMIT as int, bits)
}

/// The bits that quantize a longitude.
pub open spec fn longitude_bits(lng: int, bits: nat) -> Seq<bool> {
    quantized(lng, -LONGITUDE_LIMIT as int, LONGITUDE_LIMIT as int, bits)
}

/// The bit stream that is written out for a coordinate: the `2 * bits`
/// interleaved bits of the two axes, followed by zero bits up to the size of
/// the merged buffer, which is twice `ceil(bits / 8)` bytes.
pub open spec fn geohash_bits(lat: int, lng: int, bits: nat) -> Seq<bool> {
    zero_padded(
        merged_bits(latitude_bits(lat, bits), longitude_bits(lng, bits)),
        16 * bytes_for(bits),
    )
}

/// The geohash of a coordinate at `bits` bits per axis.
pub open spec fn geohash(lat: int, lng: int, bits: nat) -> Seq<char> {
    base32_string(geohash_bits(lat, lng, bits))
}

/// At one precision, a smaller latitude never has the lexicographically
/// larger bit sequence.
pub proof fn lemma_latitude_monotone(lat1: int, lat2: int, bits: nat)
    requires
        valid_latitude(lat1),
        valid_latitude(lat2),
        lat1 < lat2,
    ensures
        lex_le(latitude_bits(lat1, bits), latitude_bits(lat2, bits)),
{
    lemma_quantized_monotone(lat1, lat2, -LATITUDE_LIMIT as int, LATITUDE_LIMIT as int, bits);
}

/// A whole number of degrees in units of `2^-1074` degree, in which every
/// double-precision number is whole.
pub open spec fn exact_degrees(degrees: int) -> int {
    degrees * two_to(1074)
}

/// Up to 50 bits, the bits of a latitude read from a pattern are those of
/// the number itself: halving `[-90, 90]` on the exact value, taken in units
/// of `2^-1074` degree, gives the same bits as on the value rounded down.
pub proof fn lemma_latitude_bits_are_exact(pattern: u64, bits: nat)
    requires
        valid_latitude_pattern(pattern),
        bits <= 50,
    ensures
        latitude_bits(units_of(pattern), bits) == quantized(
            exact_of(pattern),
            exact_degrees(-90),
            exact_degrees(90),
            bits,
        ),
{
    lemma_two_to_48();
    reveal_with_fuel(two_to, 3);
    assert(two_to(50) == 4 * two_to(48));
    lemma_bits_are_exact(pattern, 90, 45, 50, bits);
}

/// Up to 51 bits, the bits of a longitude read from a pattern are those of
/// the number itself: halving `[-180, 180]` on the exact value gives the
/// same bits as on the value rounded down.
pub proof fn lemma_longitude_bits_are_exact(pattern: u64, bits: nat)
    requires
        valid_longitude_pattern(pattern),
        bits <= 51,
    ensures
        longitude_bits(units_of(pattern), bits) == quantized(
            exact_of(pattern),
            exact_degrees(-180),
            exact_degrees(180),
            bits,
        ),
{
    lemma_two_to_48();
    reveal_with_fuel(two_to, 4);
    assert(two_to(51) == 8 * two_to(48));
    lemma_bits_are_exact(pattern, 180, 45, 51, bits);
}

/// Up to 50 bits per axis, the geohash of a coordinate read from two patterns
/// is the geohash of the two numbers themselves, with nothing lost to the
/// rounding down to units.
pub proof fn lemma_geohash_is_exact(lat: u64, lng: u64, bits: nat)
    requires
        valid_latitude_pattern(lat),
        valid_longitude_pattern(lng),
        bits <= 50,
    ensures
        geohash(units_of(lat), units_of(lng), bits) == base32_string(
            zero_padded(
                merged_bits(
                    quantized(exact_of(lat), exact_degrees(-90), exact_degrees(90), bits),
                    quantized(exact_of(lng), exact_degrees(-180), exact_degrees(180), bits),
                ),
                16 * bytes_for(bits),
            ),
        ),
{
    lemma_latitude_bits_are_exact(lat, bits);
    lemma_longitude_bits_are_exact(lng, bits);
}

/// The shared argument: an axis of `[-limit, limit]` degrees whose width in
/// units is `2^depth * u`.
proof fn lemma_bits_are_exact(pattern: u64, limit: int, u: nat, depth: nat, bits: nat)
    requires
        -limit * UNITS_PER_DEGREE <= units_of(pattern) <= limit * UNITS_PER_DEGREE,
        2 * limit * UNITS_PER_DEGREE == two_to(depth) * u,
        bits <= depth,
    ensures
        quantized(
            units_of(pattern),
            -limit * UNITS_PER_DEGREE,
            limit * UNITS_PER_DEGREE,
            bits,
        ) == quantized(exact_of(pattern), exact_degrees(-limit), exact_degrees(limit), bits),
{
    let f = two_to(1026);
    let top = exact_degrees(limit);
    assert(exact_degrees(-limit) == -top) by (nonlinear_arith)
        requires
            top == limit * two_to(1074),
            exact_degrees(-limit) == (-limit) * two_to(1074),
    ;
    let bound = limit * UNITS_PER_DEGREE;
    let d = (units_of(pattern) + bound) as nat;
    lemma_units_round_down(pattern);
    lemma_two_to_48();
    lemma_two_to_sum(1026, 48);
    lemma_two_to_positive(1026);
    let e = (exact_of(pattern) - f * units_of(pattern)) as nat;
    assert(f * (units_of(pattern) + 1) == f * units_of(pattern) + f) by (nonlinear_arith);
    assert(top == f * bound) by (nonlinear_arith)
        requires
            top == limit * two_to(1074),
            two_to(1074) == f * two_to(48),
            bound == limit * two_to(48),
    ;
    assert(f * d + e == exact_of(pattern) + top) by (nonlinear_arith)
        requires
            d == units_of(pattern) + bound,
            e == exact_of(pattern) - f * units_of(pattern),
            top == f * bound,
    ;
    assert(f * (two_to(depth) * u) == 2 * top) by (nonlinear_arith)
        requires
            2 * bound == two_to(depth) * u,
            top == f * bound,
    ;
    lemma_rounding_down_keeps_bits(d, e, f, u, depth, bits);
}

/// The length of a geohash is fixed by the precision alone: one character
/// for each complete group of five bits of the merged buffer. It is never
/// less than `floor(2 * bits / 5)`, and equal to it when the bits of an axis
/// fill whole bytes.
pub proof fn lemma_geohash_length(lat: int, lng: int, bits: nat)
    ensures
        geohash(lat, lng, bits).len() == (16 * bytes_for(bits)) / 5,
        geohash(lat, lng, bits).len() >= (2 * bits) / 5,
        bits % 8 == 0 ==> geohash(lat, lng, bits).len() == (2 * bits) / 5,
{
}

/// Encodes a coordinate, given in units, as a geohash with `bits` bits per
/// axis. A coordinate outside the valid ranges is refused.
pub fn encode(lat: i64, lng: i64, bits: usize) -> (r: Result<String, EncodeError>)
    ensures
        valid_latitude(lat as int) && valid_longitude(lng as int) ==> r is Ok && r->Ok_0@
            == geohash(lat as int, lng as int, bits as nat),
        !(valid_latitude(lat as int) && valid_longitude(lng as int)) ==> r == Err::<
            String,
            EncodeError,
        >(EncodeError::ValueOutOfRange),
{
    let lat_bytes = match trace_binary_search(lat, (-LATITUDE_LIMIT, LATITUDE_LIMIT), bits) {
        Ok(bytes) => bytes,
        Err(e) => { return Err(e); },
    };
    let lng_bytes = match trace_binary_search(lng, (-LONGITUDE_LIMIT, LONGITUDE_LIMIT), bits) {
        Ok(bytes) => bytes,
        Err(e) => { return Err(e); },
    };
    let merged = match interleave(lat_bytes.as_slice(), lng_bytes.as_slice(), bits) {
        Ok(bytes) => bytes,
        Err(e) => { return Err(e); },
    };
    proof {
        assert(bits_of(lat_bytes@).take(bits as int) =~= latitude_bits(lat as int, bits as nat));
        assert(bits_of(lng_bytes@).take(bits as int) =~= longitude_bits(lng as int, bits as nat));
    }
    Ok(base32encode(merged.as_slice()))
}

/// Encodes a coordinate given in degrees as the bit patterns of two
/// double-precision numbers, each rounded down to a whole unit. A pattern
/// that is not a finite number, or a coordinate outside the valid ranges, is
/// refused.
pub fn encode_double(lat: u64, lng: u64, bits: usize) -> (r: Result<String, EncodeError>)
    ensures
        valid_latitude_pattern(lat) && valid_longitude_pattern(lng) ==> r is Ok && r->Ok_0@
            == geohash(units_of(lat), units_of(lng), bits as nat),
        !(valid_latitude_pattern(lat) && valid_longitude_pattern(lng)) ==> r == Err::<
            String,
            EncodeError,
        >(EncodeError::ValueOutOfRange),
{
    let lat_units = match units_from_double(lat) {
        Some(units) => units,
        None => { return Err(EncodeError::ValueOutOfRange); },
    };
    let lng_units = match units_from_double(lng) {
        Some(units) => units,
        None => { return Err(EncodeError::ValueOutOfRange); },
    };
    encode(lat_units, lng_units, bits)
}

} // verus!
