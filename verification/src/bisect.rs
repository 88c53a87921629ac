//! Quantizing a value within an interval by repeated halving.
//!
//! Values and bounds are integers in one common unit, so every comparison
//! against a midpoint is exact. A value at offset `d` from the lower bound of
//! an interval of width `w` is followed through the halvings by its offset
//! from the lower bound of the current interval, measured in units that halve
//! with the interval: in those units the interval always has width `w` and
//! its midpoint sits at `w / 2`.

use vstd::prelude::*;
use crate::bits::{bit_at, bits_of, byte_len, bytes_for, set_bit, zero_padded, zeroed};
use crate::error::EncodeError;

verus! {

/// Offset of the value from the lower bound of the interval that is left
/// after `k` halvings, in units of `1 / 2^k`.
pub open spec fn remainder(d: nat, w: nat, k: nat) -> nat
    decreases k,
{
    if k == 0 {
        d
    } else {
        let r = remainder(d, w, (k - 1) as nat);
        if 2 * r < w {
            2 * r
        } else {
            (2 * r - w) as nat
        }
    }
}

/// The bit emitted at step `k`: `false` when the value is strictly below the
/// midpoint of the current interval, `true` when it is at or above it.
pub open spec fn bisect_bit(d: nat, w: nat, k: nat) -> bool {
    2 * remainder(d, w, k) >= w
}

/// The first `bits` bits of the halving search for offset `d` in width `w`.
pub open spec fn bisect_bits(d: nat, w: nat, bits: nat) -> Seq<bool> {
    Seq::new(bits, |k: int| bisect_bit(d, w, k as nat))
}

/// The bits that quantize `value` within `[lower, upper]`.
pub open spec fn quantized(value: int, lower: int, upper: int, bits: nat) -> Seq<bool>
    recommends
        lower < upper,
        lower <= value <= upper,
{
    bisect_bits((value - lower) as nat, (upper - lower) as nat, bits)
}

/// The number whose binary digits are the first `k` bits of the search: the
/// index of the current interval among the `2^k` intervals of its depth.
pub open spec fn cell_index(d: nat, w: nat, k: nat) -> nat
    decreases k,
{
    if k == 0 {
        0
    } else {
        2 * cell_index(d, w, (k - 1) as nat) + if bisect_bit(d, w, (k - 1) as nat) {
            1nat
        } else {
            0nat
        }
    }
}

/// Two to the power `k`.
pub open spec fn two_to(k: nat) -> nat
    decreases k,
{
    if k == 0 {
        1
    } else {
        2 * two_to((k - 1) as nat)
    }
}

/// The offset within the current interval never exceeds the width.
pub proof fn lemma_remainder_bounded(d: nat, w: nat, k: nat)
    requires
        d <= w,
    ensures
        remainder(d, w, k) <= w,
    decreases k,
{
    if k > 0 {
        lemma_remainder_bounded(d, w, (k - 1) as nat);
    }
}

/// The bits read so far locate the value: with `c` the number that the first
/// `k` bits spell, the value's offset `d` satisfies
/// `c * w <= d * 2^k <= (c + 1) * w`, the remainder being the distance from
/// the lower end of that cell.
pub proof fn lemma_cell_contains_value(d: nat, w: nat, k: nat)
    requires
        d <= w,
    ensures
        cell_index(d, w, k) * w + remainder(d, w, k) == d * two_to(k),
        remainder(d, w, k) <= w,
    decreases k,
{
    lemma_remainder_bounded(d, w, k);
    if k == 0 {
        assert(0 * w + d == d * 1) by (nonlinear_arith);
    } else {
        let j = (k - 1) as nat;
        lemma_cell_contains_value(d, w, j);
        lemma_remainder_bounded(d, w, j);
        let c = cell_index(d, w, j);
        let r = remainder(d, w, j);
        let p = two_to(j);
        let c2 = cell_index(d, w, k);
        let r2 = remainder(d, w, k);
        assert(two_to(k) == 2 * p);
        if bisect_bit(d, w, j) {
            assert(c2 == 2 * c + 1);
            assert(r2 + w == 2 * r);
            assert(c2 * w + r2 == d * (2 * p)) by (nonlinear_arith)
                requires
                    c * w + r == d * p,
                    c2 == 2 * c + 1,
                    r2 + w == 2 * r,
            ;
        } else {
            assert(c2 == 2 * c);
            assert(r2 == 2 * r);
            assert(c2 * w + r2 == d * (2 * p)) by (nonlinear_arith)
                requires
                    c * w + r == d * p,
                    c2 == 2 * c,
                    r2 == 2 * r,
            ;
        }
    }
}

/// Only a value at the upper bound keeps the full width as its offset; any
/// other value stays strictly inside the half-open interval it was sent to.
pub proof fn lemma_remainder_below_width(d: nat, w: nat, k: nat)
    requires
        d < w,
    ensures
        remainder(d, w, k) < w,
    decreases k,
{
    if k > 0 {
        lemma_remainder_below_width(d, w, (k - 1) as nat);
    }
}

/// The bits in closed form: the first `k` bits of a value below the upper
/// bound spell `floor(d * 2^k / w)`, and those of the upper bound itself
/// spell `2^k - 1`.
pub proof fn lemma_cell_index_closed_form(d: nat, w: nat, k: nat)
    requires
        d <= w,
        w > 0,
    ensures
        d < w ==> cell_index(d, w, k) == (d * two_to(k)) / w,
        d == w ==> cell_index(d, w, k) + 1 == two_to(k),
    decreases k,
{
    lemma_cell_contains_value(d, w, k);
    if d < w {
        lemma_remainder_below_width(d, w, k);
        vstd::arithmetic::div_mod::lemma_fundamental_div_mod_converse(
            (d * two_to(k)) as int,
            w as int,
            cell_index(d, w, k) as int,
            remainder(d, w, k) as int,
        );
    } else if k > 0 {
        lemma_cell_index_closed_form(d, w, (k - 1) as nat);
        lemma_remainder_at_upper(w, (k - 1) as nat);
    }
}

/// Offset of the value from the lower bound of the interval that is left
/// after `k` halvings, in the unit of the value itself, for a width of
/// `2^depth * u`: the first `depth` halvings split it into whole units.
pub open spec fn offset_in_units(d: nat, u: nat, depth: nat, k: nat) -> nat
    decreases k,
{
    if k == 0 {
        d
    } else {
        let s = offset_in_units(d, u, depth, (k - 1) as nat);
        let half = two_to((depth - k) as nat) * u;
        if s < half {
            s
        } else {
            (s - half) as nat
        }
    }
}

/// Powers of two multiply as their exponents add.
pub proof fn lemma_two_to_sum(a: nat, b: nat)
    ensures
        two_to(a + b) == two_to(a) * two_to(b),
    decreases a,
{
    if a == 0 {
        assert(two_to(b) == 1 * two_to(b)) by (nonlinear_arith);
    } else {
        lemma_two_to_sum((a - 1) as nat, b);
        let x = two_to((a - 1) as nat);
        let y = two_to(b);
        assert(two_to(a + b) == 2 * two_to((a - 1 + b) as nat));
        assert(2 * (x * y) == (2 * x) * y) by (nonlinear_arith);
    }
}

/// While the halvings split the width into whole units, the scaled offset
/// is the offset in units times the scale.
proof fn lemma_remainder_in_units(d: nat, u: nat, depth: nat, k: nat)
    requires
        k <= depth,
    ensures
        remainder(d, two_to(depth) * u, k) == two_to(k) * offset_in_units(d, u, depth, k),
    decreases k,
{
    let w = two_to(depth) * u;
    if k == 0 {
        assert(d == 1 * d) by (nonlinear_arith);
    } else {
        let j = (k - 1) as nat;
        lemma_remainder_in_units(d, u, depth, j);
        let s = offset_in_units(d, u, depth, j);
        let r = remainder(d, w, j);
        let pj = two_to(j);
        let pk = two_to(k);
        let rest = two_to((depth - k) as nat);
        let half = rest * u;
        lemma_two_to_sum(k, (depth - k) as nat);
        lemma_two_to_positive(k);
        assert(w == pk * half) by (nonlinear_arith)
            requires
                w == two_to(depth) * u,
                two_to(depth) == pk * rest,
                half == rest * u,
        ;
        assert(2 * r == pk * s) by (nonlinear_arith)
            requires
                r == pj * s,
                pk == 2 * pj,
        ;
        assert((s < half) == (pk * s < pk * half)) by (nonlinear_arith)
            requires
                pk >= 1,
        ;
        if s >= half {
            assert(pk * s - pk * half == pk * (s - half)) by (nonlinear_arith);
        }
    }
}

/// A bit in terms of the offset in units: it is set when the offset reaches
/// half of the current width.
proof fn lemma_bit_in_units(d: nat, u: nat, depth: nat, k: nat)
    requires
        k < depth,
    ensures
        bisect_bit(d, two_to(depth) * u, k) == (offset_in_units(d, u, depth, k) >= two_to(
            (depth - k - 1) as nat,
        ) * u),
{
    let w = two_to(depth) * u;
    lemma_remainder_in_units(d, u, depth, k);
    let s = offset_in_units(d, u, depth, k);
    let r = remainder(d, w, k);
    let pk = two_to(k);
    let rest = two_to((depth - k - 1) as nat);
    let half = rest * u;
    lemma_two_to_sum(k + 1, (depth - k - 1) as nat);
    lemma_two_to_positive(k);
    assert(two_to(k + 1) == 2 * pk);
    assert(w == 2 * (pk * half)) by (nonlinear_arith)
        requires
            w == two_to(depth) * u,
            two_to(depth) == (2 * pk) * rest,
            half == rest * u,
    ;
    assert((s >= half) == (pk * s >= pk * half)) by (nonlinear_arith)
        requires
            pk >= 1,
    ;
}

/// Every power of two is at least one.
pub proof fn lemma_two_to_positive(k: nat)
    ensures
        two_to(k) >= 1,
    decreases k,
{
    if k > 0 {
        lemma_two_to_positive((k - 1) as nat);
    }
}

/// A value given `f` times finer, with a rest `e` below `f`, has the offset
/// of its rounded-down value, times `f`, plus that rest.
proof fn lemma_offset_of_finer_value(d: nat, e: nat, f: nat, u: nat, depth: nat, k: nat)
    requires
        e < f,
        k <= depth,
    ensures
        offset_in_units(f * d + e, f * u, depth, k) == f * offset_in_units(d, u, depth, k) + e,
    decreases k,
{
    if k > 0 {
        let j = (k - 1) as nat;
        lemma_offset_of_finer_value(d, e, f, u, depth, j);
        let s = offset_in_units(d, u, depth, j);
        let rest = two_to((depth - k) as nat);
        let half = rest * u;
        assert(rest * (f * u) == f * half) by (nonlinear_arith)
            requires
                half == rest * u,
        ;
        assert((f * s + e < f * half) == (s < half)) by (nonlinear_arith)
            requires
                e < f,
        ;
        if s >= half {
            assert(f * s + e - f * half == f * (s - half) + e) by (nonlinear_arith);
        }
    }
}

/// Rounding down is harmless while the midpoints are whole. Take a width of
/// `2^depth * u` units and a value known `f` times finer than the unit, at
/// `f * d + e` with `e < f`. Its first `depth` bits are those of `d`, the
/// value rounded down to a whole unit.
pub proof fn lemma_rounding_down_keeps_bits(
    d: nat,
    e: nat,
    f: nat,
    u: nat,
    depth: nat,
    bits: nat,
)
    requires
        e < f,
        bits <= depth,
    ensures
        bisect_bits(f * d + e, f * (two_to(depth) * u), bits) == bisect_bits(
            d,
            two_to(depth) * u,
            bits,
        ),
{
    let fine = bisect_bits(f * d + e, f * (two_to(depth) * u), bits);
    let coarse = bisect_bits(d, two_to(depth) * u, bits);
    assert(f * (two_to(depth) * u) == two_to(depth) * (f * u)) by (nonlinear_arith);
    assert forall|k: int| 0 <= k < bits implies fine[k] == coarse[k] by {
        let n = k as nat;
        let s = offset_in_units(d, u, depth, n);
        let rest = two_to((depth - n - 1) as nat);
        let half = rest * u;
        lemma_bit_in_units(d, u, depth, n);
        lemma_bit_in_units(f * d + e, f * u, depth, n);
        lemma_offset_of_finer_value(d, e, f, u, depth, n);
        assert(rest * (f * u) == f * half) by (nonlinear_arith)
            requires
                half == rest * u,
        ;
        assert((f * s + e >= f * half) == (s >= half)) by (nonlinear_arith)
            requires
                e < f,
        ;
    }
    assert(fine =~= coarse);
}

/// A value at the lower bound of its interval yields only zero bits.
pub proof fn lemma_lower_bound_all_zeros(lower: int, upper: int, bits: nat)
    requires
        lower < upper,
    ensures
        quantized(lower, lower, upper, bits) == Seq::new(bits, |k: int| false),
{
    let w = (upper - lower) as nat;
    assert forall|k: nat| remainder(0, w, k) == 0 by {
        lemma_remainder_at_lower(w, k);
    }
    assert(bisect_bits(0, w, bits) =~= Seq::new(bits, |k: int| false));
}

/// A value at the upper bound of its interval yields only one bits.
pub proof fn lemma_upper_bound_all_ones(lower: int, upper: int, bits: nat)
    requires
        lower < upper,
    ensures
        quantized(upper, lower, upper, bits) == Seq::new(bits, |k: int| true),
{
    let w = (upper - lower) as nat;
    assert forall|k: nat| remainder(w, w, k) == w by {
        lemma_remainder_at_upper(w, k);
    }
    assert(bisect_bits(w, w, bits) =~= Seq::new(bits, |k: int| true));
}

proof fn lemma_remainder_at_lower(w: nat, k: nat)
    requires
        w > 0,
    ensures
        remainder(0, w, k) == 0,
    decreases k,
{
    if k > 0 {
        lemma_remainder_at_lower(w, (k - 1) as nat);
    }
}

proof fn lemma_remainder_at_upper(w: nat, k: nat)
    requires
        w > 0,
    ensures
        remainder(w, w, k) == w,
    decreases k,
{
    if k > 0 {
        lemma_remainder_at_upper(w, (k - 1) as nat);
    }
}

/// Asking for more bits refines the answer: the bits for a smaller precision
/// are a prefix of the bits for a larger one.
pub proof fn lemma_more_bits_refine(value: int, lower: int, upper: int, fewer: nat, more: nat)
    requires
        fewer <= more,
    ensures
        quantized(value, lower, upper, fewer) == quantized(value, lower, upper, more).take(
            fewer as int,
        ),
{
    assert(quantized(value, lower, upper, fewer) =~= quantized(value, lower, upper, more).take(
        fewer as int,
    ));
}

/// Lexicographic order on two bit sequences of one length, `false` before
/// `true`: they are equal, or at the first place where they differ `a` holds
/// `false` and `b` holds `true`.
pub open spec fn lex_le(a: Seq<bool>, b: Seq<bool>) -> bool
    recommends
        a.len() == b.len(),
{
    a == b || exists|j: int| first_difference(a, b, j)
}

/// `a` and `b` agree before place `j`, where `a` holds `false` and `b` holds
/// `true`.
pub open spec fn first_difference(a: Seq<bool>, b: Seq<bool>, j: int) -> bool {
    &&& 0 <= j < a.len()
    &&& j < b.len()
    &&& forall|i: int| 0 <= i < j ==> a[i] == b[i]
    &&& !a[j]
    &&& b[j]
}

/// The search is monotone: within one interval and at one precision, a
/// smaller value never yields a lexicographically larger bit sequence.
pub proof fn lemma_quantized_monotone(v1: int, v2: int, lower: int, upper: int, bits: nat)
    requires
        lower <= v1 <= v2 <= upper,
    ensures
        lex_le(quantized(v1, lower, upper, bits), quantized(v2, lower, upper, bits)),
{
    lemma_bisect_monotone((v1 - lower) as nat, (v2 - lower) as nat, (upper - lower) as nat, bits);
}

/// Monotonicity in terms of offsets: of two offsets within one width, the
/// smaller never yields the lexicographically larger bit sequence.
pub proof fn lemma_bisect_monotone(d1: nat, d2: nat, w: nat, bits: nat)
    requires
        d1 <= d2 <= w,
    ensures
        lex_le(bisect_bits(d1, w, bits), bisect_bits(d2, w, bits)),
    decreases bits,
{
    let a = bisect_bits(d1, w, bits);
    let b = bisect_bits(d2, w, bits);
    if bits == 0 {
        assert(a =~= b);
    } else {
        let k = (bits - 1) as nat;
        let a0 = bisect_bits(d1, w, k);
        let b0 = bisect_bits(d2, w, k);
        lemma_bisect_monotone(d1, d2, w, k);
        if a0 == b0 {
            assert forall|i: nat| i < k implies #[trigger] bisect_bit(d1, w, i) == bisect_bit(
                d2,
                w,
                i,
            ) by {
                assert(a0[i as int] == b0[i as int]);
            }
            lemma_equal_prefix_orders_remainders(d1, d2, w, k);
            if a[k as int] == b[k as int] {
                assert forall|i: int| 0 <= i < bits implies a[i] == b[i] by {
                    if i < k {
                        assert(a[i] == a0[i]);
                        assert(b[i] == b0[i]);
                    }
                }
                assert(a =~= b);
            } else {
                assert forall|i: int| 0 <= i < k implies a[i] == b[i] by {
                    assert(a[i] == a0[i]);
                    assert(b[i] == b0[i]);
                }
                assert(first_difference(a, b, k as int));
            }
        } else {
            let j = choose|j: int| first_difference(a0, b0, j);
            assert forall|i: int| 0 <= i < j implies a[i] == b[i] by {
                assert(a[i] == a0[i]);
                assert(b[i] == b0[i]);
            }
            assert(a[j] == a0[j]);
            assert(b[j] == b0[j]);
            assert(first_difference(a, b, j));
        }
    }
}

/// While two values have produced the same bits, the smaller value has the
/// smaller offset within the shared interval.
proof fn lemma_equal_prefix_orders_remainders(d1: nat, d2: nat, w: nat, k: nat)
    requires
        d1 <= d2 <= w,
        forall|i: nat| i < k ==> #[trigger] bisect_bit(d1, w, i) == bisect_bit(d2, w, i),
    ensures
        remainder(d1, w, k) <= remainder(d2, w, k),
    decreases k,
{
    if k > 0 {
        let j = (k - 1) as nat;
        lemma_equal_prefix_orders_remainders(d1, d2, w, j);
        assert(bisect_bit(d1, w, j) == bisect_bit(d2, w, j));
    }
}

/// Quantizes `value` within `[lower, upper]` into `bits` bits, packed most
/// significant bit first into `ceil(bits / 8)` bytes whose unused low-order
/// bits are zero. A value equal to a midpoint goes to the upper half.
pub fn trace_binary_search(value: i64, range: (i64, i64), bits: usize) -> (r: Result<
    Vec<u8>,
    EncodeError,
>)
    ensures
        range.0 >= range.1 ==> r == Err::<Vec<u8>, EncodeError>(EncodeError::InvalidRange),
        range.0 < range.1 && !(range.0 <= value <= range.1) ==> r == Err::<Vec<u8>, EncodeError>(
            EncodeError::ValueOutOfRange,
        ),
        range.0 < range.1 && range.0 <= value <= range.1 ==> r is Ok && r->Ok_0@.len()
            == bytes_for(bits as nat) && bits_of(r->Ok_0@) == zero_padded(
            quantized(value as int, range.0 as int, range.1 as int, bits as nat),
            8 * bytes_for(bits as nat),
        ),
{
    let lower: i64 = range.0;
    let upper: i64 = range.1;
    if lower >= upper {
        return Err(EncodeError::InvalidRange);
    }
    if value < lower || upper < value {
        return Err(EncodeError::ValueOutOfRange);
    }
    let width: u64 = (upper as i128 - lower as i128) as u64;
    let offset: u64 = (value as i128 - lower as i128) as u64;
    let len: usize = byte_len(bits);
    let mut buf: Vec<u8> = zeroed(len);
    let mut rem: u64 = offset;
    let ghost d: nat = offset as nat;
    let ghost w: nat = width as nat;
    for i in 0..bits
        invariant
            len == bytes_for(bits as nat),
            buf@.len() == len,
            d <= w,
            w == width,
            rem == remainder(d, w, i as nat),
            rem <= width,
            forall|n: int| 0 <= n < i ==> bit_at(buf@, n) == bisect_bit(d, w, n as nat),
            forall|n: int| i <= n < 8 * len ==> !bit_at(buf@, n),
    {
        let twice: u128 = 2 * (rem as u128);
        if twice < width as u128 {
            rem = twice as u64;
        } else {
            set_bit(&mut buf, i / 8, (i % 8) as u8);
            rem = (twice - width as u128) as u64;
        }
    }
    proof {
        assert(bits_of(buf@) =~= zero_padded(
            quantized(value as int, lower as int, upper as int, bits as nat),
            8 * bytes_for(bits as nat),
        ));
    }
    Ok(buf)
}

} // verus!
