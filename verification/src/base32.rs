//! Writing a bit stream in the geohash base-32 alphabet.

use vstd::prelude::*;
use vstd::string::*;
use crate::bits::{bit_at, bits_of, get_bit};

verus! {

/// The 32 symbols in the order of their values: the digits, then the
/// lowercase letters without `a`, `i`, `l` and `o`.
pub const ALPHABET: &'static str = "0123456789bcdefghjkmnpqrstuvwxyz";

/// The alphabet as a sequence: the symbol of value `v` stands at index `v`.
pub open spec fn alphabet() -> Seq<char> {
    seq![
        '0', '1', '2', '3', '4', '5', '6', '7', '8', '9', 'b', 'c', 'd', 'e', 'f', 'g',
        'h', 'j', 'k', 'm', 'n', 'p', 'q', 'r', 's', 't', 'u', 'v', 'w', 'x', 'y', 'z',
    ]
}

/// A bit as a number.
pub open spec fn digit(b: bool) -> nat {
    if b {
        1
    } else {
        0
    }
}

/// The value of the `g`-th group of five bits, first bit most significant.
pub open spec fn group_value(bits: Seq<bool>, g: int) -> nat
    recommends
        0 <= g,
        5 * g + 5 <= bits.len(),
{
    16 * digit(bits[5 * g]) + 8 * digit(bits[5 * g + 1]) + 4 * digit(bits[5 * g + 2]) + 2 * digit(
        bits[5 * g + 3],
    ) + digit(bits[5 * g + 4])
}

/// The base-32 text of a bit stream: one symbol for each complete group of
/// five bits, in order. Bits after the last complete group are left out.
pub open spec fn base32_string(bits: Seq<bool>) -> Seq<char> {
    Seq::new(bits.len() / 5, |g: int| alphabet()[group_value(bits, g) as int])
}

/// The value of the `count` bits that start at `start`, first bit most
/// significant.
pub open spec fn run_value(bits: Seq<bool>, start: int, count: nat) -> nat
    decreases count,
{
    if count == 0 {
        0
    } else {
        2 * run_value(bits, start, (count - 1) as nat) + digit(bits[start + count - 1])
    }
}

/// A run of five bits has the value of its group.
pub proof fn lemma_run_of_five(bits: Seq<bool>, g: int)
    ensures
        run_value(bits, 5 * g, 5) == group_value(bits, g),
        group_value(bits, g) < 32,
{
    reveal_with_fuel(run_value, 6);
}

/// The alphabet has 32 symbols and no symbol stands for two values.
pub proof fn lemma_alphabet_is_injective()
    ensures
        alphabet().len() == 32,
        forall|i: int, j: int|
            0 <= i < 32 && 0 <= j < 32 && i != j ==> alphabet()[i] != alphabet()[j],
{
    assert forall|i: int, j: int| 0 <= i < 32 && 0 <= j < 32 && i != j implies alphabet()[i]
        != alphabet()[j] by {
        lemma_symbol_value(i);
        lemma_symbol_value(j);
    }
}

/// The value that a symbol of the alphabet stands for, read off its code
/// point; 32 for any other character.
pub open spec fn symbol_value(c: char) -> int {
    let u = c as int;
    if 48 <= u <= 57 {
        u - 48
    } else if 98 <= u <= 104 {
        u - 88
    } else if 106 <= u <= 107 {
        u - 89
    } else if 109 <= u <= 110 {
        u - 90
    } else if 112 <= u <= 122 {
        u - 91
    } else {
        32
    }
}

/// Each symbol of the alphabet decodes to the index it stands at.
pub proof fn lemma_symbol_value(v: int)
    requires
        0 <= v < 32,
    ensures
        symbol_value(alphabet()[v]) == v,
{
    let a = alphabet();
    if v < 8 {
        assert(symbol_value(a[0]) == 0 && symbol_value(a[1]) == 1 && symbol_value(a[2]) == 2
            && symbol_value(a[3]) == 3 && symbol_value(a[4]) == 4 && symbol_value(a[5]) == 5
            && symbol_value(a[6]) == 6 && symbol_value(a[7]) == 7);
    } else if v < 16 {
        assert(symbol_value(a[8]) == 8 && symbol_value(a[9]) == 9 && symbol_value(a[10]) == 10
            && symbol_value(a[11]) == 11 && symbol_value(a[12]) == 12 && symbol_value(a[13]) == 13
            && symbol_value(a[14]) == 14 && symbol_value(a[15]) == 15);
    } else if v < 24 {
        assert(symbol_value(a[16]) == 16 && symbol_value(a[17]) == 17 && symbol_value(a[18]) == 18
            && symbol_value(a[19]) == 19 && symbol_value(a[20]) == 20 && symbol_value(a[21]) == 21
            && symbol_value(a[22]) == 22 && symbol_value(a[23]) == 23);
    } else {
        assert(symbol_value(a[24]) == 24 && symbol_value(a[25]) == 25 && symbol_value(a[26]) == 26
            && symbol_value(a[27]) == 27 && symbol_value(a[28]) == 28 && symbol_value(a[29]) == 29
            && symbol_value(a[30]) == 30 && symbol_value(a[31]) == 31);
    }
}

/// Every character of an encoded text is a symbol of the alphabet, and the
/// text has one character for each complete group of five bits.
pub proof fn lemma_text_in_alphabet(bits: Seq<bool>)
    ensures
        base32_string(bits).len() == bits.len() / 5,
        forall|g: int|
            0 <= g < base32_string(bits).len() ==> alphabet().contains(
                #[trigger] base32_string(bits)[g],
            ),
{
    assert forall|g: int| 0 <= g < base32_string(bits).len() implies alphabet().contains(
        #[trigger] base32_string(bits)[g],
    ) by {
        lemma_run_of_five(bits, g);
        let v = group_value(bits, g) as int;
        assert(alphabet()[v] == base32_string(bits)[g]);
    }
}

/// Bits after the last complete group of five do not matter: two bit
/// streams of one length that agree on every complete group have the same
/// text.
pub proof fn lemma_trailing_bits_ignored(a: Seq<bool>, b: Seq<bool>)
    requires
        a.len() == b.len(),
        forall|n: int| 0 <= n < 5 * (a.len() / 5) ==> a[n] == b[n],
    ensures
        base32_string(a) == base32_string(b),
{
    assert forall|g: int| 0 <= g < a.len() / 5 implies group_value(a, g) == group_value(b, g) by {
        assert(a[5 * g] == b[5 * g]);
        assert(a[5 * g + 1] == b[5 * g + 1]);
        assert(a[5 * g + 2] == b[5 * g + 2]);
        assert(a[5 * g + 3] == b[5 * g + 3]);
        assert(a[5 * g + 4] == b[5 * g + 4]);
    }
    assert(base32_string(a) =~= base32_string(b));
}

/// The same law for packed bytes: two byte sequences of one length whose bit
/// streams agree on every complete group of five encode to the same text.
pub proof fn lemma_trailing_bits_of_bytes_ignored(a: Seq<u8>, b: Seq<u8>)
    requires
        a.len() == b.len(),
        forall|n: int| 0 <= n < 5 * ((8 * a.len()) / 5) ==> bit_at(a, n) == bit_at(b, n),
    ensures
        base32_string(bits_of(a)) == base32_string(bits_of(b)),
{
    lemma_trailing_bits_ignored(bits_of(a), bits_of(b));
}

/// The symbol of a five-bit value.
pub fn symbol(v: u8) -> (s: &'static str)
    requires
        v < 32,
    ensures
        s@ == seq![alphabet()[v as int]],
{
    proof {
        reveal_strlit("0123456789bcdefghjkmnpqrstuvwxyz");
        assert(ALPHABET@ =~= alphabet());
    }
    let s = ALPHABET.substring_ascii(v as usize, v as usize + 1);
    proof {
        assert(s@ =~= seq![alphabet()[v as int]]);
    }
    s
}

/// Encodes a byte sequence, read as one bit stream with the most significant
/// bit of each byte first, in base 32. Trailing bits that do not fill a group
/// of five produce no symbol.
pub fn base32encode(bytes: &[u8]) -> (s: String)
    ensures
        s@ == base32_string(bits_of(bytes@)),
{
    let mut result = String::new();
    let mut t: u8 = 0;
    let mut c: u8 = 0;
    let ghost bits = bits_of(bytes@);
    for i in 0..bytes.len()
        invariant
            bits == bits_of(bytes@),
            c < 5,
            c == (8 * i) % 5,
            t == run_value(bits, 8 * i - c, c as nat),
            t < 16,
            result@.len() == (8 * i) / 5,
            forall|g: int|
                0 <= g < (8 * i) / 5 ==> result@[g] == alphabet()[group_value(bits, g) as int],
    {
        for p in 0..8u8
            invariant
                i < bytes@.len(),
                bits == bits_of(bytes@),
                c < 5,
                c == (8 * i + p) % 5,
                t == run_value(bits, 8 * i + p - c, c as nat),
                t < 16,
                result@.len() == (8 * i + p) / 5,
                forall|g: int|
                    0 <= g < (8 * i + p) / 5 ==> result@[g] == alphabet()[group_value(
                        bits,
                        g,
                    ) as int],
        {
            let ghost n: int = 8 * i + p;
            let bit = get_bit(bytes, i, p);
            proof {
                assert(bits[n] == bit);
                lemma_run_bound(bits, n - c, c as nat);
            }
            t = 2 * t + if bit {
                1
            } else {
                0
            };
            c = c + 1;
            if c == 5 {
                proof {
                    lemma_run_of_five(bits, n / 5);
                }
                let ghost before = result@;
                result.append(symbol(t));
                proof {
                    assert(result@ =~= before.push(alphabet()[group_value(bits, n / 5) as int]));
                }
                t = 0;
                c = 0;
            }
        }
    }
    proof {
        assert(result@ =~= base32_string(bits));
    }
    result
}

/// A run of fewer than five bits has a value below sixteen, and below
/// two to the number of its bits.
proof fn lemma_run_bound(bits: Seq<bool>, start: int, count: nat)
    requires
        count < 5,
    ensures
        count == 0 ==> run_value(bits, start, count) == 0,
        count == 1 ==> run_value(bits, start, count) < 2,
        count == 2 ==> run_value(bits, start, count) < 4,
        count == 3 ==> run_value(bits, start, count) < 8,
        count == 4 ==> run_value(bits, start, count) < 16,
{
    reveal_with_fuel(run_value, 6);
}

} // verus!
