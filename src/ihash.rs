//! The 64-bit image fingerprint and the distances between fingerprints.

use vstd::arithmetic::power2::{lemma2_to64, lemma2_to64_rest, lemma_pow2_unfold, pow2};
use vstd::prelude::*;

verus! {

/// Number of set bits in the binary form of `n`.
pub open spec fn ones(n: nat) -> nat
    decreases n,
{
    if n == 0 {
        0
    } else {
        n % 2 + ones(n / 2)
    }
}

/// Number of set bits of `x`.
pub open spec fn popcount(x: u64) -> nat {
    ones(x as nat)
}

/// Hamming distance between two fingerprint values.
pub open spec fn hamming(a: u64, b: u64) -> nat {
    popcount(a ^ b)
}

/// Distance that also compares against the bit-complement of the second value.
pub open spec fn mirror_hamming(a: u64, b: u64) -> nat {
    let d = hamming(a, b);
    let m = hamming(a, b ^ u64::MAX);
    if d <= m {
        d
    } else {
        m
    }
}

/// How a fingerprint is computed from an image.
pub enum HashMethod {
    DHashRotations,
}

/// A 64-bit perceptual fingerprint.
#[derive(Clone, Copy, Debug, PartialEq, Eq, Structural)]
pub struct IHash {
    pub value: u64,
}

/// A fingerprint string that is not a decimal number in the range of `u64`.
#[derive(Clone, Copy, Debug, PartialEq, Eq, Structural)]
pub struct ParseHashError;

proof fn lemma_ones_bounded(n: nat, k: nat)
    requires
        n < pow2(k),
    ensures
        ones(n) <= k,
    decreases k,
{
    if n > 0 {
        if k == 0 {
            assert(pow2(0) == 1) by {
                lemma2_to64();
            }
        } else {
            lemma_pow2_unfold(k);
            lemma_ones_bounded(n / 2, (k - 1) as nat);
        }
    }
}

proof fn lemma_popcount_bounded(x: u64)
    ensures
        popcount(x) <= 64,
{
    lemma2_to64_rest();
    lemma_ones_bounded(x as nat, 64);
}

proof fn lemma_ones_positive(n: nat)
    requires
        n > 0,
    ensures
        ones(n) > 0,
    decreases n,
{
    if n % 2 == 0 {
        lemma_ones_positive(n / 2);
    }
}

/// Counts the set bits of `x`.
fn count_ones(x: u64) -> (r: u32)
    ensures
        r as nat == popcount(x),
        r <= 64,
{
    proof {
        lemma_popcount_bounded(x);
    }
    let mut c: u32 = 0;
    let mut y: u64 = x;
    while y > 0
        invariant
            c as nat + ones(y as nat) == popcount(x),
            popcount(x) <= 64,
        decreases y,
    {
        c = c + (y % 2) as u32;
        y = y / 2;
    }
    c
}

/// Value of a decimal digit character.
pub open spec fn digit_value(c: char) -> nat {
    (c as u32 - '0' as u32) as nat
}

pub open spec fn is_digit(c: char) -> bool {
    '0' <= c && c <= '9'
}

/// Value of a string of decimal digits, most significant first.
pub open spec fn decimal_value(s: Seq<char>) -> nat
    decreases s.len(),
{
    if s.len() == 0 {
        0
    } else {
        decimal_value(s.drop_last()) * 10 + digit_value(s.last())
    }
}

/// A nonempty run of decimal digits whose value fits in 64 bits.
pub open spec fn is_fingerprint_text(s: Seq<char>) -> bool {
    &&& s.len() > 0
    &&& forall|i: int| 0 <= i < s.len() ==> is_digit(#[trigger] s[i])
    &&& decimal_value(s) <= u64::MAX
}

/// The decimal digits of `n`, without leading zeros (a single `0` for zero).
pub open spec fn decimal_digits(n: nat) -> Seq<char>
    decreases n,
{
    if n < 10 {
        seq![(('0' as u32) + n) as char]
    } else {
        decimal_digits(n / 10).push((('0' as u32) + n % 10) as char)
    }
}

proof fn lemma_decimal_value_monotone(s: Seq<char>, i: int, j: int)
    requires
        0 <= i <= j <= s.len(),
        forall|k: int| 0 <= k < s.len() ==> is_digit(#[trigger] s[k]),
    ensures
        decimal_value(s.take(i)) <= decimal_value(s.take(j)),
    decreases j - i,
{
    if i < j {
        lemma_decimal_value_monotone(s, i, j - 1);
        assert(s.take(j).drop_last() =~= s.take(j - 1));
    }
}

/// The text of one decimal digit.
fn digit_text(d: u64) -> (r: &'static str)
    requires
        d < 10,
    ensures
        r@ == seq![(('0' as u32) + d) as char],
{
    match d {
        0 => {
            proof {
                reveal_strlit("0");
            }
            "0"
        },
        1 => {
            proof {
                reveal_strlit("1");
            }
            "1"
        },
        2 => {
            proof {
                reveal_strlit("2");
            }
            "2"
        },
        3 => {
            proof {
                reveal_strlit("3");
            }
            "3"
        },
        4 => {
            proof {
                reveal_strlit("4");
            }
            "4"
        },
        5 => {
            proof {
                reveal_strlit("5");
            }
            "5"
        },
        6 => {
            proof {
                reveal_strlit("6");
            }
            "6"
        },
        7 => {
            proof {
                reveal_strlit("7");
            }
            "7"
        },
        8 => {
            proof {
                reveal_strlit("8");
            }
            "8"
        },
        _ => {
            proof {
                reveal_strlit("9");
            }
            "9"
        },
    }
}

/// Appends the decimal digits of `n` to `out`.
fn write_decimal(n: u64, out: &mut String)
    ensures
        final(out)@ == old(out)@ + decimal_digits(n as nat),
    decreases n,
{
    if n >= 10 {
        write_decimal(n / 10, out);
    }
    out.append(digit_text(n % 10));
    proof {
        if n < 10 {
            assert(decimal_digits(n as nat) =~= seq![(('0' as u32) + n % 10) as char]);
        }
    }
    assert(out@ =~= old(out)@ + decimal_digits(n as nat));
}

impl IHash {
    pub fn new(hash: u64) -> (r: Self)
        ensures
            r.value == hash,
    {
        IHash { value: hash }
    }

    /// Reads a fingerprint from its decimal form.
    pub fn from_str(string: &str) -> (r: Result<Self, ParseHashError>)
        ensures
            r is Ok <==> is_fingerprint_text(string@),
            r is Ok ==> r->Ok_0.value == decimal_value(string@),
    {
        let n = string.unicode_len();
        if n == 0 {
            return Err(ParseHashError);
        }
        let mut acc: u64 = 0;
        let mut i: usize = 0;
        while i < n
            invariant
                n == string@.len(),
                i <= n,
                forall|k: int| 0 <= k < i ==> is_digit(#[trigger] string@[k]),
                acc as nat == decimal_value(string@.take(i as int)),
            decreases n - i,
        {
            let c = string.get_char(i);
            if !('0' <= c && c <= '9') {
                return Err(ParseHashError);
            }
            let d = (c as u32 - '0' as u32) as u64;
            assert(string@.take(i + 1).drop_last() =~= string@.take(i as int));
            if acc > (u64::MAX - d) / 10 {
                proof {
                    assert(decimal_value(string@.take(i + 1)) > u64::MAX) by (nonlinear_arith)
                        requires
                            decimal_value(string@.take(i + 1)) == acc * 10 + d,
                            acc > (u64::MAX - d) / 10,
                            d <= 9,
                    ;
                    if forall|k: int| 0 <= k < n ==> is_digit(#[trigger] string@[k]) {
                        lemma_decimal_value_monotone(string@, i + 1, n as int);
                        assert(string@.take(n as int) =~= string@);
                    }
                }
                return Err(ParseHashError);
            }
            acc = acc * 10 + d;
            i = i + 1;
        }
        assert(string@.take(n as int) =~= string@);
        Ok(IHash { value: acc })
    }

    /// The decimal form of the fingerprint.
    pub fn to_str(self) -> (r: String)
        ensures
            r@ == decimal_digits(self.value as nat),
    {
        let mut text = String::new();
        write_decimal(self.value, &mut text);
        assert(text@ =~= decimal_digits(self.value as nat));
        text
    }

    /// Distance that also checks the mirrored (bit-complemented) fingerprint:
    /// the smaller of the Hamming distances to `hash2` and to its complement.
    pub fn comp(hash1: &Self, hash2: &Self) -> (r: u32)
        ensures
            r as nat == mirror_hamming(hash1.value, hash2.value),
            r <= 64,
    {
        let xor: u64 = hash1.value ^ hash2.value;
        let xor_inv: u64 = hash1.value ^ (hash2.value ^ u64::MAX);
        let d = count_ones(xor);
        let m = count_ones(xor_inv);
        if d <= m {
            d
        } else {
            m
        }
    }

    /// Hamming distance: the number of bits in which the fingerprints differ.
    pub fn dist(self, hash2: &Self) -> (r: u32)
        ensures
            r as nat == hamming(self.value, hash2.value),
            r <= 64,
    {
        count_ones(self.value ^ hash2.value)
    }
}

/// A fingerprint is at distance zero from itself.
pub proof fn distance_to_self_is_zero(a: IHash)
    ensures
        hamming(a.value, a.value) == 0,
{
    let x = a.value;
    assert(x ^ x == 0u64) by (bit_vector);
}

/// Distance is symmetric and lies between 0 and 64.
pub proof fn distance_symmetric_and_bounded(a: IHash, b: IHash)
    ensures
        hamming(a.value, b.value) == hamming(b.value, a.value),
        hamming(a.value, b.value) <= 64,
{
    let (x, y) = (a.value, b.value);
    assert(x ^ y == y ^ x) by (bit_vector);
    lemma_popcount_bounded(x ^ y);
}

/// The mirror-aware distance never exceeds the plain distance.
pub proof fn mirror_distance_at_most_distance(a: IHash, b: IHash)
    ensures
        mirror_hamming(a.value, b.value) <= hamming(a.value, b.value),
{
}

/// Distance zero holds exactly between equal fingerprints.
pub proof fn distance_zero_iff_equal(a: IHash, b: IHash)
    ensures
        hamming(a.value, b.value) == 0 <==> a == b,
{
    let (x, y) = (a.value, b.value);
    if x == y {
        distance_to_self_is_zero(a);
    } else {
        assert(x ^ y != 0u64) by (bit_vector)
            requires
                x != y,
        ;
        lemma_ones_positive((x ^ y) as nat);
    }
}

proof fn lemma_decimal_digits_read_back(n: nat)
    ensures
        decimal_digits(n).len() > 0,
        forall|i: int| 0 <= i < decimal_digits(n).len() ==> is_digit(#[trigger] decimal_digits(n)[i]),
        decimal_value(decimal_digits(n)) == n,
    decreases n,
{
    let d = decimal_digits(n);
    if n < 10 {
        assert(d.drop_last() =~= Seq::<char>::empty());
        assert(d.last() as u32 == '0' as u32 + n);
        assert(decimal_value(Seq::<char>::empty()) == 0);
    } else {
        lemma_decimal_digits_read_back(n / 10);
        assert(d.drop_last() =~= decimal_digits(n / 10));
        assert(d.last() as u32 == '0' as u32 + n % 10);
        assert(decimal_value(d) == (n / 10) * 10 + n % 10);
    }
}

/// Writing a fingerprint in decimal and reading it back gives the same
/// fingerprint.
pub proof fn decimal_round_trip(h: IHash)
    ensures
        is_fingerprint_text(decimal_digits(h.value as nat)),
        decimal_value(decimal_digits(h.value as nat)) == h.value,
{
    lemma_decimal_digits_read_back(h.value as nat);
}

} // verus!
