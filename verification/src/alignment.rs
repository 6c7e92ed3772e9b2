//! Alignment arithmetic: powers of two, rounding a position up to one, and
//! the greatest common divisor and least common multiple of two numbers.
use vstd::arithmetic::power2::lemma2_to64;
use vstd::arithmetic::power2::lemma2_to64_rest;
use vstd::arithmetic::power2::lemma_pow2_adds;
use vstd::arithmetic::power2::lemma_pow2_pos;
use vstd::arithmetic::power2::lemma_pow2_strictly_increases;
use vstd::arithmetic::power2::pow2;
use vstd::bits::lemma_u64_low_bits_mask_is_mod;
use vstd::bits::low_bits_mask;
use vstd::prelude::*;

verus! {

/// A number is a power of two when it is `pow2(k)` for some `k`.
pub open spec fn spec_is_power_of_two(n: int) -> bool {
    exists|k: nat| n == #[trigger] pow2(k)
}

/// A 64-bit number is a power of two exactly when it is not zero and shares
/// no bit with its predecessor.
pub proof fn lemma_power_of_two_bits(a: u64)
    ensures
        spec_is_power_of_two(a as int) <==> a != 0 && a & (a - 1) as u64 == 0,
{
    lemma2_to64();
    lemma2_to64_rest();
    if a != 0 && a & (a - 1) as u64 == 0 {
        assert(
            a == 0x1 || a == 0x2 || a == 0x4 || a == 0x8 || a == 0x10 || a == 0x20 || a == 0x40 ||
            a == 0x80 || a == 0x100 || a == 0x200 || a == 0x400 || a == 0x800 || a == 0x1000 ||
            a == 0x2000 || a == 0x4000 || a == 0x8000 || a == 0x10000 || a == 0x20000 ||
            a == 0x40000 || a == 0x80000 || a == 0x100000 || a == 0x200000 || a == 0x400000 ||
            a == 0x800000 || a == 0x1000000 || a == 0x2000000 || a == 0x4000000 ||
            a == 0x8000000 || a == 0x10000000 || a == 0x20000000 || a == 0x40000000 ||
            a == 0x80000000 || a == 0x100000000 || a == 0x200000000 || a == 0x400000000 ||
            a == 0x800000000 || a == 0x1000000000 || a == 0x2000000000 || a == 0x4000000000 ||
            a == 0x8000000000 || a == 0x10000000000 || a == 0x20000000000 || a == 0x40000000000 ||
            a == 0x80000000000 || a == 0x100000000000 || a == 0x200000000000 ||
            a == 0x400000000000 || a == 0x800000000000 || a == 0x1000000000000 ||
            a == 0x2000000000000 || a == 0x4000000000000 || a == 0x8000000000000 ||
            a == 0x10000000000000 || a == 0x20000000000000 || a == 0x40000000000000 ||
            a == 0x80000000000000 || a == 0x100000000000000 || a == 0x200000000000000 ||
            a == 0x400000000000000 || a == 0x800000000000000 || a == 0x1000000000000000 ||
            a == 0x2000000000000000 || a == 0x4000000000000000 || a == 0x8000000000000000
        ) by (bit_vector)
            requires
                a != 0,
                a & (a - 1) as u64 == 0,
        ;
    }
    if spec_is_power_of_two(a as int) {
        let k = choose|k: nat| a == pow2(k);
        lemma_pow2_pos(k);
        if k > 64 {
            lemma_pow2_strictly_increases(64, k);
        }
        lemma_u64_low_bits_mask_is_mod(a, k);
        assert(a % a == 0);
    }
}

/// The exponent of a power of two that fits in 64 bits.
pub proof fn lemma_power_of_two_exponent(n: int) -> (k: nat)
    requires
        spec_is_power_of_two(n),
        n <= u64::MAX,
    ensures
        k < 64,
        n == pow2(k),
{
    let k = choose|k: nat| n == pow2(k);
    lemma2_to64();
    if k > 64 {
        lemma_pow2_strictly_increases(64, k);
    }
    k
}

/// Of two powers of two, the smaller divides the larger.
pub proof fn lemma_power_of_two_divides(a: int, b: int)
    requires
        spec_is_power_of_two(a),
        spec_is_power_of_two(b),
        a <= b,
    ensures
        a > 0,
        b % a == 0,
{
    let i = choose|k: nat| a == pow2(k);
    let j = choose|k: nat| b == pow2(k);
    lemma_pow2_pos(i);
    if j < i {
        lemma_pow2_strictly_increases(j, i);
    }
    let q = pow2((j - i) as nat) as int;
    lemma_pow2_adds(i, (j - i) as nat);
    vstd::arithmetic::mul::lemma_mul_is_commutative(a, q);
    vstd::arithmetic::div_mod::lemma_mod_multiples_basic(q, a);
}

/// `pos` rounded up with the mask of `alignment`, in wrapping 64-bit
/// arithmetic: `(pos + alignment - 1) & -alignment`.
pub open spec fn spec_align(pos: usize, alignment: usize) -> usize {
    ((pos as u64).wrapping_add(alignment as u64).wrapping_sub(1) & 0u64.wrapping_sub(
        alignment as u64,
    )) as usize
}

/// The least multiple of `alignment` that is not below `pos`.
pub open spec fn spec_round_up(pos: int, alignment: int) -> int {
    (pos + alignment - 1) / alignment * alignment
}

/// The one multiple of `a` among the `a` numbers that end with `s` is
/// `s / a * a`.
pub proof fn lemma_multiple_in_window(r: int, s: int, a: int)
    requires
        a > 0,
        r % a == 0,
        s - a < r <= s,
    ensures
        r == s / a * a,
{
    vstd::arithmetic::div_mod::lemma_fundamental_div_mod(r, a);
    vstd::arithmetic::div_mod::lemma_fundamental_div_mod(s, a);
    let k = r / a;
    let q = s / a;
    assert(k == q) by (nonlinear_arith)
        requires
            a > 0,
            0 <= s % a < a,
            r == a * k,
            s == a * q + s % a,
            s - a < r <= s,
    ;
    vstd::arithmetic::mul::lemma_mul_is_commutative(a, q);
}

/// What rounding up gives: a multiple of the alignment that is not below
/// the position and less than one alignment above it.
pub proof fn lemma_round_up(pos: int, alignment: int)
    requires
        pos >= 0,
        alignment > 0,
    ensures
        pos <= spec_round_up(pos, alignment) < pos + alignment,
        spec_round_up(pos, alignment) % alignment == 0,
{
    let s = pos + alignment - 1;
    vstd::arithmetic::div_mod::lemma_fundamental_div_mod(s, alignment);
    vstd::arithmetic::mul::lemma_mul_is_commutative(alignment, s / alignment);
    vstd::arithmetic::div_mod::lemma_mod_multiples_basic(s / alignment, alignment);
}

/// For a valid alignment, and a position that leaves room for it, the mask
/// formula rounds the position up to the next multiple of the alignment.
pub proof fn lemma_align_rounds_up(pos: usize, alignment: usize)
    requires
        spec_is_power_of_two(alignment as int),
        pos + alignment - 1 <= usize::MAX,
    ensures
        spec_align(pos, alignment) == spec_round_up(pos as int, alignment as int),
{
    let a: u64 = alignment as u64;
    let k = lemma_power_of_two_exponent(a as int);
    lemma_power_of_two_bits(a);
    let sum: u64 = (pos + alignment - 1) as u64;
    let mask: u64 = 0u64.wrapping_sub(a);
    let r: u64 = sum & mask;
    assert(r <= sum && sum - r < a && r & (a - 1) as u64 == 0) by (bit_vector)
        requires
            a != 0,
            a & (a - 1) as u64 == 0,
            mask == (0x1_0000_0000_0000_0000 - a) as u64,
            r == sum & mask,
    ;
    lemma_u64_low_bits_mask_is_mod(r, k);
    lemma_multiple_in_window(r as int, sum as int, a as int);
}

/// Rounds `pos` up to the next multiple of `alignment`.
pub fn align(pos: usize, alignment: usize) -> (aligned: usize)
    ensures
        aligned == spec_align(pos, alignment),
        crate::spec_is_valid_alignment(alignment) && pos + alignment - 1 <= usize::MAX ==> aligned
            == spec_round_up(pos as int, alignment as int),
{
    proof {
        if crate::spec_is_valid_alignment(alignment) && pos + alignment - 1 <= usize::MAX {
            lemma_align_rounds_up(pos, alignment);
        }
    }
    ((pos as u64).wrapping_add(alignment as u64).wrapping_sub(1) & 0u64.wrapping_sub(
        alignment as u64,
    )) as usize
}

/// `d` is positive and divides `n`.
pub open spec fn spec_divides(d: int, n: int) -> bool {
    d > 0 && n % d == 0
}

/// `g` is the greatest common divisor of `a` and `b`: the greatest number
/// that divides both, and zero where both are zero.
pub open spec fn spec_is_gcd(g: int, a: int, b: int) -> bool {
    if a == 0 && b == 0 {
        g == 0
    } else {
        &&& spec_divides(g, a)
        &&& spec_divides(g, b)
        &&& forall|d: int| #[trigger] spec_divides(d, a) && spec_divides(d, b) ==> d <= g
    }
}

/// `m` is the least common multiple of `a` and `b`: the least positive
/// number that both divide, and zero where one of them is zero.
pub open spec fn spec_is_lcm(m: int, a: int, b: int) -> bool {
    if a == 0 || b == 0 {
        m == 0
    } else {
        &&& spec_divides(a, m)
        &&& spec_divides(b, m)
        &&& m > 0
        &&& forall|c: int| c > 0 && #[trigger] spec_divides(a, c) && spec_divides(b, c) ==> m <= c
    }
}

/// The greatest common divisor, from `num::integer::gcd`.
#[verifier::external_body]
pub(crate) fn num_gcd(a: u64, b: u64) -> (g: u64)
    ensures
        spec_is_gcd(g as int, a as int, b as int),
{
    num::integer::gcd(a, b)
}

/// The least common multiple, from `num::integer::lcm`, which multiplies
/// one number by the other's quotient with their greatest common divisor;
/// that product does not overflow where some common multiple fits.
#[verifier::external_body]
pub(crate) fn num_lcm(a: usize, b: usize) -> (m: usize)
    requires
        a == 0 || b == 0 || exists|c: int|
            0 < c <= usize::MAX && #[trigger] spec_divides(a as int, c) && spec_divides(
                b as int,
                c,
            ),
    ensures
        spec_is_lcm(m as int, a as int, b as int),
{
    num::integer::lcm(a, b)
}

/// A positive multiple of a positive number is not below it.
pub proof fn lemma_multiple_not_below(m: int, b: int)
    requires
        m > 0,
        spec_divides(b, m),
    ensures
        b <= m,
{
    vstd::arithmetic::div_mod::lemma_fundamental_div_mod(m, b);
    let q = m / b;
    assert(b <= m) by (nonlinear_arith)
        requires
            m == b * q,
            m > 0,
            b > 0,
    ;
}

/// The least common multiple of two powers of two is the larger of them.
pub proof fn lemma_lcm_of_powers_of_two(m: int, a: int, b: int)
    requires
        spec_is_power_of_two(a),
        spec_is_power_of_two(b),
        spec_is_lcm(m, a, b),
    ensures
        m == if a <= b { b } else { a },
        spec_is_power_of_two(m),
{
    if a <= b {
        lemma_power_of_two_divides(a, b);
        assert(spec_divides(a, b));
        lemma_multiple_not_below(m, b);
    } else {
        lemma_power_of_two_divides(b, a);
        assert(spec_divides(a, a));
        lemma_multiple_not_below(m, a);
    }
}

/// The greatest common divisor of 4, 2 or 1 with another number: the
/// largest of 4, 2 and 1 that divides both.
pub proof fn lemma_gcd_with_small(r: int, g: int, x: int)
    requires
        g == 1 || g == 2 || g == 4,
        x >= 0,
        spec_is_gcd(r, g, x),
    ensures
        r == if x % 4 == 0 {
            g
        } else if x % 2 == 0 && g >= 2 {
            2
        } else {
            1
        },
{
    lemma_multiple_not_below(g, r);
    assert(spec_divides(2, g) && spec_divides(2, x) ==> 2 <= r);
    assert(spec_divides(4, g) && spec_divides(4, x) ==> 4 <= r);
    if r == 3 {
        assert(g % 3 != 0);
    }
}

/// 1, 2 and 4 are valid alignments.
pub proof fn lemma_small_alignments_are_valid()
    ensures
        spec_is_power_of_two(1),
        spec_is_power_of_two(2),
        spec_is_power_of_two(4),
{
    lemma2_to64();
}

/// Rounds a position up to a multiple of a valid alignment, unless that
/// multiple lies beyond what 32 bits hold.
pub fn align_within_u32(pos: usize, alignment: usize) -> (aligned: Option<usize>)
    requires
        crate::spec_is_valid_alignment(alignment),
        pos <= u32::MAX,
    ensures
        aligned is Some <==> spec_round_up(pos as int, alignment as int) <= u32::MAX,
        aligned matches Some(v) ==> v == spec_round_up(pos as int, alignment as int),
{
    proof {
        lemma2_to64();
        lemma_power_of_two_divides(alignment as int, alignment as int);
        lemma_round_up(pos as int, alignment as int);
    }
    let ghost rounded = spec_round_up(pos as int, alignment as int);
    if pos == 0 {
        proof {
            lemma_multiple_in_window(0, alignment - 1, alignment as int);
        }
        return Some(0);
    }
    if alignment > 0x8000_0000 {
        proof {
            // a power of two above 2^31 is at least 2^32, and so is every
            // positive multiple of it
            let k = choose|k: nat| alignment == pow2(k);
            if k < 31 {
                lemma_pow2_strictly_increases(k, 31);
            }
            if k > 32 {
                lemma_pow2_strictly_increases(32, k);
            }
            lemma_multiple_not_below(rounded, alignment as int);
        }
        return None;
    }
    if pos > 0xFFFF_FFFF - (alignment - 1) {
        proof {
            // the multiples of the alignment come to 2^32, and none lies
            // between the last one below it and 2^32 itself
            assert(spec_is_power_of_two(0x1_0000_0000));
            lemma_power_of_two_divides(alignment as int, 0x1_0000_0000);
            let top: int = 0x1_0000_0000 - alignment;
            assert(top % (alignment as int) == 0) by {
                vstd::arithmetic::div_mod::lemma_fundamental_div_mod(0x1_0000_0000, alignment as int);
                let q = 0x1_0000_0000int / (alignment as int);
                assert(top == (alignment as int) * (q - 1)) by (nonlinear_arith)
                    requires
                        0x1_0000_0000 == (alignment as int) * q,
                        top == 0x1_0000_0000 - alignment,
                ;
                vstd::arithmetic::mul::lemma_mul_is_commutative(alignment as int, q - 1);
                vstd::arithmetic::div_mod::lemma_mod_multiples_basic(q - 1, alignment as int);
            }
            if rounded <= u32::MAX {
                lemma_multiple_in_window(rounded, 0xFFFF_FFFF, alignment as int);
                lemma_multiple_in_window(top, 0xFFFF_FFFF, alignment as int);
            }
        }
        return None;
    }
    Some(align(pos, alignment))
}

} // verus!
