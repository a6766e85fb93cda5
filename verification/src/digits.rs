//! Base-`B` digit arithmetic: the pure mathematics behind the base-split
//! range-check gadget.  A 64-bit value is decomposed into little-endian
//! digits in an arbitrary base, every digit is a canonical representative,
//! and recombining the digits gives the value back exactly.

use vstd::prelude::*;
use vstd::arithmetic::div_mod::{
    lemma_div_denominator, lemma_fundamental_div_mod, lemma_mod_breakdown,
    lemma_remainder_lower, lemma_remainder_upper,
};
use vstd::arithmetic::mul::{lemma_mul_inequality, lemma_mul_nonnegative,
    lemma_mul_strict_upper_bound, lemma_mul_strictly_increases};
use vstd::arithmetic::power::{lemma_pow_adds, lemma_pow_positive, pow};
use vstd::arithmetic::power2::{lemma2_to64, lemma2_to64_rest, lemma_pow2, lemma_pow2_adds,
    lemma_pow2_pos, lemma_pow2_strictly_increases, pow2};

verus! {

/// The base-`base` digit of `x` at little-endian position `i`.
pub open spec fn nth_digit(x: int, base: int, i: nat) -> int {
    (x / pow(base, i)) % base
}

/// The first `k` little-endian base-`base` digits of `x`.
pub open spec fn digit_seq(x: int, base: int, k: nat) -> Seq<int> {
    Seq::new(k, |i: int| nth_digit(x, base, i as nat))
}

/// The value of a little-endian digit sequence in the given base.
pub open spec fn recombine(digits: Seq<int>, base: int) -> int
    decreases digits.len(),
{
    if digits.len() == 0 {
        0
    } else {
        digits[0] + base * recombine(digits.drop_first(), base)
    }
}

/// Number of trailing zero bits of `x` (64 for `x == 0`).
pub open spec fn trailing_zero_bits(x: u64) -> nat {
    if x == 0 {
        64
    } else {
        tz_pos(x as int)
    }
}

/// Trailing zero bits of a positive integer.
pub open spec fn tz_pos(x: int) -> nat
    decreases x,
{
    if x <= 0 || x % 2 == 1 {
        0
    } else {
        1 + tz_pos(x / 2)
    }
}

/// Returns the least `r` with `base^r >= 2^n`: how many trailing base-`base`
/// digits must vanish before at least `n` trailing binary zero bits are even
/// possible.  Computed exactly, by comparing powers.
pub fn num_limbs_to_check(n: u32, base: usize) -> (r: usize)
    requires
        2 <= base,
        n <= 64,
    ensures
        pow2(n as nat) <= pow(base as int, r as nat),
        r > 0 ==> pow(base as int, (r - 1) as nat) < pow2(n as nat),
        r <= n,
        r == spec_num_limbs(base as int, n as nat),
{
    let goal: u128 = pow2_u128(n);
    let mut k: usize = 0;
    let mut p: u128 = 1;
    proof {
        reveal(pow);
        assert(pow(base as int, 0) == 1);
    }
    while p < goal
        invariant
            2 <= base,
            n <= 64,
            goal == pow2(n as nat),
            p == pow(base as int, k as nat),
            k > 0 ==> pow(base as int, (k - 1) as nat) < pow2(n as nat),
            k <= n,
        decreases n - k,
    {
        proof {
            reveal(pow);
            // p * base == pow(base, k + 1) and fits in u128.
            lemma_pow_adds(base as int, k as nat, 1);
            assert(pow(base as int, 1) == base) by {
                assert(pow(base as int, 1) == base * pow(base as int, 0));
            }
            lemma2_to64();
            lemma2_to64_rest();
            assert(pow2(n as nat) <= pow2(64)) by {
                if n < 64 {
                    lemma_pow2_strictly_increases(n as nat, 64);
                }
            }
            lemma_pow_positive(base as int, k as nat);
            assert(p * base <= 0xffffffffffffffff * 0xffffffffffffffff) by {
                lemma_mul_strict_upper_bound(
                    p as int, 0x10000000000000000, base as int, 0x10000000000000000);
            }
            assert(0xffffffffffffffff * 0xffffffffffffffff
                <= 0xffffffffffffffffffffffffffffffff) by (nonlinear_arith);
            // strictly increases, for termination
            lemma_mul_strictly_increases(base as int, p as int);
            vstd::arithmetic::mul::lemma_mul_is_commutative(base as int, p as int);
            // the loop can only continue while k < n
            lemma_pow2_le_pow(base as int, k as nat);
            assert(pow2(k as nat) < pow2(n as nat));
            if k as nat >= n as nat {
                if k as nat > n as nat {
                    lemma_pow2_strictly_increases(n as nat, k as nat);
                }
                assert(false);
            }
        }
        p = p * (base as u128);
        k = k + 1;
    }
    proof {
        let k0 = choose|kk: nat| pow2(n as nat) <= #[trigger] pow(base as int, kk)
            && (kk == 0 || pow(base as int, (kk - 1) as nat) < pow2(n as nat));
        assert(pow2(n as nat) <= pow(base as int, k0)
            && (k0 == 0 || pow(base as int, (k0 - 1) as nat) < pow2(n as nat)));
        lemma_num_limbs_unique(base as int, n as nat, k0, k as nat);
    }
    k
}

/// `2^n` as a `u128`, for `n <= 64`.
fn pow2_u128(n: u32) -> (r: u128)
    requires
        n <= 64,
    ensures
        r == pow2(n as nat),
{
    let mut goal: u128 = 1;
    let mut i: u32 = 0;
    proof {
        lemma2_to64();
    }
    while i < n
        invariant
            i <= n,
            n <= 64,
            goal == pow2(i as nat),
        decreases n - i,
    {
        proof {
            lemma_pow2_adds(i as nat, 1);
            lemma2_to64();
            lemma_pow2_strictly_increases(i as nat, 64);
        }
        goal = goal * 2;
        i = i + 1;
    }
    goal
}

/// `2^e <= base^e` for `base >= 2`.
pub proof fn lemma_pow2_le_pow(base: int, e: nat)
    requires
        base >= 2,
    ensures
        pow2(e) <= pow(base, e),
    decreases e,
{
    reveal(pow);
    lemma_pow2(e);
    if e > 0 {
        lemma_pow2_le_pow(base, (e - 1) as nat);
        lemma_pow2((e - 1) as nat);
        lemma_pow_positive(2, (e - 1) as nat);
        assert(pow(2, e) == 2 * pow(2, (e - 1) as nat));
        assert(pow(base, e) == base * pow(base, (e - 1) as nat));
        lemma_mul_inequality(2, base, pow(2, (e - 1) as nat));
        assert(base * pow(2, (e - 1) as nat) <= base * pow(base, (e - 1) as nat)) by {
            vstd::arithmetic::mul::lemma_mul_left_inequality(
                base, pow(2, (e - 1) as nat), pow(base, (e - 1) as nat));
        }
    }
}

/// Splits `x` into its `k` little-endian base-`base` digits.  Every returned
/// digit is the canonical digit of `x` at its position, hence below `base`.
pub fn split_digits(x: u64, base: u64, k: usize) -> (digits: Vec<u64>)
    requires
        2 <= base,
        x < pow(base as int, k as nat),
    ensures
        digits.len() == k,
        forall|i: int| 0 <= i < k ==> digits[i] == nth_digit(x as int, base as int, i as nat),
        forall|i: int| 0 <= i < k ==> digits[i] < base,
{
    let mut digits: Vec<u64> = Vec::new();
    let mut cur: u64 = x;
    let mut i: usize = 0;
    proof {
        reveal(pow);
        assert(pow(base as int, 0) == 1);
        assert(x as int / 1 == x as int) by {
            lemma_fundamental_div_mod(x as int, 1);
        }
    }
    while i < k
        invariant
            2 <= base,
            x < pow(base as int, k as nat),
            i <= k,
            digits.len() == i,
            cur == x as int / pow(base as int, i as nat),
            forall|j: int| 0 <= j < i ==> digits[j] == nth_digit(x as int, base as int, j as nat),
            forall|j: int| 0 <= j < i ==> digits[j] < base,
        decreases k - i,
    {
        let d = cur % base;
        proof {
            reveal(pow);
            lemma_pow_positive(base as int, i as nat);
            assert(d == nth_digit(x as int, base as int, i as nat));
            lemma_remainder_upper(cur as int, base as int);
            // cur / base == x / pow(base, i + 1)
            lemma_div_denominator(x as int, pow(base as int, i as nat), base as int);
            lemma_pow_adds(base as int, i as nat, 1);
            assert(pow(base as int, 1) == base) by {
                assert(pow(base as int, 1) == base * pow(base as int, 0));
            }
            assert(pow(base as int, i as nat) * base == pow(base as int, i as nat + 1));
        }
        digits.push(d);
        cur = cur / base;
        i = i + 1;
    }
    digits
}

/// Round-trip law for the decomposition: recombining the `k` canonical
/// base-`base` digits of `x` gives back exactly `x`, and every digit is a
/// canonical representative (at least zero and below the base).
pub proof fn lemma_round_trip_decomposition(x: int, base: int, k: nat)
    requires
        2 <= base,
        0 <= x < pow(base, k),
    ensures
        recombine(digit_seq(x, base, k), base) == x,
        forall|i: nat| i < k ==> 0 <= #[trigger] nth_digit(x, base, i) < base,
    decreases k,
{
    reveal(pow);
    assert forall|i: nat| i < k implies 0 <= #[trigger] nth_digit(x, base, i) < base by {
        lemma_pow_positive(base, i);
        vstd::arithmetic::div_mod::lemma_div_pos_is_pos(x, pow(base, i));
        lemma_remainder_lower(x / pow(base, i), base);
        lemma_remainder_upper(x / pow(base, i), base);
    }
    let s = digit_seq(x, base, k);
    if k == 0 {
        assert(pow(base, 0) == 1);
        assert(recombine(s, base) == 0);
    } else {
        let x1 = x / base;
        assert(pow(base, k) == base * pow(base, (k - 1) as nat));
        lemma_pow_positive(base, (k - 1) as nat);
        assert(0 <= x1 < pow(base, (k - 1) as nat)) by {
            vstd::arithmetic::div_mod::lemma_div_pos_is_pos(x, base);
            if x1 >= pow(base, (k - 1) as nat) {
                lemma_mul_inequality(pow(base, (k - 1) as nat), x1, base);
                vstd::arithmetic::mul::lemma_mul_is_commutative(base, x1);
                vstd::arithmetic::mul::lemma_mul_is_commutative(base, pow(base, (k - 1) as nat));
                lemma_fundamental_div_mod(x, base);
                lemma_remainder_lower(x, base);
                assert(false);
            }
        }
        lemma_round_trip_decomposition(x1, base, (k - 1) as nat);
        // The tail of the digit sequence of x is the digit sequence of x / base.
        assert(s.drop_first() =~= digit_seq(x1, base, (k - 1) as nat)) by {
            assert forall|i: int| 0 <= i < k - 1 implies s.drop_first()[i]
                == digit_seq(x1, base, (k - 1) as nat)[i] by {
                lemma_pow_positive(base, i as nat);
                lemma_div_denominator(x, base, pow(base, i as nat));
                assert(pow(base, i as nat + 1) == base * pow(base, i as nat));
                assert(x / pow(base, i as nat + 1) == x1 / pow(base, i as nat));
            }
        }
        assert(s[0] == x % base) by {
            assert(pow(base, 0) == 1);
            lemma_fundamental_div_mod(x, 1);
        }
        lemma_fundamental_div_mod(x, base);
        assert(recombine(s, base) == x % base + base * x1);
    }
}

/// The first `t` base-`base` digits of `x` vanish exactly when `base^t`
/// divides `x`.
pub proof fn lemma_low_digits_zero_iff_divides(x: int, base: int, t: nat)
    requires
        2 <= base,
        0 <= x,
    ensures
        (forall|i: nat| i < t ==> nth_digit(x, base, i) == 0) <==> x % pow(base, t) == 0,
    decreases t,
{
    reveal(pow);
    if t == 0 {
        assert(pow(base, 0) == 1);
        lemma_fundamental_div_mod(x, 1);
    } else {
        let x1 = x / base;
        let p1 = pow(base, (t - 1) as nat);
        lemma_pow_positive(base, (t - 1) as nat);
        vstd::arithmetic::div_mod::lemma_div_pos_is_pos(x, base);
        lemma_low_digits_zero_iff_divides(x1, base, (t - 1) as nat);
        // Digit shift: digit i + 1 of x is digit i of x / base.
        assert forall|i: nat| i < t - 1 implies nth_digit(x, base, i + 1)
            == nth_digit(x1, base, i) by {
            lemma_pow_positive(base, i);
            lemma_div_denominator(x, base, pow(base, i));
            assert(pow(base, i + 1) == base * pow(base, i));
        }
        assert(nth_digit(x, base, 0) == x % base) by {
            assert(pow(base, 0) == 1);
            lemma_fundamental_div_mod(x, 1);
        }
        // x % (base * p1) == base * (x1 % p1) + x % base
        lemma_mod_breakdown(x, base, p1);
        assert(pow(base, t) == base * p1);
        lemma_remainder_lower(x, base);
        lemma_remainder_upper(x, base);
        lemma_remainder_lower(x1, p1);
        lemma_mul_nonnegative(base, x1 % p1);
        if x % base == 0 && x1 % p1 == 0 {
            assert(x % (base * p1) == base * (x1 % p1) + x % base);
            assert(base * (x1 % p1) == 0) by {
                vstd::arithmetic::mul::lemma_mul_by_zero_is_zero(base);
            }
            assert(x % pow(base, t) == 0);
        }
        if x % pow(base, t) == 0 {
            assert(base * (x1 % p1) + x % base == 0);
            assert(x % base == 0 && base * (x1 % p1) == 0);
            assert(x1 % p1 == 0) by {
                if x1 % p1 > 0 {
                    vstd::arithmetic::mul::lemma_mul_strictly_positive(base, x1 % p1);
                }
            }
        }
        if forall|i: nat| i < t ==> nth_digit(x, base, i) == 0 {
            assert(nth_digit(x, base, 0) == 0);
            assert forall|i: nat| i < t - 1 implies nth_digit(x1, base, i) == 0 by {
                assert(nth_digit(x, base, i + 1) == 0);
            }
        }
        if x % pow(base, t) == 0 {
            assert forall|i: nat| i < t implies nth_digit(x, base, i) == 0 by {
                if i > 0 {
                    assert(nth_digit(x1, base, (i - 1) as nat) == 0);
                }
            }
        }
    }
}

/// `2^n` divides `x` exactly when `x` has at least `n` trailing zero bits.
pub proof fn lemma_pow2_divides_iff_trailing_zeros(x: u64, n: nat)
    requires
        n <= 64,
    ensures
        (x as int) % (pow2(n) as int) == 0 <==> n <= trailing_zero_bits(x),
    decreases n,
{
    lemma_pow2_pos(n);
    lemma2_to64();
    if x == 0 {
        vstd::arithmetic::div_mod::lemma_small_mod(0, pow2(n));
    } else if n == 0 {
        vstd::arithmetic::div_mod::lemma_div_basics_2(x as int);
        lemma_fundamental_div_mod(x as int, 1);
        assert((x as int) % 1 == 0);
    } else {
        let x1 = (x as int) / 2;
        lemma_pow2_adds(1, (n - 1) as nat);
        lemma2_to64();
        lemma_pow2_pos((n - 1) as nat);
        lemma_mod_breakdown(x as int, 2, pow2((n - 1) as nat) as int);
        lemma_remainder_lower(x as int, 2);
        lemma_remainder_upper(x as int, 2);
        lemma_remainder_lower(x1, pow2((n - 1) as nat) as int);
        lemma_mul_nonnegative(2, x1 % pow2((n - 1) as nat) as int);
        vstd::arithmetic::div_mod::lemma_div_pos_is_pos(x as int, 2);
        if x % 2 == 1 {
            // odd: not divisible and trailing_zero_bits == 0 < n
            assert((x as int) % (pow2(n) as int) != 0);
            assert(trailing_zero_bits(x) == 0);
        } else {
            let h = x / 2;
            assert(h as int == x1);
            assert(h > 0) by {
                lemma_fundamental_div_mod(x as int, 2);
            }
            lemma_pow2_divides_iff_trailing_zeros(h, (n - 1) as nat);
            assert(trailing_zero_bits(x) == 1 + tz_pos(x1)) by {
                assert(x as int > 0 && (x as int) % 2 == 0);
            }
            assert(trailing_zero_bits(h) == tz_pos(x1));
            assert((x as int) % (pow2(n) as int)
                == 2 * (x1 % (pow2((n - 1) as nat) as int)) + (x as int) % 2) by {
                assert(pow2(n) as int == 2 * (pow2((n - 1) as nat) as int));
            }
            assert((x as int) % (pow2(n) as int) == 0 <==> x1 % (pow2((n - 1) as nat) as int) == 0) by {
                if x1 % (pow2((n - 1) as nat) as int) == 0 {
                    assert((x as int) % (pow2(n) as int) == 0);
                }
                if (x as int) % (pow2(n) as int) == 0 {
                    assert(2 * (x1 % (pow2((n - 1) as nat) as int)) == 0);
                    if x1 % (pow2((n - 1) as nat) as int) > 0 {
                        vstd::arithmetic::mul::lemma_mul_strictly_positive(
                            2, x1 % (pow2((n - 1) as nat) as int));
                    }
                }
            }
            assert((h as int) % (pow2((n - 1) as nat) as int) == 0
                <==> (n - 1) as nat <= trailing_zero_bits(h));
            assert(n <= trailing_zero_bits(x) <==> (n - 1) as nat <= trailing_zero_bits(h));
        }
    }
}

/// Trailing-zero law in base 2: the first `n` binary digits of `x` vanish
/// exactly when `x` has at least `n` trailing zero bits.
pub proof fn lemma_trailing_zero_soundness_base2(x: u64, n: nat)
    requires
        n <= 64,
    ensures
        (forall|i: nat| i < n ==> nth_digit(x as int, 2, i) == 0)
            <==> n <= trailing_zero_bits(x),
{
    lemma_low_digits_zero_iff_divides(x as int, 2, n);
    lemma_pow2(n);
    lemma_pow2_divides_iff_trailing_zeros(x, n);
}

/// The least `k` with `base^k >= 2^n`, as a specification value.
pub open spec fn spec_num_limbs(base: int, n: nat) -> nat {
    choose|k: nat| pow2(n) <= #[trigger] pow(base, k) && (k == 0 || pow(base, (k - 1) as nat) < pow2(n))
}

/// Minimality pins the limb count down uniquely.
pub proof fn lemma_num_limbs_unique(base: int, n: nat, k1: nat, k2: nat)
    requires
        2 <= base,
        pow2(n) <= pow(base, k1),
        k1 == 0 || pow(base, (k1 - 1) as nat) < pow2(n),
        pow2(n) <= pow(base, k2),
        k2 == 0 || pow(base, (k2 - 1) as nat) < pow2(n),
    ensures
        k1 == k2,
{
    if k1 < k2 {
        vstd::arithmetic::power::lemma_pow_increases(base as nat, k1, (k2 - 1) as nat);
        assert(false);
    }
    if k2 < k1 {
        vstd::arithmetic::power::lemma_pow_increases(base as nat, k2, (k1 - 1) as nat);
        assert(false);
    }
}

} // verus!
