//! Modular exponentiation by square-and-multiply, the arithmetic core of the
//! Diffie-Hellman key agreement.

use vstd::prelude::*;
use vstd::arithmetic::div_mod::{lemma_mul_mod_noop_general, lemma_small_mod};
use vstd::arithmetic::mul::{lemma_mul_is_associative, lemma_mul_is_commutative};
use vstd::arithmetic::power::{
    lemma1_pow, lemma_pow0, lemma_pow1, lemma_pow_adds, lemma_pow_mod_noop, lemma_pow_multiplies,
    lemma_square_is_pow2, pow,
};

verus! {

/// What square-and-multiply computes: `base^exp mod modulus` for a positive
/// exponent. For exponent zero the loop never touches its initial accumulator,
/// so the result is 1 even when the modulus is 1.
pub open spec fn mod_pow_spec(base: nat, exp: nat, modulus: nat) -> nat
    recommends
        modulus >= 1,
{
    if exp == 0 {
        1
    } else {
        (pow(base as int, exp) % (modulus as int)) as nat
    }
}

/// For a modulus greater than 1 the accumulator convention is invisible:
/// `mod_pow_spec` agrees with the mathematical `base^exp mod modulus`
/// (computed by repeated multiplication, which is how `pow` is defined)
/// on every input.
pub proof fn lemma_mod_pow_spec_is_pow_mod(base: nat, exp: nat, modulus: nat)
    requires
        modulus > 1,
    ensures
        mod_pow_spec(base, exp, modulus) == pow(base as int, exp) % (modulus as int),
{
    if exp == 0 {
        lemma_pow0(base as int);
        lemma_small_mod(1, modulus);
    }
}

/// One halving step of the loop preserves the accumulator congruence.
proof fn lemma_square_and_multiply_step(r0: int, b0: int, e0: nat, m: int, base: int, exp: nat)
    requires
        m >= 1,
        r0 >= 0,
        b0 >= 0,
        e0 > 0,
        (r0 * pow(b0, e0)) % m == pow(base, exp) % m,
    ensures
        e0 % 2 == 1 ==> (((r0 * b0) % m) * pow((b0 * b0) % m, e0 / 2)) % m == pow(base, exp) % m,
        e0 % 2 == 0 ==> (r0 * pow((b0 * b0) % m, e0 / 2)) % m == pow(base, exp) % m,
{
    let h = e0 / 2;
    lemma_square_is_pow2(b0);
    lemma_pow_multiplies(b0, 2, h);
    assert(pow(b0 * b0, h) == pow(b0, 2 * h));
    lemma_pow_mod_noop(b0 * b0, h, m);
    if e0 % 2 == 1 {
        assert(e0 == 2 * h + 1);
        lemma_pow_adds(b0, 2 * h, 1);
        lemma_pow1(b0);
        assert(pow(b0, e0) == pow(b0 * b0, h) * b0);
        let rb = r0 * b0;
        let pm = pow((b0 * b0) % m, h);
        let pp = pow(b0 * b0, h);
        assert(((rb % m) * pm) % m == (rb * pm) % m) by {
            lemma_mul_mod_noop_general(rb, pm, m);
        }
        assert((rb * pm) % m == (rb * pp) % m) by {
            lemma_mul_mod_noop_general(rb, pm, m);
            lemma_mul_mod_noop_general(rb, pp, m);
        }
        assert(rb * pp == r0 * (pp * b0)) by {
            lemma_mul_is_associative(r0, b0, pp);
            lemma_mul_is_commutative(b0, pp);
            lemma_mul_is_associative(r0, pp, b0);
        }
        assert((((r0 * b0) % m) * pow((b0 * b0) % m, h)) % m == (r0 * pow(b0, e0)) % m);
    } else {
        assert(e0 == 2 * h);
        assert(pow(b0, e0) == pow(b0 * b0, h));
        let pm = pow((b0 * b0) % m, h);
        let pp = pow(b0 * b0, h);
        assert((r0 * pm) % m == (r0 * pp) % m) by {
            lemma_mul_mod_noop_general(r0, pm, m);
            lemma_mul_mod_noop_general(r0, pp, m);
        }
    }
}

/// `base^exponent mod modulus` for 64-bit operands, by square-and-multiply.
/// Every multiplication is carried out in 128 bits before being reduced, so
/// no intermediate value can overflow.
pub fn mod_pow(base: u64, exp: u64, modulus: u64) -> (r: u64)
    requires
        modulus >= 1,
    ensures
        r == mod_pow_spec(base as nat, exp as nat, modulus as nat),
        modulus > 1 ==> r == pow(base as int, exp as nat) % (modulus as int),
{
    let mut result: u128 = 1;
    let mut b: u128 = base as u128;
    let mut e: u64 = exp;
    let m: u128 = modulus as u128;

    while e > 0
        invariant
            m == modulus,
            1 <= m <= u64::MAX,
            b <= u64::MAX,
            result <= u64::MAX,
            result == 1 || result < m,
            e == 0 && exp > 0 ==> result < m,
            exp == 0 ==> result == 1 && e == 0,
            (result as int * pow(b as int, e as nat)) % (m as int)
                == pow(base as int, exp as nat) % (m as int),
        decreases e,
    {
        let ghost r0 = result as int;
        let ghost b0 = b as int;
        let ghost e0 = e as nat;
        proof {
            lemma_square_and_multiply_step(r0, b0, e0, m as int, base as int, exp as nat);
            assert(r0 * b0 <= 0xFFFF_FFFF_FFFF_FFFF * 0xFFFF_FFFF_FFFF_FFFF)
                by (nonlinear_arith)
                requires
                    0 <= r0 <= 0xFFFF_FFFF_FFFF_FFFF,
                    0 <= b0 <= 0xFFFF_FFFF_FFFF_FFFF,
            ;
            assert(b0 * b0 <= 0xFFFF_FFFF_FFFF_FFFF * 0xFFFF_FFFF_FFFF_FFFF)
                by (nonlinear_arith)
                requires
                    0 <= b0 <= 0xFFFF_FFFF_FFFF_FFFF,
            ;
        }
        if e % 2 == 1 {
            result = (result * b) % m;
        }
        b = (b * b) % m;
        e = e / 2;
    }
    proof {
        lemma_pow0(b as int);
        if exp > 0 {
            lemma_small_mod(result as nat, m as nat);
            assert(result as int == pow(base as int, exp as nat) % (m as int));
        }
        if modulus > 1 {
            lemma_mod_pow_spec_is_pow_mod(base as nat, exp as nat, modulus as nat);
        }
    }
    result as u64
}

/// Towering two exponentiations collapses into one: for positive exponents,
/// `(g^x mod p)^y mod p == g^(x*y) mod p`.
proof fn lemma_mod_pow_tower(g: nat, x: nat, y: nat, p: nat)
    requires
        p > 1,
        x > 0,
        y > 0,
    ensures
        mod_pow_spec(mod_pow_spec(g, x, p), y, p) == pow(g as int, (x * y) as nat) % (p as int),
{
    let gi = g as int;
    let pi = p as int;
    let inner = mod_pow_spec(g, x, p);
    assert(inner as int == pow(gi, x) % pi);
    lemma_pow_mod_noop(pow(gi, x), y, pi);
    lemma_pow_multiplies(gi, x, y);
    assert(mod_pow_spec(inner, y, p) == (pow(inner as int, y) % pi) as nat);
}

/// Diffie-Hellman symmetry: raising the generator to the two private
/// exponents in either order yields the same value, so both peers derive
/// the same shared secret.
pub proof fn lemma_mod_pow_symmetry(g: nat, a: nat, b: nat, p: nat)
    requires
        p > 1,
    ensures
        mod_pow_spec(mod_pow_spec(g, a, p), b, p) == mod_pow_spec(mod_pow_spec(g, b, p), a, p),
{
    if a == 0 && b == 0 {
    } else if a == 0 {
        lemma1_pow(b);
        lemma_small_mod(1, p);
        assert(mod_pow_spec(mod_pow_spec(g, a, p), b, p) == 1);
    } else if b == 0 {
        lemma1_pow(a);
        lemma_small_mod(1, p);
        assert(mod_pow_spec(mod_pow_spec(g, b, p), a, p) == 1);
    } else {
        lemma_mod_pow_tower(g, a, b, p);
        lemma_mod_pow_tower(g, b, a, p);
        lemma_mul_is_commutative(a as int, b as int);
    }
}

} // verus!
