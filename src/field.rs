//! Arithmetic in the prime field of order `2^64 - 2^32 + 1`.
use vstd::prelude::*;
use vstd::arithmetic::power::*;
use vstd::arithmetic::div_mod::*;

verus! {

/// The field's prime order.
pub const MODULUS: u64 = 0xffff_ffff_0000_0001;

pub open spec fn modulus() -> int {
    MODULUS as int
}

/// A canonical representative of a field element.
pub open spec fn is_fe(x: u64) -> bool {
    x < MODULUS
}

/// The multiplicative inverse of a non-zero element, `c^(p-2) mod p`.
pub open spec fn inverse_spec(c: u64) -> int {
    pow(c as int, (MODULUS - 2) as nat) % modulus()
}

/// `a + b` in the field.
pub fn fe_add(a: u64, b: u64) -> (r: u64)
    requires
        is_fe(a),
        is_fe(b),
    ensures
        r as int == (a + b) % modulus(),
{
    let s: u128 = a as u128 + b as u128;
    (s % (MODULUS as u128)) as u64
}

/// `a - b` in the field.
pub fn fe_sub(a: u64, b: u64) -> (r: u64)
    requires
        is_fe(a),
        is_fe(b),
    ensures
        r as int == (a - b) % modulus(),
{
    if a >= b {
        proof {
            lemma_small_mod((a - b) as nat, MODULUS as nat);
        }
        a - b
    } else {
        let r: u64 = ((a as u128 + MODULUS as u128) - b as u128) as u64;
        proof {
            lemma_small_mod((a - b + modulus()) as nat, MODULUS as nat);
            lemma_mod_add_multiples_vanish(a - b, modulus());
        }
        r
    }
}

/// `a * b` in the field.
pub fn fe_mul(a: u64, b: u64) -> (r: u64)
    requires
        is_fe(a),
        is_fe(b),
    ensures
        r as int == (a * b) % modulus(),
{
    proof {
        assert((a as int) * (b as int) <= 0xffff_ffff_ffff_ffffu64 as int * 0xffff_ffff_ffff_ffffu64 as int)
            by (nonlinear_arith)
            requires
                a <= 0xffff_ffff_ffff_ffffu64,
                b <= 0xffff_ffff_ffff_ffffu64,
        ;
    }
    let p: u128 = a as u128 * b as u128;
    (p % (MODULUS as u128)) as u64
}

/// `b^e mod p`, by repeated squaring.
pub fn fe_pow(b: u64, e: u64) -> (r: u64)
    requires
        is_fe(b),
    ensures
        r as int == pow(b as int, e as nat) % modulus(),
        is_fe(r),
    decreases e,
{
    if e == 0 {
        proof {
            lemma_pow0(b as int);
            lemma_small_mod(1, MODULUS as nat);
        }
        1
    } else {
        let h = fe_pow(b, e / 2);
        let sq = fe_mul(h, h);
        proof {
            let half = pow(b as int, (e / 2) as nat);
            lemma_pow_adds(b as int, (e / 2) as nat, (e / 2) as nat);
            lemma_mul_mod_noop(half, half, modulus());
        }
        assert(sq as int == pow(b as int, ((e / 2) + (e / 2)) as nat) % modulus());
        if e % 2 == 0 {
            assert((e / 2) + (e / 2) == e);
            sq
        } else {
            let r = fe_mul(sq, b);
            proof {
                let even = pow(b as int, ((e / 2) + (e / 2)) as nat);
                lemma_pow_adds(b as int, ((e / 2) + (e / 2)) as nat, 1);
                lemma_pow1(b as int);
                lemma_small_mod(b as nat, MODULUS as nat);
                lemma_mul_mod_noop(even, b as int, modulus());
                assert((e / 2) + (e / 2) + 1 == e);
            }
            r
        }
    }
}

/// The inverse of a non-zero element, by Fermat's little theorem.
pub fn fe_inverse(c: u64) -> (r: u64)
    requires
        is_fe(c),
    ensures
        r as int == inverse_spec(c),
        is_fe(r),
{
    fe_pow(c, MODULUS - 2)
}

} // verus!
