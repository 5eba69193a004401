//! Greatest common divisors, by which backend weights are brought to lowest terms.

use vstd::arithmetic::div_mod::lemma_fundamental_div_mod;
use vstd::arithmetic::div_mod::lemma_truncate_middle;
use vstd::prelude::*;

verus! {

/// `d` divides `a`.
pub open spec fn divides(d: nat, a: nat) -> bool {
    exists|q: nat| a == #[trigger] (q * d)
}

/// The greatest common divisor of `a` and `b`, where 0 is divisible by everything.
pub open spec fn spec_gcd(a: nat, b: nat) -> nat
    decreases b,
{
    if b == 0 {
        a
    } else {
        spec_gcd(b, a % b)
    }
}

pub fn gcd(a: u32, b: u32) -> (g: u32)
    ensures
        g == spec_gcd(a as nat, b as nat),
    decreases b,
{
    if b == 0 {
        a
    } else {
        gcd(b, a % b)
    }
}

/// `spec_gcd` is a common divisor, and every common divisor divides it.
pub proof fn law_gcd_is_greatest_common_divisor(a: nat, b: nat)
    ensures
        divides(spec_gcd(a, b), a),
        divides(spec_gcd(a, b), b),
        forall|d: nat| #[trigger] divides(d, a) && divides(d, b) ==> divides(d, spec_gcd(a, b)),
    decreases b,
{
    if b == 0 {
        assert(a == 1 * a);
        assert(b == 0 * a);
    } else {
        let r = a % b;
        let q = a / b;
        let g = spec_gcd(b, r);
        lemma_fundamental_div_mod(a as int, b as int);
        law_gcd_is_greatest_common_divisor(b, r);
        let x = choose|x: nat| b == #[trigger] (x * g);
        let y = choose|y: nat| r == #[trigger] (y * g);
        assert(a == (q * x + y) * g) by (nonlinear_arith)
            requires
                a == b * q + r,
                b == x * g,
                r == y * g,
        ;
        assert forall|d: nat| #[trigger] divides(d, a) && divides(d, b) implies divides(d, g) by {
            let s = choose|s: nat| a == #[trigger] (s * d);
            let t = choose|t: nat| b == #[trigger] (t * d);
            let m = s - t * q;
            assert(r == m * d) by (nonlinear_arith)
                requires
                    a == b * q + r,
                    a == s * d,
                    b == t * d,
                    m == s - t * q,
            ;
            if m < 0 {
                assert(r == 0) by (nonlinear_arith)
                    requires
                        r == m * d,
                        m < 0,
                        r >= 0,
                        d >= 0,
                ;
                assert(r == 0nat * d);
            } else {
                assert(r == (m as nat) * d);
            }
            assert(divides(d, r));
        }
    }
}

/// Scaling both numbers scales their greatest common divisor.
pub proof fn lemma_gcd_scales(k: nat, a: nat, b: nat)
    requires
        k > 0,
    ensures
        spec_gcd(k * a, k * b) == k * spec_gcd(a, b),
    decreases b,
{
    if b == 0 {
        assert(k * b == 0) by (nonlinear_arith)
            requires
                b == 0,
        ;
    } else {
        assert(k * b > 0) by (nonlinear_arith)
            requires
                k > 0,
                b > 0,
        ;
        lemma_truncate_middle(a as int, k as int, b as int);
        lemma_gcd_scales(k, b, a % b);
    }
}

} // verus!
