use vstd::prelude::*;

verus! {

/// Greatest common divisor, by Euclid's rule.
pub open spec fn gcd(a: nat, b: nat) -> nat
    decreases b,
{
    if b == 0 {
        a
    } else {
        gcd(b, a % b)
    }
}

/// Least common multiple; zero when either side is zero.
pub open spec fn lcm(a: nat, b: nat) -> nat {
    if a == 0 || b == 0 {
        0
    } else {
        a * (b / gcd(a, b))
    }
}

pub proof fn lemma_gcd_divides(a: nat, b: nat)
    requires
        a > 0 || b > 0,
    ensures
        gcd(a, b) > 0,
        a % gcd(a, b) == 0,
        b % gcd(a, b) == 0,
    decreases b,
{
    if b > 0 {
        let r = a % b;
        lemma_gcd_divides(b, r);
        let g = gcd(b, r);
        assert(a % g == 0) by {
            vstd::arithmetic::div_mod::lemma_fundamental_div_mod(a as int, b as int);
            vstd::arithmetic::div_mod::lemma_fundamental_div_mod(b as int, g as int);
            vstd::arithmetic::div_mod::lemma_fundamental_div_mod(r as int, g as int);
            let q = a / b;
            let qb = b / g;
            let qr = r / g;
            assert(a == g * (qb * q + qr)) by (nonlinear_arith)
                requires
                    a == b * q + r,
                    b == g * qb,
                    r == g * qr,
            ;
            vstd::arithmetic::div_mod::lemma_mod_multiples_basic((qb * q + qr) as int, g as int);
        }
    }
}

/// Divisibility is transitive.
proof fn lemma_multiple_of_multiple(c: nat, x: nat, y: nat)
    requires
        c > 0,
        x > 0,
        x % c == 0,
        y % x == 0,
    ensures
        y % c == 0,
{
    vstd::arithmetic::div_mod::lemma_fundamental_div_mod(x as int, c as int);
    vstd::arithmetic::div_mod::lemma_fundamental_div_mod(y as int, x as int);
    let p = x / c;
    let q = y / x;
    assert(y == c * (p * q)) by (nonlinear_arith)
        requires
            x == c * p,
            y == x * q,
    ;
    vstd::arithmetic::div_mod::lemma_mod_multiples_basic((p * q) as int, c as int);
}

pub proof fn lemma_lcm_multiple(a: nat, b: nat)
    requires
        a > 0,
        b > 0,
    ensures
        lcm(a, b) >= a,
        lcm(a, b) >= b,
        lcm(a, b) % a == 0,
        lcm(a, b) % b == 0,
{
    lemma_gcd_divides(a, b);
    let g = gcd(a, b);
    vstd::arithmetic::div_mod::lemma_fundamental_div_mod(a as int, g as int);
    vstd::arithmetic::div_mod::lemma_fundamental_div_mod(b as int, g as int);
    let qa = a / g;
    let qb = b / g;
    assert(lcm(a, b) == a * qb);
    assert(a * qb == b * qa) by (nonlinear_arith)
        requires
            a == g * qa,
            b == g * qb,
    ;
    assert(qb >= 1 && qa >= 1) by (nonlinear_arith)
        requires
            a == g * qa,
            b == g * qb,
            a > 0,
            b > 0,
            g > 0,
    ;
    assert(a * qb >= a && b * qa >= b) by (nonlinear_arith)
        requires
            qb >= 1,
            qa >= 1,
    ;
    vstd::arithmetic::div_mod::lemma_mod_multiples_basic(qb as int, a as int);
    vstd::arithmetic::div_mod::lemma_mod_multiples_basic(qa as int, b as int);
    assert(qb * a == a * qb) by (nonlinear_arith);
    assert(qa * b == b * qa) by (nonlinear_arith);
}

/// Every divisor of `x` divides `lcm(x, y)`.
pub proof fn lemma_divisor_of_lcm(c: nat, x: nat, y: nat)
    requires
        c > 0,
        x > 0,
        y > 0,
        x % c == 0,
    ensures
        lcm(x, y) % c == 0,
{
    lemma_lcm_multiple(x, y);
    lemma_multiple_of_multiple(c, x, lcm(x, y));
}

/// Relies on num::integer::lcm: the least common multiple of two
/// unsigned integers, zero when either is zero; it multiplies, so the
/// result must fit.
#[verifier::external_body]
pub(crate) fn lcm_usize(a: usize, b: usize) -> (r: usize)
    requires
        lcm(a as nat, b as nat) <= usize::MAX,
    ensures
        r as nat == lcm(a as nat, b as nat),
{
    num::integer::lcm(a, b)
}

} // verus!
