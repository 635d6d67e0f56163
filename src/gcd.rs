//! Greatest common divisors: the Euclidean algorithm and the facts the
//! rest of the library needs about it.
use vstd::prelude::*;
use vstd::arithmetic::div_mod::*;
use vstd::arithmetic::mul::*;

verus! {

/// Euclid's recursion; `gcd_spec(a, 0) == a`.
pub open spec fn gcd_spec(a: nat, b: nat) -> nat
    decreases b,
{
    if b == 0 {
        a
    } else {
        gcd_spec(b, a % b)
    }
}

/// The gcd divides both arguments and is positive unless both are zero.
pub proof fn lemma_gcd_divides(a: nat, b: nat)
    ensures
        (a > 0 || b > 0) ==> gcd_spec(a, b) > 0,
        gcd_spec(a, b) > 0 ==> a % gcd_spec(a, b) == 0 && b % gcd_spec(a, b) == 0,
    decreases b,
{
    if b > 0 {
        let r = a % b;
        lemma_gcd_divides(b, r);
        let g = gcd_spec(b, r);
        assert(g == gcd_spec(a, b));
        lemma_fundamental_div_mod(a as int, b as int);
        // a == b * q + r with g dividing b and r
        let q = a as int / b as int;
        lemma_fundamental_div_mod(b as int, g as int);
        lemma_fundamental_div_mod(r as int, g as int);
        let bq = b as int / g as int;
        let rq = r as int / g as int;
        assert(a == g * (bq * q + rq)) by (nonlinear_arith)
            requires
                a == b * q + r,
                b == g * bq,
                r == g * rq,
        ;
        lemma_mod_multiples_vanish(bq * q + rq, 0, g as int);
        lemma_small_mod(0, g);
    } else {
        if a > 0 {
            lemma_mod_self_0(a as int);
        }
    }
}

/// Every common divisor of `a` and `b` divides their gcd.
pub proof fn lemma_gcd_greatest(a: nat, b: nat, e: int)
    requires
        e > 0,
        (a as int) % e == 0,
        (b as int) % e == 0,
    ensures
        (gcd_spec(a, b) as int) % e == 0,
    decreases b,
{
    if b > 0 {
        let r = a % b;
        lemma_fundamental_div_mod(a as int, b as int);
        let q = a as int / b as int;
        lemma_fundamental_div_mod(a as int, e);
        lemma_fundamental_div_mod(b as int, e);
        let aq = a as int / e;
        let bq = b as int / e;
        assert(r == e * (aq - bq * q)) by (nonlinear_arith)
            requires
                a == b * q + r,
                a == e * aq,
                b == e * bq,
        ;
        lemma_mod_multiples_vanish(aq - bq * q, 0, e);
        lemma_small_mod(0, e as nat);
        lemma_gcd_greatest(b, r, e);
    }
}

/// Scaling both arguments scales the gcd.
pub proof fn lemma_gcd_scale(a: nat, b: nat, k: nat)
    requires
        k > 0,
    ensures
        gcd_spec(k * a, k * b) == k * gcd_spec(a, b),
    decreases b,
{
    if b > 0 {
        lemma_mul_strictly_positive(k as int, b as int);
        lemma_truncate_middle(a as int, k as int, b as int);
        assert((k * a) % (k * b) == k * (a % b));
        lemma_gcd_scale(b, a % b, k);
    } else {
        assert(k * b == 0);
    }
}

/// `gcd_spec(a, 1) == 1` and `gcd_spec(0, b) == b`.
pub proof fn lemma_gcd_basics(a: nat, b: nat)
    ensures
        gcd_spec(a, 1) == 1,
        gcd_spec(0, b) == b,
{
    assert(a % 1 == 0);
    assert(gcd_spec(1, 0) == 1);
    if b > 0 {
        lemma_small_mod(0, b);
        assert(gcd_spec(b, 0) == b);
    }
}

/// The gcd of two numbers, by Euclid's algorithm; `gcd(a, 0) == a`.
pub fn gcd(x: usize, y: usize) -> (r: usize)
    ensures
        r == gcd_spec(x as nat, y as nat),
        (x > 0 || y > 0) ==> r > 0 && x % r == 0 && y % r == 0,
        forall|e: int|
            e > 0 && #[trigger] ((x as int) % e) == 0 && (y as int) % e == 0 ==> (r as int) % e
                == 0,
{
    let mut first_num = x;
    let mut second_num = y;
    while second_num != 0
        invariant
            gcd_spec(first_num as nat, second_num as nat) == gcd_spec(x as nat, y as nat),
        decreases second_num,
    {
        let remainder = first_num % second_num;
        first_num = second_num;
        second_num = remainder;
    }
    proof {
        lemma_gcd_divides(x as nat, y as nat);
        assert forall|e: int|
            e > 0 && #[trigger] ((x as int) % e) == 0 && (y as int) % e == 0 implies (
            first_num as int) % e == 0 by {
            lemma_gcd_greatest(x as nat, y as nat, e);
        }
    }
    first_num
}

} // verus!
