//! Signed rationals kept in lowest terms, so that equal values have equal fields.
use vstd::prelude::*;
use vstd::arithmetic::div_mod::*;
use vstd::arithmetic::mul::*;
use crate::gcd::{gcd, gcd_spec, lemma_gcd_basics, lemma_gcd_divides, lemma_gcd_greatest, lemma_gcd_scale};

verus! {

pub open spec fn abs(n: int) -> int {
    if n < 0 {
        -n
    } else {
        n
    }
}

/// The gcd that `n / d` is reduced by.
pub open spec fn canon_gcd(n: int, d: int) -> int {
    gcd_spec(abs(n) as nat, abs(d) as nat) as int
}

/// Numerator of `n / d` in lowest terms, carrying the sign of the value.
pub open spec fn canon_num(n: int, d: int) -> int {
    if (n < 0) != (d < 0) {
        -(abs(n) / canon_gcd(n, d))
    } else {
        abs(n) / canon_gcd(n, d)
    }
}

/// Denominator of `n / d` in lowest terms, always positive.
pub open spec fn canon_den(n: int, d: int) -> int {
    abs(d) / canon_gcd(n, d)
}

/// The greatest integer not above `n / d` (for `d > 0`).
pub open spec fn floor_div(n: int, d: int) -> int {
    n / d
}

/// The least integer not below `n / d` (for `d > 0`).
pub open spec fn ceil_div(n: int, d: int) -> int {
    -((-n) / d)
}

/// What the lowest-terms form of `n / d` is.
pub proof fn lemma_canon(n: int, d: int)
    requires
        d != 0,
    ensures
        canon_den(n, d) > 0,
        canon_num(n, d) * d == n * canon_den(n, d),
        abs(canon_num(n, d)) <= abs(n),
        canon_den(n, d) <= abs(d),
        gcd_spec(abs(canon_num(n, d)) as nat, canon_den(n, d) as nat) == 1,
        n == 0 ==> canon_num(n, d) == 0 && canon_den(n, d) == 1,
        (canon_num(n, d) < 0) == (n != 0 && ((n < 0) != (d < 0))),
        canon_num(n, d) == 0 <==> n == 0,
{
    let an = abs(n);
    let ad = abs(d);
    let g = canon_gcd(n, d);
    lemma_gcd_divides(an as nat, ad as nat);
    assert(g > 0);
    lemma_fundamental_div_mod(an, g);
    lemma_fundamental_div_mod(ad, g);
    let a = an / g;
    let b = ad / g;
    assert(an == g * a);
    assert(ad == g * b);
    assert(a >= 0 && b > 0) by (nonlinear_arith)
        requires
            an == g * a,
            ad == g * b,
            g > 0,
            an >= 0,
            ad > 0,
    ;
    assert(a <= an) by (nonlinear_arith)
        requires
            an == g * a,
            g > 0,
            a >= 0,
    ;
    assert(b <= ad) by (nonlinear_arith)
        requires
            ad == g * b,
            g > 0,
            b >= 0,
    ;
    lemma_gcd_scale(a as nat, b as nat, g as nat);
    assert(gcd_spec(a as nat, b as nat) == 1) by (nonlinear_arith)
        requires
            g == g * gcd_spec(a as nat, b as nat),
            g > 0,
    ;
    assert(a == 0 <==> n == 0) by (nonlinear_arith)
        requires
            an == g * a,
            g > 0,
            an == abs(n),
    ;
    if n == 0 {
        lemma_gcd_basics(0, ad as nat);
        assert(b == 1) by (nonlinear_arith)
            requires
                ad == g * b,
                g == ad,
                g > 0,
        ;
    }
    assert(canon_num(n, d) * d == n * b) by (nonlinear_arith)
        requires
            an == g * a,
            ad == g * b,
            an == abs(n),
            ad == abs(d),
            canon_num(n, d) == (if (n < 0) != (d < 0) {
                -a
            } else {
                a
            }),
    ;
}

/// A fraction already in lowest terms is its own canonical form.
pub proof fn lemma_canon_of_reduced(n: int, d: int)
    requires
        d > 0,
        gcd_spec(abs(n) as nat, d as nat) == 1,
    ensures
        canon_num(n, d) == n,
        canon_den(n, d) == d,
{
    assert(abs(n) / 1 == abs(n));
    assert(d / 1 == d);
}

/// Scaling numerator and denominator by the same nonzero factor keeps the canonical form.
pub proof fn lemma_canon_scale(n: int, d: int, k: int)
    requires
        d != 0,
        k != 0,
    ensures
        canon_num(k * n, k * d) == canon_num(n, d),
        canon_den(k * n, k * d) == canon_den(n, d),
{
    let ak = abs(k);
    let g = canon_gcd(n, d);
    lemma_gcd_divides(abs(n) as nat, abs(d) as nat);
    assert(abs(k * n) == ak * abs(n) && abs(k * d) == ak * abs(d)) by (nonlinear_arith)
        requires
            ak == abs(k),
    ;
    lemma_gcd_scale(abs(n) as nat, abs(d) as nat, ak as nat);
    assert(canon_gcd(k * n, k * d) == ak * g);
    lemma_div_multiples_vanish(abs(n), ak);
    lemma_div_multiples_vanish(abs(d), ak);
    lemma_div_denominator(ak * abs(n), ak, g);
    lemma_div_denominator(ak * abs(d), ak, g);
    assert(abs(k * n) / canon_gcd(k * n, k * d) == abs(n) / g);
    assert(abs(k * d) / canon_gcd(k * n, k * d) == abs(d) / g);
    assert(((k * n < 0) != (k * d < 0)) == ((n < 0) != (d < 0)) || n == 0) by (nonlinear_arith)
        requires
            k != 0,
            d != 0,
    ;
    if n == 0 {
        assert(k * n == 0);
        lemma_canon(n, d);
        lemma_mul_nonzero(k, d);
        lemma_canon(k * n, k * d);
    }
}

/// Two fractions of the same value have the same floor.
pub proof fn lemma_floor_same_value(a: int, b: int, n: int, d: int)
    requires
        b > 0,
        d > 0,
        a * d == n * b,
    ensures
        a / b == n / d,
{
    let q = a / b;
    lemma_fundamental_div_mod(a, b);
    let r = a % b;
    assert(0 <= r < b);
    assert(q * d <= n < (q + 1) * d) by (nonlinear_arith)
        requires
            a == b * q + r,
            0 <= r < b,
            a * d == n * b,
            b > 0,
            d > 0,
    ;
    assert((q + 1) * d == q * d + d) by (nonlinear_arith);
    lemma_fundamental_div_mod_converse(n, d, q, n - q * d);
}

/// The canonical form has the floor and ceiling of the fraction it reduces.
pub proof fn lemma_canon_floor_ceil(n: int, d: int)
    requires
        d > 0,
    ensures
        floor_div(canon_num(n, d), canon_den(n, d)) == floor_div(n, d),
        ceil_div(canon_num(n, d), canon_den(n, d)) == ceil_div(n, d),
{
    lemma_canon(n, d);
    lemma_floor_same_value(canon_num(n, d), canon_den(n, d), n, d);
    assert((-canon_num(n, d)) * d == (-n) * canon_den(n, d)) by (nonlinear_arith)
        requires
            canon_num(n, d) * d == n * canon_den(n, d),
    ;
    lemma_floor_same_value(-canon_num(n, d), canon_den(n, d), -n, d);
}

/// A rational number in lowest terms: `sign` is set only for negative values,
/// the denominator is positive, and zero is `0/1`.
#[derive(Debug, Clone, Copy, PartialEq, Eq, Structural)]
pub struct Rational {
    sign: bool,
    numerator: usize,
    denominator: usize,
}

impl Rational {
    /// The signed numerator.
    pub closed spec fn num(self) -> int {
        if self.sign {
            -(self.numerator as int)
        } else {
            self.numerator as int
        }
    }

    /// The (positive) denominator.
    pub closed spec fn den(self) -> int {
        self.denominator as int
    }

    /// Lowest terms, positive denominator, and one form for zero.
    #[verifier::type_invariant]
    pub closed spec fn wf(self) -> bool {
        &&& self.denominator > 0
        &&& gcd_spec(self.numerator as nat, self.denominator as nat) == 1
        &&& self.numerator == 0 ==> !self.sign
    }

    /// This value is `n / d`, written in lowest terms.
    pub open spec fn represents(self, n: int, d: int) -> bool {
        self.num() == canon_num(n, d) && self.den() == canon_den(n, d)
    }

    /// What every value of the type satisfies.
    pub proof fn lemma_valid(self)
        requires
            self.wf(),
        ensures
            self.den() > 0,
            gcd_spec(abs(self.num()) as nat, self.den() as nat) == 1,
            canon_num(self.num(), self.den()) == self.num(),
            canon_den(self.num(), self.den()) == self.den(),
            abs(self.num()) <= usize::MAX,
            self.den() <= usize::MAX,
    {
        lemma_canon_of_reduced(self.num(), self.den());
    }

    /// `numerator / denominator`, negated when `sign` is set, in lowest terms.
    pub fn new_signed_rational(numerator: usize, denominator: usize, sign: bool) -> (r: Rational)
        requires
            denominator != 0,
        ensures
            r.represents(
                if sign {
                    -(numerator as int)
                } else {
                    numerator as int
                },
                denominator as int,
            ),
    {
        let ghost n: int = if sign {
            -(numerator as int)
        } else {
            numerator as int
        };
        proof {
            lemma_canon(n, denominator as int);
        }
        if numerator == 0 {
            proof {
                lemma_gcd_basics(0, 1);
            }
            Rational { sign: false, numerator: 0, denominator: 1 }
        } else {
            let my_gcd = gcd(numerator, denominator);
            assert(my_gcd == canon_gcd(n, denominator as int));
            let r = Rational {
                sign: sign,
                numerator: numerator / my_gcd,
                denominator: denominator / my_gcd,
            };
            assert(abs(canon_num(n, denominator as int)) == numerator / my_gcd);
            r
        }
    }

    /// `numerator / denominator` in lowest terms.
    pub fn new_rational(numerator: usize, denominator: usize) -> (r: Rational)
        requires
            denominator != 0,
        ensures
            r.represents(numerator as int, denominator as int),
    {
        Rational::new_signed_rational(numerator, denominator, false)
    }

    /// The magnitude of an `isize`, as a `usize`.
    fn magnitude(v: isize) -> (r: usize)
        ensures
            r == abs(v as int),
    {
        if v < 0 {
            ((-(v + 1)) as usize) + 1
        } else {
            v as usize
        }
    }

    /// `numerator / denominator` for signed integers, in lowest terms.
    pub fn new_rational_from_integers(numerator: isize, denominator: isize) -> (r: Rational)
        requires
            denominator != 0,
        ensures
            r.represents(numerator as int, denominator as int),
    {
        let my_numerator = Rational::magnitude(numerator);
        let my_denominator = Rational::magnitude(denominator);
        let my_sign = (numerator < 0) != (denominator < 0);
        let r = Rational::new_signed_rational(my_numerator, my_denominator, my_sign);
        proof {
            let n = numerator as int;
            let d = denominator as int;
            let sn = if my_sign {
                -(my_numerator as int)
            } else {
                my_numerator as int
            };
            if d < 0 {
                assert(sn == -n);
                assert(my_denominator as int == -d);
                lemma_canon_scale(n, d, -1);
                assert(-1 * n == -n && -1 * d == -d);
            } else {
                assert(sn == n);
            }
        }
        r
    }

    /// `numerator / denominator` in lowest terms.
    pub fn new_rational_from_unsigned_integers(numerator: usize, denominator: usize) -> (r:
        Rational)
        requires
            denominator != 0,
        ensures
            r.represents(numerator as int, denominator as int),
    {
        Rational::new_signed_rational(numerator, denominator, false)
    }

    /// The integer `integer`.
    pub fn new_rational_from_integer(integer: isize) -> (r: Rational)
        ensures
            r.num() == integer as int,
            r.den() == 1,
            r.represents(integer as int, 1),
    {
        proof {
            lemma_gcd_basics(abs(integer as int) as nat, 0);
            lemma_canon_of_reduced(integer as int, 1);
        }
        Rational {
            sign: integer < 0,
            numerator: Rational::magnitude(integer),
            denominator: 1,
        }
    }

    /// The integer `integer`.
    pub fn new_rational_from_unsigned_integer(integer: usize) -> (r: Rational)
        ensures
            r.num() == integer as int,
            r.den() == 1,
            r.represents(integer as int, 1),
    {
        proof {
            lemma_gcd_basics(integer as nat, 0);
            lemma_canon_of_reduced(integer as int, 1);
        }
        Rational { sign: false, numerator: integer, denominator: 1 }
    }

    pub fn denominator(&self) -> (r: usize)
        ensures
            r == self.den(),
    {
        self.denominator
    }

    /// The magnitude of the numerator.
    pub fn numerator(&self) -> (r: usize)
        ensures
            r == abs(self.num()),
    {
        self.numerator
    }

    pub fn is_neg(&self) -> (r: bool)
        ensures
            r == (self.num() < 0),
    {
        proof {
            use_type_invariant(self);
        }
        self.sign
    }

    /// The greatest integer not above this value.
    pub fn floor(&self) -> (r: isize)
        requires
            abs(self.num()) <= isize::MAX,
        ensures
            r == floor_div(self.num(), self.den()),
    {
        proof {
            use_type_invariant(self);
            lemma_fraction_parts(self.numerator as int, self.denominator as int);
        }
        let q = self.numerator / self.denominator;
        if self.denominator == 1 {
            if self.sign {
                -(self.numerator as isize)
            } else {
                self.numerator as isize
            }
        } else {
            if self.sign {
                -(q as isize) - 1
            } else {
                q as isize
            }
        }
    }

    /// The least integer not below this value.
    pub fn ceil(&self) -> (r: isize)
        requires
            abs(self.num()) <= isize::MAX,
        ensures
            r == ceil_div(self.num(), self.den()),
    {
        proof {
            use_type_invariant(self);
            lemma_fraction_parts(self.numerator as int, self.denominator as int);
        }
        let q = self.numerator / self.denominator;
        if self.denominator == 1 {
            if self.sign {
                -(self.numerator as isize)
            } else {
                self.numerator as isize
            }
        } else {
            if self.sign {
                -(q as isize)
            } else {
                proof {
                    lemma_fundamental_div_mod(self.numerator as int, self.denominator as int);
                    assert(q + 1 <= self.numerator) by (nonlinear_arith)
                        requires
                            self.numerator == self.denominator * q + self.numerator
                                % self.denominator,
                            self.numerator % self.denominator > 0,
                            self.denominator >= 2,
                    ;
                }
                (q as isize) + 1
            }
        }
    }

    /// The greatest multiple of `1 / denom` not above this value: the floor is
    /// taken of the value scaled by `denom`.
    pub fn rational_floor(&self, denom: usize) -> (r: Rational)
        requires
            0 < denom <= isize::MAX,
            abs(self.num()) * denom <= isize::MAX,
        ensures
            r.represents(floor_div(self.num() * denom, self.den()), denom as int),
    {
        proof {
            use_type_invariant(self);
            self.lemma_valid();
        }
        let a = Rational::new_rational_from_unsigned_integer(denom);
        proof {
            assert(abs(self.num() * denom) == abs(self.num()) * denom) by (nonlinear_arith);
            assert(abs(denom as int) * abs(self.num()) == abs(self.num()) * denom) by (
            nonlinear_arith);
            assert(1 * self.den() == self.den());
        }
        let scaled = a.mul(*self);
        proof {
            lemma_canon(denom * self.num(), self.den());
            lemma_canon_floor_ceil(denom * self.num(), self.den());
            assert(denom * self.num() == self.num() * denom) by (nonlinear_arith);
        }
        let f = scaled.floor();
        proof {
            lemma_floor_bound(self.num() * denom, self.den());
        }
        Rational::new_rational_from_integers(f, denom as isize)
    }

    /// The least multiple of `1 / denom` not below this value: the ceiling is
    /// taken of the value scaled by `denom`.
    pub fn rational_ceil(&self, denom: usize) -> (r: Rational)
        requires
            0 < denom <= isize::MAX,
            abs(self.num()) * denom <= isize::MAX,
        ensures
            r.represents(ceil_div(self.num() * denom, self.den()), denom as int),
    {
        proof {
            use_type_invariant(self);
            self.lemma_valid();
        }
        let a = Rational::new_rational_from_unsigned_integer(denom);
        proof {
            assert(abs(self.num() * denom) == abs(self.num()) * denom) by (nonlinear_arith);
            assert(abs(denom as int) * abs(self.num()) == abs(self.num()) * denom) by (
            nonlinear_arith);
            assert(1 * self.den() == self.den());
        }
        let scaled = a.mul(*self);
        proof {
            lemma_canon(denom * self.num(), self.den());
            lemma_canon_floor_ceil(denom * self.num(), self.den());
            assert(denom * self.num() == self.num() * denom) by (nonlinear_arith);
        }
        let c = scaled.ceil();
        proof {
            lemma_floor_bound(-(self.num() * denom), self.den());
        }
        Rational::new_rational_from_integers(c, denom as isize)
    }

    /// The magnitude of this value.
    pub fn abs(&self) -> (r: Rational)
        ensures
            r.num() == abs(self.num()),
            r.den() == self.den(),
    {
        proof {
            use_type_invariant(self);
        }
        Rational { sign: false, numerator: self.numerator, denominator: self.denominator }
    }

    /// The value with its sign flipped; zero stays unsigned.
    pub fn neg(&self) -> (r: Rational)
        ensures
            r.num() == -self.num(),
            r.den() == self.den(),
    {
        proof {
            use_type_invariant(self);
        }
        let mut my_sign = self.sign;
        if self.numerator != 0 {
            my_sign = !my_sign;
        }
        Rational { sign: my_sign, numerator: self.numerator, denominator: self.denominator }
    }

    /// The sum, in lowest terms.
    pub fn add(&self, rhs: Rational) -> (r: Rational)
        requires
            abs(self.num()) * rhs.den() + abs(rhs.num()) * self.den() <= usize::MAX,
            self.den() * rhs.den() <= usize::MAX,
        ensures
            r.represents(self.num() * rhs.den() + rhs.num() * self.den(), self.den() * rhs.den()),
    {
        proof {
            use_type_invariant(self);
            use_type_invariant(&rhs);
            self.lemma_valid();
            rhs.lemma_valid();
        }
        let ghost n = self.num() * rhs.den() + rhs.num() * self.den();
        if self.numerator == 0 {
            assert(self.den() == 1) by {
                lemma_gcd_basics(0, self.denominator as nat);
            }
            assert(self.num() == 0);
            assert(self.num() * rhs.den() == 0) by (nonlinear_arith)
                requires
                    self.num() == 0,
            ;
            assert(rhs.num() * self.den() == rhs.num()) by (nonlinear_arith)
                requires
                    self.den() == 1,
            ;
            assert(self.den() * rhs.den() == rhs.den());
            return rhs;
        } else if rhs.numerator == 0 {
            assert(rhs.den() == 1) by {
                lemma_gcd_basics(0, rhs.denominator as nat);
            }
            assert(rhs.num() == 0);
            assert(rhs.num() * self.den() == 0) by (nonlinear_arith)
                requires
                    rhs.num() == 0,
            ;
            assert(self.num() * rhs.den() == self.num()) by (nonlinear_arith)
                requires
                    rhs.den() == 1,
            ;
            assert(self.den() * rhs.den() == self.den());
            return *self;
        }
        let a = self.numerator * rhs.denominator;
        let b = rhs.numerator * self.denominator;
        let d = self.denominator * rhs.denominator;
        proof {
            assert(self.num() * rhs.den() == if self.sign {
                -(a as int)
            } else {
                a as int
            }) by (nonlinear_arith)
                requires
                    a == self.numerator * rhs.denominator,
                    self.num() == (if self.sign {
                        -(self.numerator as int)
                    } else {
                        self.numerator as int
                    }),
                    rhs.den() == rhs.denominator,
            ;
            assert(rhs.num() * self.den() == if rhs.sign {
                -(b as int)
            } else {
                b as int
            }) by (nonlinear_arith)
                requires
                    b == rhs.numerator * self.denominator,
                    rhs.num() == (if rhs.sign {
                        -(rhs.numerator as int)
                    } else {
                        rhs.numerator as int
                    }),
                    self.den() == self.denominator,
            ;
            assert(d as int == self.den() * rhs.den());
            assert(d > 0) by (nonlinear_arith)
                requires
                    d == self.denominator * rhs.denominator,
                    self.denominator > 0,
                    rhs.denominator > 0,
            ;
        }
        if self.sign == rhs.sign {
            Rational::new_signed_rational(a + b, d, self.sign)
        } else if a >= b {
            Rational::new_signed_rational(a - b, d, self.sign)
        } else {
            Rational::new_signed_rational(b - a, d, rhs.sign)
        }
    }

    /// The sum with an integer, in lowest terms.
    pub fn add_isize(&self, rhs: isize) -> (r: Rational)
        requires
            abs(self.num()) + abs(rhs as int) * self.den() <= usize::MAX,
        ensures
            r.represents(self.num() + rhs * self.den(), self.den()),
    {
        proof {
            use_type_invariant(self);
            self.lemma_valid();
        }
        let b = Rational::new_rational_from_integer(rhs);
        let r = self.add(b);
        assert(self.num() * 1 + rhs * self.den() == self.num() + rhs * self.den());
        r
    }

    /// The sum with an unsigned integer, in lowest terms.
    pub fn add_usize(&self, rhs: usize) -> (r: Rational)
        requires
            abs(self.num()) + rhs * self.den() <= usize::MAX,
        ensures
            r.represents(self.num() + rhs * self.den(), self.den()),
    {
        proof {
            use_type_invariant(self);
            self.lemma_valid();
        }
        let b = Rational::new_rational_from_unsigned_integer(rhs);
        let r = self.add(b);
        assert(self.num() * 1 + rhs * self.den() == self.num() + rhs * self.den());
        r
    }

    /// The difference, in lowest terms.
    pub fn sub(&self, rhs: Rational) -> (r: Rational)
        requires
            abs(self.num()) * rhs.den() + abs(rhs.num()) * self.den() <= usize::MAX,
            self.den() * rhs.den() <= usize::MAX,
        ensures
            r.represents(self.num() * rhs.den() - rhs.num() * self.den(), self.den() * rhs.den()),
    {
        let m = rhs.neg();
        assert(m.num() * self.den() == -(rhs.num() * self.den())) by (nonlinear_arith)
            requires
                m.num() == -rhs.num(),
        ;
        self.add(m)
    }

    /// The difference with an integer, in lowest terms.
    pub fn sub_isize(&self, rhs: isize) -> (r: Rational)
        requires
            abs(self.num()) + abs(rhs as int) * self.den() <= usize::MAX,
        ensures
            r.represents(self.num() - rhs * self.den(), self.den()),
    {
        proof {
            use_type_invariant(self);
            self.lemma_valid();
        }
        let b = Rational::new_rational_from_integer(rhs).neg();
        let r = self.add(b);
        assert(self.num() * 1 + b.num() * self.den() == self.num() - rhs * self.den())
            by (nonlinear_arith)
            requires
                b.num() == -rhs,
        ;
        r
    }

    /// The difference with an unsigned integer, in lowest terms.
    pub fn sub_usize(&self, rhs: usize) -> (r: Rational)
        requires
            abs(self.num()) + rhs * self.den() <= usize::MAX,
        ensures
            r.represents(self.num() - rhs * self.den(), self.den()),
    {
        proof {
            use_type_invariant(self);
            self.lemma_valid();
        }
        let b = Rational::new_rational_from_unsigned_integer(rhs).neg();
        let r = self.add(b);
        assert(self.num() * 1 + b.num() * self.den() == self.num() - rhs * self.den())
            by (nonlinear_arith)
            requires
                b.num() == -rhs,
        ;
        r
    }

    /// The product, in lowest terms.
    pub fn mul(&self, rhs: Rational) -> (r: Rational)
        requires
            abs(self.num()) * abs(rhs.num()) <= usize::MAX,
            self.den() * rhs.den() <= usize::MAX,
        ensures
            r.represents(self.num() * rhs.num(), self.den() * rhs.den()),
    {
        proof {
            use_type_invariant(self);
            use_type_invariant(&rhs);
            self.lemma_valid();
            rhs.lemma_valid();
        }
        let n = self.numerator * rhs.numerator;
        let d = self.denominator * rhs.denominator;
        let my_sign = self.sign != rhs.sign;
        assert(d > 0) by (nonlinear_arith)
            requires
                d == self.denominator * rhs.denominator,
                self.denominator > 0,
                rhs.denominator > 0,
        ;
        proof {
            assert(self.num() * rhs.num() == if my_sign {
                -(n as int)
            } else {
                n as int
            }) by (nonlinear_arith)
                requires
                    n == self.numerator * rhs.numerator,
                    my_sign == (self.sign != rhs.sign),
                    self.num() == (if self.sign {
                        -(self.numerator as int)
                    } else {
                        self.numerator as int
                    }),
                    rhs.num() == (if rhs.sign {
                        -(rhs.numerator as int)
                    } else {
                        rhs.numerator as int
                    }),
            ;
        }
        Rational::new_signed_rational(n, d, my_sign)
    }

    /// The product with an integer, in lowest terms.
    pub fn mul_isize(&self, rhs: isize) -> (r: Rational)
        requires
            abs(self.num()) * abs(rhs as int) <= usize::MAX,
        ensures
            r.represents(self.num() * rhs, self.den()),
    {
        proof {
            use_type_invariant(self);
            self.lemma_valid();
        }
        let b = Rational::new_rational_from_integer(rhs);
        let r = self.mul(b);
        assert(self.den() * 1 == self.den());
        r
    }

    /// The product with an unsigned integer, in lowest terms.
    pub fn mul_usize(&self, rhs: usize) -> (r: Rational)
        requires
            abs(self.num()) * rhs <= usize::MAX,
        ensures
            r.represents(self.num() * rhs, self.den()),
    {
        proof {
            use_type_invariant(self);
            self.lemma_valid();
        }
        let b = Rational::new_rational_from_unsigned_integer(rhs);
        let r = self.mul(b);
        assert(self.den() * 1 == self.den());
        r
    }

    /// The quotient, in lowest terms; the divisor must not be zero.
    pub fn div(&self, rhs: Rational) -> (r: Rational)
        requires
            rhs.num() != 0,
            abs(self.num()) * rhs.den() <= usize::MAX,
            self.den() * abs(rhs.num()) <= usize::MAX,
        ensures
            r.represents(self.num() * rhs.den(), self.den() * rhs.num()),
    {
        proof {
            use_type_invariant(self);
            use_type_invariant(&rhs);
            self.lemma_valid();
            rhs.lemma_valid();
        }
        let n = self.numerator * rhs.denominator;
        let d = self.denominator * rhs.numerator;
        let my_sign = self.sign != rhs.sign;
        proof {
            let sn = if my_sign {
                -(n as int)
            } else {
                n as int
            };
            let big_a = self.num() * rhs.den();
            let big_b = self.den() * rhs.num();
            assert(big_a == if self.sign {
                -(n as int)
            } else {
                n as int
            }) by (nonlinear_arith)
                requires
                    n == self.numerator * rhs.denominator,
                    big_a == self.num() * rhs.den(),
                    self.num() == (if self.sign {
                        -(self.numerator as int)
                    } else {
                        self.numerator as int
                    }),
                    rhs.den() == rhs.denominator,
            ;
            assert(big_b == if rhs.sign {
                -(d as int)
            } else {
                d as int
            }) by (nonlinear_arith)
                requires
                    d == self.denominator * rhs.numerator,
                    big_b == self.den() * rhs.num(),
                    rhs.num() == (if rhs.sign {
                        -(rhs.numerator as int)
                    } else {
                        rhs.numerator as int
                    }),
                    self.den() == self.denominator,
            ;
            assert(sn * big_b == big_a * d) by (nonlinear_arith)
                requires
                    sn == (if my_sign {
                        -(n as int)
                    } else {
                        n as int
                    }),
                    my_sign == (self.sign != rhs.sign),
                    big_a == (if self.sign {
                        -(n as int)
                    } else {
                        n as int
                    }),
                    big_b == (if rhs.sign {
                        -(d as int)
                    } else {
                        d as int
                    }),
            ;
            assert(d > 0) by (nonlinear_arith)
                requires
                    d == self.denominator * rhs.numerator,
                    self.denominator > 0,
                    rhs.numerator > 0,
            ;
            lemma_canon_same_value(sn, d as int, big_a, big_b);
        }
        Rational::new_signed_rational(n, d, my_sign)
    }

    /// The quotient by a nonzero integer, in lowest terms.
    pub fn div_isize(&self, rhs: isize) -> (r: Rational)
        requires
            rhs != 0,
            abs(self.num()) <= usize::MAX,
            self.den() * abs(rhs as int) <= usize::MAX,
        ensures
            r.represents(self.num(), self.den() * rhs),
    {
        let b = Rational::new_rational_from_integer(rhs);
        let r = self.div(b);
        assert(self.num() * 1 == self.num());
        r
    }

    /// The quotient by a nonzero unsigned integer, in lowest terms.
    pub fn div_usize(&self, rhs: usize) -> (r: Rational)
        requires
            rhs != 0,
            abs(self.num()) <= usize::MAX,
            self.den() * rhs <= usize::MAX,
        ensures
            r.represents(self.num(), self.den() * rhs),
    {
        let b = Rational::new_rational_from_unsigned_integer(rhs);
        let r = self.div(b);
        assert(self.num() * 1 == self.num());
        r
    }

    /// Orders two values by cross-multiplying.
    pub fn cmp(&self, other: &Rational) -> (r: core::cmp::Ordering)
        ensures
            (r == core::cmp::Ordering::Less) == (self.num() * other.den() < other.num()
                * self.den()),
            (r == core::cmp::Ordering::Equal) == (self.num() * other.den() == other.num()
                * self.den()),
            (r == core::cmp::Ordering::Greater) == (self.num() * other.den() > other.num()
                * self.den()),
    {
        proof {
            use_type_invariant(self);
            use_type_invariant(other);
        }
        let ghost sn = self.numerator as int;
        let ghost sd = self.denominator as int;
        let ghost on = other.numerator as int;
        let ghost od = other.denominator as int;
        proof {
            lemma_mul_upper_bound(sn, u64::MAX as int, od, u64::MAX as int);
            lemma_mul_upper_bound(on, u64::MAX as int, sd, u64::MAX as int);
            assert((u64::MAX as int) * (u64::MAX as int) <= u128::MAX) by (nonlinear_arith);
        }
        let a = (self.numerator as u128) * (other.denominator as u128);
        let b = (other.numerator as u128) * (self.denominator as u128);
        proof {
            assert(self.num() * other.den() == if self.sign {
                -(a as int)
            } else {
                a as int
            }) by (nonlinear_arith)
                requires
                    a == sn * od,
                    self.num() == (if self.sign {
                        -sn
                    } else {
                        sn
                    }),
                    other.den() == od,
            ;
            assert(other.num() * self.den() == if other.sign {
                -(b as int)
            } else {
                b as int
            }) by (nonlinear_arith)
                requires
                    b == on * sd,
                    other.num() == (if other.sign {
                        -on
                    } else {
                        on
                    }),
                    self.den() == sd,
            ;
            assert(sd * od > 0) by (nonlinear_arith)
                requires
                    sd > 0,
                    od > 0,
            ;
            if self.sign {
                assert(a > 0) by (nonlinear_arith)
                    requires
                        a == sn * od,
                        sn > 0,
                        od > 0,
                ;
            }
            if other.sign {
                assert(b > 0) by (nonlinear_arith)
                    requires
                        b == on * sd,
                        on > 0,
                        sd > 0,
                ;
            }
        }
        if self.sign && !other.sign {
            core::cmp::Ordering::Less
        } else if !self.sign && other.sign {
            core::cmp::Ordering::Greater
        } else if self.sign && other.sign {
            if a < b {
                core::cmp::Ordering::Greater
            } else if a == b {
                core::cmp::Ordering::Equal
            } else {
                core::cmp::Ordering::Less
            }
        } else {
            if a < b {
                core::cmp::Ordering::Less
            } else if a == b {
                core::cmp::Ordering::Equal
            } else {
                core::cmp::Ordering::Greater
            }
        }
    }

    /// `self < other` as values.
    pub fn lt(&self, other: &Rational) -> (r: bool)
        ensures
            r == (self.num() * other.den() < other.num() * self.den()),
    {
        match self.cmp(other) {
            core::cmp::Ordering::Less => true,
            _ => false,
        }
    }

    /// `self <= other` as values.
    pub fn le(&self, other: &Rational) -> (r: bool)
        ensures
            r == (self.num() * other.den() <= other.num() * self.den()),
    {
        match self.cmp(other) {
            core::cmp::Ordering::Greater => false,
            _ => true,
        }
    }

    /// `self > other` as values.
    pub fn gt(&self, other: &Rational) -> (r: bool)
        ensures
            r == (self.num() * other.den() > other.num() * self.den()),
    {
        match self.cmp(other) {
            core::cmp::Ordering::Greater => true,
            _ => false,
        }
    }

    /// `self >= other` as values.
    pub fn ge(&self, other: &Rational) -> (r: bool)
        ensures
            r == (self.num() * other.den() >= other.num() * self.den()),
    {
        match self.cmp(other) {
            core::cmp::Ordering::Less => false,
            _ => true,
        }
    }
}

/// Splits `n / d` for a fraction in lowest terms with `d > 1`: `d` does not divide `n`,
/// and the floor of `-n / d` is one below `-(n / d)`.
proof fn lemma_fraction_parts(n: int, d: int)
    requires
        n >= 0,
        d > 0,
        gcd_spec(n as nat, d as nat) == 1,
    ensures
        d == 1 ==> n / d == n && (-n) / d == -n,
        d != 1 ==> n % d != 0 && (-n) / d == -(n / d) - 1,
{
    if d == 1 {
        assert(n / 1 == n);
        assert((-n) / 1 == -n);
    } else {
        if n % d == 0 {
            lemma_mod_self_0(d);
            lemma_gcd_greatest(n as nat, d as nat, d);
            lemma_small_mod(1, d as nat);
        }
        lemma_fundamental_div_mod(n, d);
        let q = n / d;
        let r = n % d;
        assert(-n == (-q - 1) * d + (d - r)) by (nonlinear_arith)
            requires
                n == d * q + r,
        ;
        lemma_fundamental_div_mod_converse(-n, d, -q - 1, d - r);
    }
}

/// A floor of `n / d` is no larger in magnitude than `n`.
pub proof fn lemma_floor_bound(n: int, d: int)
    requires
        d > 0,
    ensures
        abs(n / d) <= abs(n),
{
    lemma_fundamental_div_mod(n, d);
    let q = n / d;
    let r = n % d;
    assert(abs(q) <= abs(n)) by (nonlinear_arith)
        requires
            n == d * q + r,
            0 <= r < d,
            d > 0,
    ;
}

/// Fractions of the same value have the same canonical form.
pub proof fn lemma_canon_same_value(n1: int, d1: int, n2: int, d2: int)
    requires
        d1 != 0,
        d2 != 0,
        n1 * d2 == n2 * d1,
    ensures
        canon_num(n1, d1) == canon_num(n2, d2),
        canon_den(n1, d1) == canon_den(n2, d2),
{
    lemma_canon_scale(n1, d1, d2);
    lemma_canon_scale(n2, d2, d1);
    assert(d2 * n1 == d1 * n2 && d2 * d1 == d1 * d2) by (nonlinear_arith)
        requires
            n1 * d2 == n2 * d1,
    ;
}

/// Scaling numerator and denominator by any positive integer gives the same
/// rational: `n / d` and `(k * n) / (k * d)` have one lowest-terms form.
pub proof fn law_canonical_form(n: int, d: int, k: int)
    requires
        d != 0,
        k > 0,
    ensures
        canon_num(k * n, k * d) == canon_num(n, d),
        canon_den(k * n, k * d) == canon_den(n, d),
{
    lemma_canon_scale(n, d, k);
}

/// Zero has one form whatever denominator it is built with: numerator 0,
/// denominator 1, and no sign.
pub proof fn law_zero_unique(d1: int, d2: int)
    requires
        d1 != 0,
        d2 != 0,
    ensures
        canon_num(0, d1) == canon_num(0, d2) == 0,
        canon_den(0, d1) == canon_den(0, d2) == 1,
{
    lemma_canon(0, d1);
    lemma_canon(0, d2);
}

/// For `s` the negation of `r`: `floor(s) == -ceil(r)` and `ceil(s) == -floor(r)`.
pub proof fn law_floor_ceil_symmetry(r: Rational, s: Rational)
    requires
        s.num() == -r.num(),
        s.den() == r.den(),
    ensures
        floor_div(s.num(), s.den()) == -ceil_div(r.num(), r.den()),
        ceil_div(s.num(), s.den()) == -floor_div(r.num(), r.den()),
{
}

} // verus!
