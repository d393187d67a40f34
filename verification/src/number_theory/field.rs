use vstd::prelude::*;
use vstd::arithmetic::div_mod::{
    lemma_fundamental_div_mod, lemma_mul_mod_noop_general, lemma_small_mod,
};
use vstd::arithmetic::power::{lemma_pow0, lemma_pow_mod_noop, lemma_pow_multiplies, pow};
use vstd::std_specs::cmp::PartialEqSpecImpl;
use vstd::std_specs::ops::{AddSpecImpl, DivSpecImpl, MulSpecImpl, NegSpecImpl, SubSpecImpl};
use core::ops::{Add, Div, Mul, Neg, Sub};

verus! {

/// A type-level truth value: `Assert<true>` is `IsTrue`, `Assert<false>` is
/// not.
pub struct Assert<const B: bool>;

/// Implemented by `Assert<true>` alone.
pub trait IsTrue {

}

impl IsTrue for Assert<true> {

}

/// `p` is a prime number.
pub open spec fn is_prime(p: int) -> bool {
    p >= 2 && forall|d: int| 2 <= d < p ==> #[trigger] (p % d) != 0
}

/// The square of `p - 1` fits in a `u64`, so that two residues modulo `p` can
/// be multiplied in a `u64`.
pub open spec fn square_fits(p: int) -> bool {
    p >= 1 && (p - 1) * (p - 1) <= u64::MAX
}

/// `p` can be the modulus of `Fp`: a prime whose residues can be multiplied in
/// a `u64`.
pub open spec fn is_valid_modulus(p: int) -> bool {
    square_fits(p) && is_prime(p)
}

proof fn lemma_square_fits_bound(p: int)
    requires
        square_fits(p),
    ensures
        p <= 0x1_0000_0000,
{
    assert(p - 1 >= 0x1_0000_0000 ==> (p - 1) * (p - 1) >= 0x1_0000_0000 * 0x1_0000_0000)
        by (nonlinear_arith);
}

proof fn lemma_product_fits(a: int, b: int, p: int)
    requires
        square_fits(p),
        0 <= a < p,
        0 <= b < p,
    ensures
        0 <= a * b <= u64::MAX,
{
    assert(0 <= a * b <= (p - 1) * (p - 1)) by (nonlinear_arith)
        requires
            0 <= a <= p - 1,
            0 <= b <= p - 1,
    ;
}

/// A number that divides `p` has a cofactor that divides `p` too.
proof fn lemma_cofactor(p: int, k: int)
    requires
        2 <= k < p,
        p % k == 0,
    ensures
        2 <= p / k < p,
        p % (p / k) == 0,
        k * (p / k) == p,
{
    let q = p / k;
    lemma_fundamental_div_mod(p, k);
    assert(p == k * q);
    assert(q >= 2) by (nonlinear_arith)
        requires
            p == k * q,
            2 <= k < p,
    ;
    assert(q < p) by (nonlinear_arith)
        requires
            p == k * q,
            2 <= k,
            q >= 2,
    ;
    assert(p % q == 0) by {
        vstd::arithmetic::div_mod::lemma_fundamental_div_mod_converse(p, q, k, 0);
    }
}

/// An odd number has no even divisor.
proof fn lemma_odd_has_odd_divisors(p: int, k: int)
    requires
        p % 2 == 1,
        k >= 2,
        k % 2 == 0,
    ensures
        p % k != 0,
{
    if p % k == 0 {
        lemma_fundamental_div_mod(p, k);
        lemma_fundamental_div_mod(k, 2);
        let q = p / k;
        let h = k / 2;
        assert(p == 2 * (h * q)) by (nonlinear_arith)
            requires
                p == k * q,
                k == 2 * h,
        ;
        assert(p % 2 == 0) by {
            vstd::arithmetic::div_mod::lemma_fundamental_div_mod_converse(p, 2, h * q, 0);
        }
    }
}

/// Whether `p` is prime, by trial division by 2 and by the odd numbers up to
/// the square root of `p`.
pub fn is_prime_u64(p: u64) -> (r: bool)
    ensures
        r == is_prime(p as int),
{
    if p < 2 {
        return false;
    }
    if p % 2 == 0 {
        proof {
            if p != 2 {
                assert(p as int % 2 == 0);
            }
        }
        return p == 2;
    }
    let mut d: u64 = 3;
    while d <= p / d
        invariant
            p >= 3,
            p % 2 == 1,
            3 <= d,
            d % 2 == 1,
            d <= 0x1_0000_0001,
            forall|k: int| 2 <= k < d ==> #[trigger] (p as int % k) != 0,
        decreases p - d,
    {
        proof {
            let pi = p as int;
            let di = d as int;
            lemma_fundamental_div_mod(pi, di);
            assert(di * di <= pi) by (nonlinear_arith)
                requires
                    di <= pi / di,
                    pi == di * (pi / di) + pi % di,
                    0 <= pi % di,
                    di >= 3,
            ;
            assert(d < 0x1_0000_0000) by (nonlinear_arith)
                requires
                    d * d <= p,
                    p <= u64::MAX,
                    d >= 0,
            ;
        }
        proof {
            assert(d < p) by (nonlinear_arith)
                requires
                    d * d <= p,
                    d >= 3,
            ;
        }
        if p % d == 0 {
            return false;
        }
        proof {
            assert forall|k: int| 2 <= k < d + 2 implies #[trigger] (p as int % k) != 0 by {
                if k == d + 1 {
                    lemma_odd_has_odd_divisors(p as int, k);
                }
            }
        }
        d += 2;
    }
    proof {
        assert forall|k: int| 2 <= k < p implies #[trigger] (p as int % k) != 0 by {
            if k >= d && p as int % k == 0 {
                let pi = p as int;
                let di = d as int;
                lemma_cofactor(pi, k);
                let q = pi / k;
                lemma_fundamental_div_mod(pi, di);
                assert(q < di) by (nonlinear_arith)
                    requires
                        k * q == pi,
                        k >= di,
                        di >= 3,
                        q >= 2,
                        (pi / di) < di,
                        pi == di * (pi / di) + pi % di,
                        0 <= pi % di < di,
                ;
                assert(pi % q != 0);
            }
        }
    }
    true
}

/// Whether the square of `p - 1` fits in a `u64`.
pub fn square_bound_ok(p: u64) -> (r: bool)
    ensures
        r == square_fits(p as int),
{
    if p == 0 {
        return false;
    }
    let m = p - 1;
    m.checked_mul(m).is_some()
}

/// Whether `p` can be the modulus of `Fp`.
pub fn valid_modulus(p: u64) -> (r: bool)
    ensures
        r == is_valid_modulus(p as int),
{
    square_bound_ok(p) && is_prime_u64(p)
}

/// A field: values with `+`, `-`, `*`, `/` (except by zero), negation, an
/// additive and a multiplicative identity, inverses and integer powers.
pub trait Field: Copy + Clone + PartialEq + Add<Output = Self> + Sub<Output = Self> + Mul<
    Output = Self,
> + Div<Output = Self> + Neg<Output = Self> + Sized {
    /// The parameters of the field allow its operations.
    spec fn usable() -> bool;

    /// The value is an element of the field.
    spec fn valid(self) -> bool;

    /// The additive identity.
    spec fn zero_value() -> Self;

    /// The multiplicative identity.
    spec fn one_value() -> Self;

    /// The multiplicative inverse of a value that is not zero.
    spec fn inverse(self) -> Self;

    /// The value raised to the power `n`; for a negative `n`, its inverse
    /// raised to the power `-n`.
    spec fn power(self, n: int) -> Self;

    /// Additive identity
    fn zero() -> (r: Self)
        requires
            Self::usable(),
        ensures
            r == Self::zero_value(),
            r.valid(),
    ;

    /// Multiplicative identity
    fn one() -> (r: Self)
        requires
            Self::usable(),
        ensures
            r == Self::one_value(),
            r.valid(),
    ;

    /// Is element the additive identity?
    fn is_zero(self) -> (b: bool)
        requires
            Self::usable(),
            self.valid(),
        ensures
            b == (self == Self::zero_value()),
    ;

    /// Multiplicative inverse; zero has none.
    fn inv(self) -> (r: Self)
        requires
            Self::usable(),
            self.valid(),
            self != Self::zero_value(),
        ensures
            r == self.inverse(),
            r.valid(),
    ;

    /// Integer exponentiation
    fn powi(self, n: i64) -> (r: Self)
        requires
            Self::usable(),
            self.valid(),
            n >= 0 || self != Self::zero_value(),
            n > i64::MIN,
        ensures
            r == self.power(n as int),
            r.valid(),
    ;
}

/// Integers modulo prime P
#[derive(Copy, Clone, Debug)]
pub struct Fp<const P: u64>(pub u64);

impl<const P: u64> PartialEq for Fp<P> {
    fn eq(&self, other: &Self) -> (r: bool) {
        self.0 == other.0
    }
}

impl<const P: u64> Eq for Fp<P> {

}

impl<const P: u64> PartialEqSpecImpl for Fp<P> {
    open spec fn obeys_eq_spec() -> bool {
        true
    }

    open spec fn eq_spec(&self, other: &Self) -> bool {
        self.0 == other.0
    }
}


/// One step of exponentiation by squaring keeps `acc * base^e` modulo `p`.
proof fn lemma_square_and_multiply(acc: int, base: int, e: nat, p: int)
    requires
        p > 0,
        e > 0,
    ensures
        e % 2 == 1 ==> (((acc * base) % p) * pow((base * base) % p, e / 2)) % p == (acc * pow(
            base,
            e,
        )) % p,
        e % 2 == 0 ==> (acc * pow((base * base) % p, e / 2)) % p == (acc * pow(base, e)) % p,
{
    let h = e / 2;
    let sq = base * base;
    // pow(sq % p, h) is pow(sq, h) modulo p, and pow(sq, h) is pow(base, 2 * h)
    lemma_pow_mod_noop(sq, h, p);
    assert(pow(sq, h) == pow(base, 2 * h)) by {
        vstd::arithmetic::power::lemma_square_is_pow2(base);
        lemma_pow_multiplies(base, 2, h);
    }
    let t = pow(base, 2 * h);
    if e % 2 == 0 {
        assert(2 * h == e);
        lemma_mul_mod_noop_general(acc, pow(sq % p, h), p);
        lemma_mul_mod_noop_general(acc, t, p);
    } else {
        assert(e == 2 * h + 1);
        assert(pow(base, e) == base * t) by {
            vstd::arithmetic::power::lemma_pow_adds(base, 1, 2 * h);
            vstd::arithmetic::power::lemma_pow1(base);
        }
        lemma_mul_mod_noop_general(acc * base, pow(sq % p, h), p);
        lemma_mul_mod_noop_general(acc * base, t, p);
        assert((acc * base) * t == acc * (base * t)) by (nonlinear_arith);
    }
}

impl<const P: u64> Fp<P> {
    /// The value is a residue modulo `P`.
    pub open spec fn is_residue(self) -> bool {
        self.0 < P
    }

    /// The residue of `x` modulo `P`.
    pub open spec fn residue(x: int) -> Self {
        Fp((x % (P as int)) as u64)
    }

    /// The residue of `x` raised to the power `P - 2`, which is the inverse of
    /// `x` where `P` is prime and `x` is not zero (`lemma_inverse_law`).
    pub open spec fn inverse_of(x: int) -> int {
        pow(x, (P - 2) as nat) % (P as int)
    }

    /// The residue of `x` modulo `P`.
    #[inline]
    pub fn new(x: u64) -> (r: Self)
        requires
            P > 0,
        ensures
            r == Self::residue(x as int),
            r.is_residue(),
    {
        Fp::<P>(x % P)
    }

    /// The residue as an integer below `P`.
    #[inline]
    pub fn value(self) -> (v: u64)
        ensures
            v == self.0,
    {
        self.0
    }

    #[inline]
    fn add_raw(self, rhs: Self) -> (r: Self)
        requires
            square_fits(P as int),
            self.is_residue(),
            rhs.is_residue(),
        ensures
            r == Self::residue(self.0 + rhs.0),
            r.is_residue(),
    {
        proof {
            lemma_square_fits_bound(P as int);
        }
        let mut s = self.0 + rhs.0;
        if s >= P {
            s -= P;
            proof {
                lemma_small_mod(s as nat, P as nat);
                vstd::arithmetic::div_mod::lemma_mod_sub_multiples_vanish(
                    self.0 + rhs.0,
                    P as int,
                );
            }
        } else {
            proof {
                lemma_small_mod(s as nat, P as nat);
            }
        }
        Fp::<P>(s)
    }

    #[inline]
    fn sub_raw(self, rhs: Self) -> (r: Self)
        requires
            square_fits(P as int),
            self.is_residue(),
            rhs.is_residue(),
        ensures
            r == Self::residue(self.0 - rhs.0),
            r.is_residue(),
    {
        proof {
            lemma_square_fits_bound(P as int);
        }
        if self.0 >= rhs.0 {
            proof {
                lemma_small_mod((self.0 - rhs.0) as nat, P as nat);
            }
            Fp::<P>(self.0 - rhs.0)
        } else {
            proof {
                lemma_small_mod((self.0 + P - rhs.0) as nat, P as nat);
                vstd::arithmetic::div_mod::lemma_mod_add_multiples_vanish(
                    self.0 - rhs.0,
                    P as int,
                );
            }
            Fp::<P>(self.0 + P - rhs.0)
        }
    }

    #[inline]
    fn mul_raw(self, rhs: Self) -> (r: Self)
        requires
            square_fits(P as int),
            self.is_residue(),
            rhs.is_residue(),
        ensures
            r == Self::residue(self.0 * rhs.0),
            r.is_residue(),
    {
        proof {
            lemma_product_fits(self.0 as int, rhs.0 as int, P as int);
        }
        // Safe in u64 because 0 <= a,b < P and (P-1)^2 <= u64::MAX
        Fp::<P>((self.0 * rhs.0) % P)
    }
}

impl<const P: u64> AddSpecImpl for Fp<P> {
    open spec fn obeys_add_spec() -> bool {
        true
    }

    open spec fn add_req(self, rhs: Self) -> bool {
        square_fits(P as int) && self.is_residue() && rhs.is_residue()
    }

    open spec fn add_spec(self, rhs: Self) -> Self {
        Self::residue(self.0 + rhs.0)
    }
}

impl<const P: u64> Add for Fp<P> {
    type Output = Self;

    #[inline]
    fn add(self, rhs: Self) -> (r: Self) {
        self.add_raw(rhs)
    }
}

impl<const P: u64> SubSpecImpl for Fp<P> {
    open spec fn obeys_sub_spec() -> bool {
        true
    }

    open spec fn sub_req(self, rhs: Self) -> bool {
        square_fits(P as int) && self.is_residue() && rhs.is_residue()
    }

    open spec fn sub_spec(self, rhs: Self) -> Self {
        Self::residue(self.0 - rhs.0)
    }
}

impl<const P: u64> Sub for Fp<P> {
    type Output = Self;

    #[inline]
    fn sub(self, rhs: Self) -> (r: Self) {
        self.sub_raw(rhs)
    }
}

impl<const P: u64> MulSpecImpl for Fp<P> {
    open spec fn obeys_mul_spec() -> bool {
        true
    }

    open spec fn mul_req(self, rhs: Self) -> bool {
        square_fits(P as int) && self.is_residue() && rhs.is_residue()
    }

    open spec fn mul_spec(self, rhs: Self) -> Self {
        Self::residue(self.0 * rhs.0)
    }
}

impl<const P: u64> Mul for Fp<P> {
    type Output = Self;

    #[inline]
    fn mul(self, rhs: Self) -> (r: Self) {
        self.mul_raw(rhs)
    }
}

impl<const P: u64> DivSpecImpl for Fp<P> {
    open spec fn obeys_div_spec() -> bool {
        true
    }

    open spec fn div_req(self, rhs: Self) -> bool {
        square_fits(P as int) && self.is_residue() && rhs.is_residue() && rhs.0 != 0
    }

    open spec fn div_spec(self, rhs: Self) -> Self {
        Self::residue(self.0 * Self::inverse_of(rhs.0 as int))
    }
}

impl<const P: u64> Div for Fp<P> {
    type Output = Self;

    #[inline]
    fn div(self, rhs: Self) -> (r: Self)
        ensures
            is_prime(P as int) ==> Fp::<P>::residue(r.0 * rhs.0) == self,
    {
        proof {
            lemma_square_fits_bound(P as int);
            if is_prime(P as int) {
                lemma_division_law(self, rhs);
            }
        }
        // Fermat's Little Theorem
        self * Fp::<P>::powi(rhs, (P - 2) as i64)
    }
}

impl<const P: u64> NegSpecImpl for Fp<P> {
    open spec fn obeys_neg_spec() -> bool {
        true
    }

    open spec fn neg_req(self) -> bool {
        self.is_residue()
    }

    open spec fn neg_spec(self) -> Self {
        Self::residue(-self.0)
    }
}

impl<const P: u64> Neg for Fp<P> {
    type Output = Self;

    #[inline]
    fn neg(self) -> (r: Self) {
        if self.0 == 0 {
            proof {
                lemma_small_mod(0, P as nat);
            }
            self
        } else {
            proof {
                lemma_small_mod((P - self.0) as nat, P as nat);
                vstd::arithmetic::div_mod::lemma_mod_add_multiples_vanish(-self.0, P as int);
            }
            Fp::<P>(P - self.0)
        }
    }
}

impl<const P: u64> Field for Fp<P> {
    open spec fn usable() -> bool {
        square_fits(P as int)
    }

    open spec fn valid(self) -> bool {
        self.is_residue()
    }

    open spec fn zero_value() -> Self {
        Fp(0)
    }

    open spec fn one_value() -> Self {
        Self::residue(1)
    }

    open spec fn inverse(self) -> Self {
        Fp(Self::inverse_of(self.0 as int) as u64)
    }

    open spec fn power(self, n: int) -> Self {
        if n >= 0 {
            Self::residue(pow(self.0 as int, n as nat))
        } else {
            Self::residue(pow(Self::inverse_of(self.0 as int), (-n) as nat))
        }
    }

    #[inline]
    fn zero() -> (r: Self) {
        Fp::<P>(0)
    }

    #[inline]
    fn one() -> (r: Self) {
        Fp::<P>(1 % P)
    }

    #[inline]
    fn is_zero(self) -> (b: bool) {
        self == Self::zero()
    }

    #[inline]
    fn inv(self) -> (r: Self)
        ensures
            is_prime(P as int) ==> Fp::<P>::residue(self.0 * r.0) == Fp::<P>(1),
        decreases 1int,
    {
        proof {
            lemma_square_fits_bound(P as int);
            if is_prime(P as int) {
                lemma_inverse_law(self);
            }
        }
        Fp::<P>::powi(self, (P - 2) as i64)
    }

    #[inline]
    fn powi(self, n: i64) -> (r: Self)
        decreases (if n < 0 { 2int } else { 0int }),
    {
        if n == 0 {
            proof {
                lemma_pow0(self.0 as int);
            }
            return Self::one();
        }
        if n < 0 {
            return self.inv().powi(-n);
        }
        let mut base = self;
        let mut e = n as u64;
        let mut acc = Self::one();
        proof {
            lemma_mul_mod_noop_general(1, pow(self.0 as int, n as nat), P as int);
        }
        while e > 0
            invariant
                square_fits(P as int),
                base.is_residue(),
                acc.is_residue(),
                n > 0,
                (acc.0 * pow(base.0 as int, e as nat)) % (P as int) == pow(self.0 as int, n as nat)
                    % (P as int),
            decreases e,
        {
            proof {
                lemma_square_and_multiply(acc.0 as int, base.0 as int, e as nat, P as int);
                assert(e & 1 == 1 <==> e % 2 == 1) by (bit_vector);
                assert(e >> 1 == e / 2) by (bit_vector);
            }
            if e & 1 == 1 {
                acc = acc * base;
            }
            base = base * base;
            e >>= 1;
        }
        proof {
            lemma_pow0(base.0 as int);
            lemma_small_mod(acc.0 as nat, P as nat);
        }
        acc
    }
}

/// Where `P` is prime, the inverse of a residue that is not zero is its
/// inverse: their product is one.
pub proof fn lemma_inverse_law<const P: u64>(x: Fp<P>)
    requires
        is_prime(P as int),
        x.is_residue(),
        x.0 != 0,
    ensures
        x.inverse().is_residue(),
        Fp::<P>::residue(x.0 * x.inverse().0) == Fp::<P>::one_value(),
        Fp::<P>::one_value() == Fp::<P>(1),
{
    let p = P as int;
    crate::number_theory::fermat::lemma_inverse(x.0 as int, p);
    vstd::arithmetic::div_mod::lemma_mod_bound(pow(x.0 as int, (P - 2) as nat), p);
    lemma_small_mod(1, P as nat);
}

/// Where `P` is prime, division undoes multiplication: `(a / b) * b` is `a`.
pub proof fn lemma_division_law<const P: u64>(a: Fp<P>, b: Fp<P>)
    requires
        is_prime(P as int),
        a.is_residue(),
        b.is_residue(),
        b.0 != 0,
    ensures
        Fp::<P>::residue(Fp::<P>::residue(a.0 * Fp::<P>::inverse_of(b.0 as int)).0 * b.0) == a,
{
    let p = P as int;
    let inv = Fp::<P>::inverse_of(b.0 as int);
    lemma_inverse_law(b);
    vstd::arithmetic::div_mod::lemma_mod_bound(pow(b.0 as int, (P - 2) as nat), p);
    vstd::arithmetic::div_mod::lemma_mod_bound(a.0 * inv, p);
    // ((a * inv) % p) * b is a * (inv * b) modulo p, and inv * b is 1 modulo p
    lemma_mul_mod_noop_general(a.0 * inv, b.0 as int, p);
    lemma_mul_mod_noop_general(a.0 as int, inv * b.0, p);
    assert((a.0 * inv) * b.0 == a.0 * (inv * b.0)) by (nonlinear_arith);
    assert(inv * b.0 == b.0 * inv) by (nonlinear_arith);
    lemma_small_mod(a.0 as nat, P as nat);
    lemma_small_mod(b.0 as nat, P as nat);
    assert(a.0 * 1 == a.0);
}

} // verus!
