use vstd::prelude::*;
use vstd::arithmetic::div_mod::{
    lemma_fundamental_div_mod, lemma_fundamental_div_mod_converse, lemma_mod_bound,
    lemma_mul_mod_noop_general, lemma_small_mod,
};
use vstd::arithmetic::power::{lemma_pow0, lemma_pow1, lemma_pow_adds, pow};
use vstd::seq_lib::{to_multiset_contains, to_multiset_len, to_multiset_remove};
use vstd::set_lib::lemma_subset_equality;
use crate::number_theory::field::is_prime;

verus! {

/// A multiple of `p` leaves no remainder.
proof fn lemma_multiple(p: int, k: int)
    requires
        p > 0,
    ensures
        (p * k) % p == 0,
{
    assert(p * k == k * p + 0) by (nonlinear_arith);
    lemma_fundamental_div_mod_converse(p * k, p, k, 0);
}

/// What leaves no remainder is a multiple of `p`.
proof fn lemma_is_multiple(p: int, x: int)
    requires
        p > 0,
        x % p == 0,
    ensures
        x == p * (x / p),
{
    lemma_fundamental_div_mod(x, p);
}

/// A prime that divides a product, and not its first factor, divides the
/// second.
pub proof fn lemma_prime_divides_product(p: int, x: int, y: int)
    requires
        is_prime(p),
        0 < x < p,
        (x * y) % p == 0,
    ensures
        y % p == 0,
    decreases x,
{
    if x == 1 {
        assert(x * y == y) by (nonlinear_arith)
            requires
                x == 1,
        ;
    } else {
        let r = p % x;
        let q = p / x;
        assert(r != 0);
        lemma_fundamental_div_mod(p, x);
        lemma_mod_bound(p, x);
        let k = (x * y) / p;
        lemma_is_multiple(p, x * y);
        assert(r * y == p * (y - q * k)) by (nonlinear_arith)
            requires
                p == x * q + r,
                x * y == p * k,
        ;
        lemma_multiple(p, y - q * k);
        lemma_prime_divides_product(p, r, y);
    }
}

/// Modulo a prime, a factor that is not zero can be cancelled.
pub proof fn lemma_cancel(p: int, a: int, i: int, j: int)
    requires
        is_prime(p),
        0 < a < p,
        0 <= i < p,
        0 <= j < p,
        (a * i) % p == (a * j) % p,
    ensures
        i == j,
{
    if i >= j {
        lemma_cancel_ordered(p, a, i, j);
    } else {
        lemma_cancel_ordered(p, a, j, i);
    }
}

proof fn lemma_cancel_ordered(p: int, a: int, i: int, j: int)
    requires
        is_prime(p),
        0 < a < p,
        0 <= j <= i < p,
        (a * i) % p == (a * j) % p,
    ensures
        i == j,
{
    if i != j {
        lemma_fundamental_div_mod(a * i, p);
        lemma_fundamental_div_mod(a * j, p);
        let qi = (a * i) / p;
        let qj = (a * j) / p;
        let m = (a * i) % p;
        assert(a * (i - j) == p * (qi - qj)) by (nonlinear_arith)
            requires
                a * i == p * qi + m,
                a * j == p * qj + m,
        ;
        lemma_multiple(p, qi - qj);
        lemma_prime_divides_product(p, a, i - j);
        lemma_small_mod((i - j) as nat, p as nat);
    }
}

/// The product of the elements of `s`.
pub open spec fn product(s: Seq<int>) -> int
    decreases s.len(),
{
    if s.len() == 0 {
        1
    } else {
        product(s.drop_last()) * s.last()
    }
}

/// The product of a sequence is one of its elements times the product of the
/// others.
proof fn lemma_product_remove(s: Seq<int>, k: int)
    requires
        0 <= k < s.len(),
    ensures
        product(s) == s[k] * product(s.remove(k)),
    decreases s.len(),
{
    let init = s.drop_last();
    if k == s.len() - 1 {
        assert(s.remove(k) =~= init);
        assert(product(init) * s.last() == s.last() * product(init)) by (nonlinear_arith);
    } else {
        lemma_product_remove(init, k);
        let rest = s.remove(k);
        assert(rest.drop_last() =~= init.remove(k));
        assert(rest.last() == s.last());
        let inner = product(init.remove(k));
        assert(product(rest) == inner * s.last());
        assert((s[k] * inner) * s.last() == s[k] * (inner * s.last())) by (nonlinear_arith);
    }
}

/// Sequences with the same elements have the same product.
proof fn lemma_product_permutation(s: Seq<int>, t: Seq<int>)
    requires
        s.to_multiset() == t.to_multiset(),
    ensures
        product(s) == product(t),
    decreases s.len(),
{
    to_multiset_len(s);
    to_multiset_len(t);
    if s.len() == 0 {
        assert(s =~= t);
    } else {
        let x = s.last();
        to_multiset_contains(s, x);
        to_multiset_contains(t, x);
        assert(s.contains(x));
        let k = choose|k: int| 0 <= k < t.len() && t[k] == x;
        to_multiset_remove(s, s.len() - 1);
        to_multiset_remove(t, k);
        assert(s.remove(s.len() - 1) =~= s.drop_last());
        lemma_product_permutation(s.drop_last(), t.remove(k));
        lemma_product_remove(t, k);
        assert(product(s.drop_last()) * x == x * product(s.drop_last())) by (nonlinear_arith);
    }
}

/// `1, 2, .., n`.
pub open spec fn units(n: nat) -> Seq<int> {
    Seq::new(n, |i: int| i + 1)
}

/// `a, 2a, .., na`, each reduced modulo `p`.
pub open spec fn multiples(a: int, n: nat, p: int) -> Seq<int> {
    Seq::new(n, |i: int| (a * (i + 1)) % p)
}

/// Modulo a prime `p`, the multiples of `a` by `1, .., p - 1` are the numbers
/// `1, .., p - 1` again, in some order.
proof fn lemma_multiples_are_units(a: int, p: int)
    requires
        is_prime(p),
        0 < a < p,
    ensures
        multiples(a, (p - 1) as nat, p).to_multiset() == units((p - 1) as nat).to_multiset(),
{
    let n = (p - 1) as nat;
    let s = units(n);
    let t = multiples(a, n, p);
    assert(s.no_duplicates());
    assert forall|i: int| 0 <= i < n implies 1 <= #[trigger] t[i] < p by {
        lemma_mod_bound(a * (i + 1), p);
        if (a * (i + 1)) % p == 0 {
            lemma_prime_divides_product(p, a, i + 1);
            lemma_small_mod((i + 1) as nat, p as nat);
        }
    }
    assert forall|i: int, j: int| 0 <= i < n && 0 <= j < n && i != j implies t[i] != t[j] by {
        if t[i] == t[j] {
            lemma_cancel(p, a, i + 1, j + 1);
        }
    }
    assert(t.no_duplicates());
    s.unique_seq_to_set();
    t.unique_seq_to_set();
    vstd::seq_lib::seq_to_set_is_finite(s);
    vstd::seq_lib::seq_to_set_is_finite(t);
    assert(t.to_set().subset_of(s.to_set())) by {
        assert forall|x: int| t.to_set().contains(x) implies s.to_set().contains(x) by {
            let i = choose|i: int| 0 <= i < t.len() && t[i] == x;
            assert(s[x - 1] == x);
        }
    }
    lemma_subset_equality(t.to_set(), s.to_set());
    s.lemma_multiset_has_no_duplicates();
    t.lemma_multiset_has_no_duplicates();
    assert forall|x: int| t.to_multiset().count(x) == s.to_multiset().count(x) by {
        to_multiset_contains(s, x);
        to_multiset_contains(t, x);
        assert(t.to_set().contains(x) == s.to_set().contains(x));
    }
    assert(t.to_multiset() =~= s.to_multiset());
}

/// The product of the first `n` multiples of `a` is `a` to the power `n`
/// times the product of `1, .., n`, modulo `p`.
proof fn lemma_product_of_multiples(a: int, n: nat, p: int)
    requires
        p > 0,
    ensures
        product(multiples(a, n, p)) % p == (pow(a, n) * product(units(n))) % p,
    decreases n,
{
    if n == 0 {
        lemma_pow0(a);
    } else {
        let m = (n - 1) as nat;
        lemma_product_of_multiples(a, m, p);
        let t = multiples(a, n, p);
        let s = units(n);
        assert(t.drop_last() =~= multiples(a, m, p));
        assert(s.drop_last() =~= units(m));
        let pt = product(multiples(a, m, p));
        let ps = product(units(m));
        assert(product(t) == pt * ((a * n) % p));
        assert(product(s) == ps * n);
        // pt * ((a n) % p) is (pt % p) * (a n) modulo p
        lemma_mul_mod_noop_general(pt, a * n, p);
        lemma_mul_mod_noop_general(pow(a, m) * ps, a * n, p);
        assert(pow(a, n) == pow(a, m) * a) by {
            lemma_pow_adds(a, m, 1);
            lemma_pow1(a);
        }
        assert((pow(a, m) * ps) * (a * n) == (pow(a, m) * a) * (ps * n)) by (nonlinear_arith);
    }
}

/// A prime `p` does not divide the product of `1, .., n` for `n < p`.
proof fn lemma_product_of_units(n: nat, p: int)
    requires
        is_prime(p),
        n < p,
    ensures
        product(units(n)) % p != 0,
    decreases n,
{
    if n == 0 {
        lemma_small_mod(1, p as nat);
    } else {
        let m = (n - 1) as nat;
        lemma_product_of_units(m, p);
        assert(units(n).drop_last() =~= units(m));
        let ps = product(units(m));
        assert(product(units(n)) == ps * n);
        if (ps * n) % p == 0 {
            assert(n * ps == ps * n) by (nonlinear_arith);
            lemma_prime_divides_product(p, n as int, ps);
        }
    }
}

/// Fermat's little theorem: a number that a prime `p` does not divide, raised
/// to the power `p - 1`, leaves the remainder 1.
pub proof fn lemma_fermat(a: int, p: int)
    requires
        is_prime(p),
        0 < a < p,
    ensures
        pow(a, (p - 1) as nat) % p == 1,
{
    let n = (p - 1) as nat;
    let f = product(units(n));
    let u = pow(a, n);
    lemma_multiples_are_units(a, p);
    lemma_product_permutation(multiples(a, n, p), units(n));
    lemma_product_of_multiples(a, n, p);
    lemma_product_of_units(n, p);
    // u * f and f leave the same remainder, so p divides (u - 1) * f
    assert((u * f) % p == f % p);
    let c = f % p;
    lemma_mod_bound(f, p);
    lemma_fundamental_div_mod(u * f, p);
    lemma_fundamental_div_mod(f, p);
    let q1 = (u * f) / p;
    let q2 = f / p;
    assert(c * (u - 1) == p * (q1 - q2 - q2 * (u - 1))) by (nonlinear_arith)
        requires
            u * f == p * q1 + c,
            f == p * q2 + c,
    ;
    lemma_multiple(p, q1 - q2 - q2 * (u - 1));
    lemma_prime_divides_product(p, c, u - 1);
    lemma_is_multiple(p, u - 1);
    let k = (u - 1) / p;
    assert(u == k * p + 1) by (nonlinear_arith)
        requires
            u - 1 == p * k,
    ;
    lemma_fundamental_div_mod_converse(u, p, k, 1);
}

/// Modulo a prime `p`, the power `p - 2` of a number that `p` does not divide
/// is its inverse.
pub proof fn lemma_inverse(x: int, p: int)
    requires
        is_prime(p),
        0 < x < p,
    ensures
        (x * (pow(x, (p - 2) as nat) % p)) % p == 1,
{
    lemma_fermat(x, p);
    let e = (p - 2) as nat;
    assert(pow(x, (p - 1) as nat) == x * pow(x, e)) by {
        lemma_pow_adds(x, 1, e);
        lemma_pow1(x);
    }
    lemma_mul_mod_noop_general(x, pow(x, e), p);
    lemma_small_mod(x as nat, p as nat);
}

} // verus!
