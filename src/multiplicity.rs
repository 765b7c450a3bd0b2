//! Prime multiplicities: counting factors, and numbers written as products
//! of prime powers.

use crate::prime::{lemma_prime_factors, prime_factors_of};
use vstd::prelude::*;

verus! {

/// Number of occurrences of `p` in `s`.
pub open spec fn count(s: Seq<nat>, p: nat) -> nat
    decreases s.len(),
{
    if s.len() == 0 {
        0
    } else {
        count(s.drop_last(), p) + if s.last() == p {
            1nat
        } else {
            0nat
        }
    }
}

/// `b` raised to the power `e`.
pub open spec fn power(b: nat, e: nat) -> nat
    decreases e,
{
    if e == 0 {
        1
    } else {
        b * power(b, (e - 1) as nat)
    }
}

/// The product of `k^e(k)` over all `k` in `[2, top]`.
pub open spec fn power_product(e: spec_fn(nat) -> nat, top: nat) -> nat
    decreases top,
{
    if top < 2 {
        1
    } else {
        power_product(e, (top - 1) as nat) * power(top, e(top))
    }
}

/// Every factor of a `u32` lies at or below this bound.
pub open spec fn factor_bound() -> nat {
    u32::MAX as nat
}

/// The exponent of `p` in the canonical factorization of `n`.
pub open spec fn multiplicity(p: nat, n: nat) -> nat {
    count(prime_factors_of(n), p)
}

/// The exponent of every prime in the canonical factorization of `n`.
pub open spec fn factor_exps(n: nat) -> spec_fn(nat) -> nat {
    |p: nat| multiplicity(p, n)
}

pub proof fn lemma_count_concat(a: Seq<nat>, b: Seq<nat>, p: nat)
    ensures
        count(a + b, p) == count(a, p) + count(b, p),
    decreases b.len(),
{
    if b.len() > 0 {
        assert((a + b).drop_last() =~= a + b.drop_last());
        lemma_count_concat(a, b.drop_last(), p);
    } else {
        assert(a + b =~= a);
    }
}

pub proof fn lemma_count_single(x: nat, p: nat)
    ensures
        count(seq![x], p) == if x == p {
            1nat
        } else {
            0nat
        },
{
    assert(seq![x].drop_last() =~= Seq::<nat>::empty());
    assert(count(seq![x].drop_last(), p) == 0);
    assert(seq![x].last() == x);
}

/// An element occurs in `s` exactly when its count is positive.
pub proof fn lemma_count_positive(s: Seq<nat>, p: nat)
    ensures
        count(s, p) > 0 <==> s.contains(p),
    decreases s.len(),
{
    if s.len() > 0 {
        lemma_count_positive(s.drop_last(), p);
        if s.drop_last().contains(p) {
            let i = choose|i: int| 0 <= i < s.drop_last().len() && s.drop_last()[i] == p;
            assert(s[i] == p);
        }
        if s.contains(p) && s.last() != p {
            let i = choose|i: int| 0 <= i < s.len() && s[i] == p;
            assert(s.drop_last()[i] == p);
        }
    }
}

/// Removing the element at `i` lowers its count by one and leaves the rest.
pub proof fn lemma_count_remove(s: Seq<nat>, i: int, p: nat)
    requires
        0 <= i < s.len(),
    ensures
        count(s.remove(i), p) + (if s[i] == p {
            1nat
        } else {
            0nat
        }) == count(s, p),
{
    let a = s.subrange(0, i);
    let b = s.subrange(i + 1, s.len() as int);
    assert(s =~= a + seq![s[i]] + b);
    assert(s.remove(i) =~= a + b);
    lemma_count_concat(a, b, p);
    lemma_count_concat(a + seq![s[i]], b, p);
    lemma_count_concat(a, seq![s[i]], p);
    lemma_count_single(s[i], p);
}

proof fn lemma_power_positive(b: nat, e: nat)
    requires
        b >= 1,
    ensures
        power(b, e) >= 1,
    decreases e,
{
    if e > 0 {
        lemma_power_positive(b, (e - 1) as nat);
        assert(b * power(b, (e - 1) as nat) >= 1) by (nonlinear_arith)
            requires
                b >= 1,
                power(b, (e - 1) as nat) >= 1,
        ;
    }
}

proof fn lemma_power_monotone(b: nat, e1: nat, e2: nat)
    requires
        b >= 1,
        e1 <= e2,
    ensures
        power(b, e1) <= power(b, e2),
    decreases e2,
{
    if e1 < e2 {
        lemma_power_monotone(b, e1, (e2 - 1) as nat);
        assert(power(b, (e2 - 1) as nat) <= b * power(b, (e2 - 1) as nat)) by (nonlinear_arith)
            requires
                b >= 1,
        ;
    }
}

/// A power product is at least one.
pub proof fn lemma_power_product_positive(e: spec_fn(nat) -> nat, top: nat)
    ensures
        power_product(e, top) >= 1,
    decreases top,
{
    if top >= 2 {
        lemma_power_product_positive(e, (top - 1) as nat);
        lemma_power_positive(top, e(top));
        let a = power_product(e, (top - 1) as nat);
        let b = power(top, e(top));
        assert(a * b >= 1) by (nonlinear_arith)
            requires
                a >= 1,
                b >= 1,
        ;
    }
}

/// Power products agree when their exponents agree on `[2, top]`.
pub proof fn lemma_power_product_ext(e1: spec_fn(nat) -> nat, e2: spec_fn(nat) -> nat, top: nat)
    requires
        forall|k: nat| 2 <= k <= top ==> #[trigger] e1(k) == e2(k),
    ensures
        power_product(e1, top) == power_product(e2, top),
    decreases top,
{
    if top >= 2 {
        lemma_power_product_ext(e1, e2, (top - 1) as nat);
        assert(e1(top) == e2(top));
    }
}

/// A power product whose exponents vanish on `[2, top]` is one.
pub proof fn lemma_power_product_zero(e: spec_fn(nat) -> nat, top: nat)
    requires
        forall|k: nat| 2 <= k <= top ==> #[trigger] e(k) == 0,
    ensures
        power_product(e, top) == 1,
    decreases top,
{
    if top >= 2 {
        lemma_power_product_zero(e, (top - 1) as nat);
        assert(e(top) == 0);
        assert(power(top, 0) == 1);
    }
}

/// Raising the exponent of one `q` in `[2, top]` by one multiplies the product by `q`.
pub proof fn lemma_power_product_bump(
    e1: spec_fn(nat) -> nat,
    e2: spec_fn(nat) -> nat,
    q: nat,
    top: nat,
)
    requires
        2 <= q <= top,
        e2(q) == e1(q) + 1,
        forall|k: nat| 2 <= k <= top && k != q ==> #[trigger] e1(k) == e2(k),
    ensures
        power_product(e2, top) == power_product(e1, top) * q,
    decreases top,
{
    let a1 = power_product(e1, (top - 1) as nat);
    let a2 = power_product(e2, (top - 1) as nat);
    if q == top {
        lemma_power_product_ext(e1, e2, (top - 1) as nat);
        let p1 = power(top, e1(top));
        assert(power(top, e2(top)) == top * p1);
        assert(a1 * (top * p1) == (a1 * p1) * top) by (nonlinear_arith);
    } else {
        lemma_power_product_bump(e1, e2, q, (top - 1) as nat);
        assert(e1(top) == e2(top));
        let p = power(top, e1(top));
        assert((a1 * q) * p == (a1 * p) * q) by (nonlinear_arith);
    }
}

/// Power products grow with their exponents.
pub proof fn lemma_power_product_monotone(
    e1: spec_fn(nat) -> nat,
    e2: spec_fn(nat) -> nat,
    top: nat,
)
    requires
        forall|k: nat| 2 <= k <= top ==> #[trigger] e1(k) <= e2(k),
    ensures
        power_product(e1, top) <= power_product(e2, top),
    decreases top,
{
    if top >= 2 {
        lemma_power_product_monotone(e1, e2, (top - 1) as nat);
        assert(e1(top) <= e2(top));
        lemma_power_monotone(top, e1(top), e2(top));
        let a1 = power_product(e1, (top - 1) as nat);
        let a2 = power_product(e2, (top - 1) as nat);
        let b1 = power(top, e1(top));
        let b2 = power(top, e2(top));
        assert(a1 * b1 <= a2 * b2) by (nonlinear_arith)
            requires
                a1 <= a2,
                b1 <= b2,
        ;
    }
}

/// Every `1 <= n <= top` is the product of the prime powers of its factorization.
pub proof fn lemma_power_product_of_factors(n: nat, top: nat)
    requires
        1 <= n <= top,
    ensures
        power_product(factor_exps(n), top) == n,
    decreases n,
{
    lemma_prime_factors(n);
    if n < 2 {
        lemma_power_product_zero(factor_exps(n), top);
    } else {
        let s = prime_factors_of(n);
        let d = s[0];
        let m = n / d;
        assert(s == seq![d] + prime_factors_of(m));
        vstd::arithmetic::div_mod::lemma_fundamental_div_mod(n as int, d as int);
        assert(n == d * m);
        assert(1 <= m < n) by (nonlinear_arith)
            requires
                n == d * m,
                d >= 2,
                n >= 2,
        ;
        lemma_power_product_of_factors(m, top);
        assert forall|k: nat| 2 <= k <= top && k != d implies #[trigger] factor_exps(m)(k)
            == factor_exps(n)(k) by {
            lemma_count_concat(seq![d], prime_factors_of(m), k);
            lemma_count_single(d, k);
        }
        lemma_count_concat(seq![d], prime_factors_of(m), d);
        lemma_count_single(d, d);
        lemma_power_product_bump(factor_exps(m), factor_exps(n), d, top);
        assert(m * d == n) by (nonlinear_arith)
            requires
                n == d * m,
        ;
    }
}

} // verus!
