//! Prime factorization by trial division, with its mathematical model.

use vstd::arithmetic::div_mod::{
    lemma_div_decreases, lemma_fundamental_div_mod, lemma_mod_multiples_basic,
};
use vstd::prelude::*;

verus! {

/// `n` is a prime number.
pub open spec fn is_prime_spec(n: nat) -> bool {
    n >= 2 && forall|k: nat| 2 <= k < n ==> #[trigger] (n % k) != 0
}

/// The least `k` with `d <= k <= n` that divides `n` (`n` itself when none smaller does).
pub open spec fn least_divisor_from(n: nat, d: nat) -> nat
    decreases n - d,
{
    if d >= n {
        n
    } else if n % d == 0 {
        d
    } else {
        least_divisor_from(n, d + 1)
    }
}

/// The smallest divisor of `n` greater than one.
pub open spec fn smallest_factor(n: nat) -> nat {
    least_divisor_from(n, 2)
}

/// The canonical prime factorization of `n`: its prime factors in ascending
/// order, repeated by multiplicity; empty for `n < 2`.
pub open spec fn prime_factors_of(n: nat) -> Seq<nat>
    decreases n,
    via prime_factors_of_decreases
{
    if n < 2 {
        Seq::empty()
    } else {
        let d = smallest_factor(n);
        seq![d] + prime_factors_of(n / d)
    }
}

#[via_fn]
proof fn prime_factors_of_decreases(n: nat) {
    if n >= 2 {
        lemma_least_divisor_from(n, 2);
        lemma_div_decreases(n as int, smallest_factor(n) as int);
    }
}

/// The product of a sequence of naturals.
pub open spec fn product(s: Seq<nat>) -> nat
    decreases s.len(),
{
    if s.len() == 0 {
        1
    } else {
        s[0] * product(s.drop_first())
    }
}

/// The sequence is in non-decreasing order.
pub open spec fn ascending(s: Seq<nat>) -> bool {
    forall|i: int, j: int| 0 <= i < j < s.len() ==> s[i] <= s[j]
}

/// A machine vector of `u32` seen as a sequence of naturals.
pub open spec fn nats(s: Seq<u32>) -> Seq<nat> {
    s.map_values(|x: u32| x as nat)
}

/// `f` is a prime factorization of `n`: non-empty, ascending, all prime, with product `n`.
pub open spec fn is_factorization(f: Seq<nat>, n: nat) -> bool {
    &&& f.len() > 0
    &&& ascending(f)
    &&& forall|i: int| 0 <= i < f.len() ==> is_prime_spec(#[trigger] f[i])
    &&& product(f) == n
}

proof fn lemma_least_divisor_from(n: nat, d: nat)
    requires
        2 <= d <= n,
    ensures
        d <= least_divisor_from(n, d) <= n,
        n % least_divisor_from(n, d) == 0,
        forall|k: nat| d <= k < least_divisor_from(n, d) ==> #[trigger] (n % k) != 0,
    decreases n - d,
{
    if d == n {
        vstd::arithmetic::div_mod::lemma_mod_self_0(n as int);
    } else if n % d != 0 {
        lemma_least_divisor_from(n, d + 1);
    }
}

/// Divisibility is transitive.
pub proof fn lemma_divides_trans(k: nat, r: nat, n: nat)
    requires
        k > 0,
        r > 0,
        r % k == 0,
        n % r == 0,
    ensures
        n % k == 0,
{
    lemma_fundamental_div_mod(r as int, k as int);
    lemma_fundamental_div_mod(n as int, r as int);
    let a = r / k;
    let b = n / r;
    assert(n == (a * b) * k) by (nonlinear_arith)
        requires
            r == k * a,
            n == r * b,
    ;
    lemma_mod_multiples_basic((a * b) as int, k as int);
}

/// A divisor `d` of `n` with no divisor of `n` in `[2, d)` is its smallest factor.
proof fn lemma_smallest_factor_is(n: nat, d: nat)
    requires
        2 <= d <= n,
        n % d == 0,
        forall|k: nat| 2 <= k < d ==> #[trigger] (n % k) != 0,
    ensures
        smallest_factor(n) == d,
{
    lemma_least_divisor_from(n, 2);
    let r = smallest_factor(n);
    if r < d {
        assert(n % r != 0);
    } else if r > d {
        assert(n % d != 0);
    }
}

/// The smallest factor of `n >= 2` is prime.
proof fn lemma_smallest_factor_prime(n: nat)
    requires
        n >= 2,
    ensures
        is_prime_spec(smallest_factor(n)),
        2 <= smallest_factor(n) <= n,
        n % smallest_factor(n) == 0,
        forall|k: nat| 2 <= k < smallest_factor(n) ==> #[trigger] (n % k) != 0,
{
    lemma_least_divisor_from(n, 2);
    let r = smallest_factor(n);
    assert forall|k: nat| 2 <= k < r implies #[trigger] (r % k) != 0 by {
        if r % k == 0 {
            lemma_divides_trans(k, r, n);
            assert(n % k != 0);
        }
    }
}

/// A number with no divisor in `[2, d)` where `d * d > n` is prime.
proof fn lemma_no_small_divisor(n: nat, d: nat)
    requires
        n >= 2,
        d >= 2,
        d * d > n,
        forall|k: nat| 2 <= k < d ==> #[trigger] (n % k) != 0,
    ensures
        is_prime_spec(n),
{
    assert forall|k: nat| 2 <= k < n implies #[trigger] (n % k) != 0 by {
        if n % k == 0 && k >= d {
            lemma_fundamental_div_mod(n as int, k as int);
            let m = n / k;
            assert(n == m * k);
            assert(2 <= m < d) by (nonlinear_arith)
                requires
                    n == m * k,
                    2 <= k < n,
                    k >= d,
                    d * d > n,
                    m >= 0,
            ;
            lemma_mod_multiples_basic(k as int, m as int);
            assert(n % m == 0) by (nonlinear_arith)
                requires
                    n == m * k,
                    ((k * m) as int) % (m as int) == 0,
            ;
        }
    }
}

/// The smallest factor of a prime is the prime itself.
proof fn lemma_smallest_factor_of_prime(n: nat)
    requires
        is_prime_spec(n),
    ensures
        smallest_factor(n) == n,
{
    lemma_least_divisor_from(n, 2);
}

/// The canonical factorization of `n >= 1` is ascending, made of primes that
/// divide `n`, and multiplies to `n`; it is non-empty for `n >= 2`.
pub proof fn lemma_prime_factors(n: nat)
    requires
        n >= 1,
    ensures
        product(prime_factors_of(n)) == n,
        ascending(prime_factors_of(n)),
        forall|i: int|
            0 <= i < prime_factors_of(n).len() ==> is_prime_spec(#[trigger] prime_factors_of(n)[i])
                && n % prime_factors_of(n)[i] == 0 && prime_factors_of(n)[i] <= n,
        n >= 2 ==> is_factorization(prime_factors_of(n), n),
    decreases n,
{
    if n >= 2 {
        let d = smallest_factor(n);
        lemma_smallest_factor_prime(n);
        let m = n / d;
        lemma_div_decreases(n as int, d as int);
        lemma_fundamental_div_mod(n as int, d as int);
        assert(n == d * m);
        assert(m >= 1) by (nonlinear_arith)
            requires
                n == d * m,
                n >= 2,
        ;
        lemma_prime_factors(m);
        let t = prime_factors_of(m);
        let s = prime_factors_of(n);
        assert(s == seq![d] + t);
        assert(s.drop_first() =~= t);
        lemma_mod_multiples_basic(d as int, m as int);
        assert(n % m == 0) by (nonlinear_arith)
            requires
                n == d * m,
                ((d * m) as int) % (m as int) == 0,
        ;
        assert forall|i: int| 0 <= i < t.len() implies n % #[trigger] t[i] == 0 && d <= t[i] && t[i] <= n by {
            lemma_divides_trans(t[i], m, n);
            if t[i] < d {
                assert(n % t[i] != 0);
            }
            assert(m <= n) by (nonlinear_arith)
                requires
                    n == d * m,
                    d >= 2,
                    m >= 1,
            ;
        }
        assert forall|i: int| 0 <= i < s.len() implies is_prime_spec(#[trigger] s[i]) && n % s[i]
            == 0 && s[i] <= n by {
            if i > 0 {
                assert(s[i] == t[i - 1]);
            }
        }
        assert forall|i: int, j: int| 0 <= i < j < s.len() implies s[i] <= s[j] by {
            if i > 0 {
                assert(s[i] == t[i - 1] && s[j] == t[j - 1]);
            } else {
                assert(s[j] == t[j - 1]);
            }
        }
    }
}

/// The prime factors of `val` in ascending order, each repeated by its
/// multiplicity; `None` when `val < 2`, which has no prime factorization.
pub fn prime_factorization(val: u32) -> (r: Option<Vec<u32>>)
    ensures
        val < 2 ==> r.is_none(),
        val >= 2 ==> r.is_some() && nats(r.unwrap()@) == prime_factors_of(val as nat)
            && is_factorization(nats(r.unwrap()@), val as nat),
{
    if val < 2 {
        return None;
    }
    let mut factors: Vec<u32> = Vec::new();
    let mut rest: u32 = val;
    let mut d: u32 = 2;
    while d <= rest / d
        invariant
            2 <= d,
            2 <= rest <= val,
            nats(factors@) + prime_factors_of(rest as nat) == prime_factors_of(val as nat),
            forall|k: nat| 2 <= k < d ==> #[trigger] ((rest as nat) % k) != 0,
        decreases rest - d,
    {
        proof {
            lemma_fundamental_div_mod(rest as int, d as int);
            assert((d as int) * (d as int) <= rest as int) by (nonlinear_arith)
                requires
                    d <= rest / d,
                    rest == d * (rest / d) + rest % d,
                    rest % d >= 0,
                    d >= 2,
            ;
            assert(d < rest && d < u32::MAX) by (nonlinear_arith)
                requires
                    (d as int) * (d as int) <= rest as int,
                    d >= 2,
                    rest <= u32::MAX,
            ;
        }
        if rest % d == 0 {
            let next = rest / d;
            proof {
                lemma_smallest_factor_is(rest as nat, d as nat);
                lemma_fundamental_div_mod(rest as int, d as int);
                lemma_div_decreases(rest as int, d as int);
                assert(next >= 2) by (nonlinear_arith)
                    requires
                        rest == d * next,
                        (d as int) * (d as int) <= rest as int,
                        d >= 2,
                ;
                assert(prime_factors_of(rest as nat) == seq![d as nat] + prime_factors_of(next as nat));
                assert(nats(factors@.push(d)) =~= nats(factors@).push(d as nat));
                assert(nats(factors@.push(d)) + prime_factors_of(next as nat) =~= nats(factors@)
                    + prime_factors_of(rest as nat));
                assert forall|k: nat| 2 <= k < d implies #[trigger] ((next as nat) % k) != 0 by {
                    if (next as nat) % k == 0 {
                        lemma_mod_multiples_basic(d as int, next as int);
                        assert((rest as nat) % (next as nat) == 0) by (nonlinear_arith)
                            requires
                                rest == d * next,
                                ((d as int) * (next as int)) % (next as int) == 0,
                        ;
                        lemma_divides_trans(k, next as nat, rest as nat);
                    }
                }
            }
            factors.push(d);
            rest = next;
            assert(d <= rest);
        } else {
            d = d + 1;
            assert(d <= rest);
        }
    }
    proof {
        lemma_fundamental_div_mod(rest as int, d as int);
        assert((d as int) * (d as int) > rest as int) by (nonlinear_arith)
            requires
                d > rest / d,
                rest == d * (rest / d) + rest % d,
                rest % d < d,
                d >= 2,
        ;
        lemma_no_small_divisor(rest as nat, d as nat);
        vstd::arithmetic::div_mod::lemma_div_by_self(rest as int);
        lemma_smallest_factor_of_prime(rest as nat);
        assert(prime_factors_of(1) =~= Seq::<nat>::empty());
        assert(prime_factors_of(rest as nat) =~= seq![rest as nat]);
        assert(nats(factors@.push(rest)) =~= nats(factors@) + prime_factors_of(rest as nat));
        lemma_prime_factors(val as nat);
    }
    factors.push(rest);
    Some(factors)
}

} // verus!

verus! {

/// A prime is its own canonical factorization.
pub proof fn lemma_prime_factors_of_prime(n: nat)
    requires
        is_prime_spec(n),
    ensures
        prime_factors_of(n) == seq![n],
{
    lemma_smallest_factor_of_prime(n);
    vstd::arithmetic::div_mod::lemma_div_by_self(n as int);
    assert(prime_factors_of(1) =~= Seq::<nat>::empty());
    assert(prime_factors_of(n) =~= seq![n]);
}

/// Whether `num` is prime: true exactly when its factorization has one factor.
pub fn is_prime(num: u32) -> (r: bool)
    ensures
        r == is_prime_spec(num as nat),
{
    match prime_factorization(num) {
        None => false,
        Some(f) => {
            proof {
                if f.len() == 1 {
                    let s = nats(f@);
                    assert(s.len() == 1);
                    assert(s.drop_first() =~= Seq::<nat>::empty());
                    assert(product(s.drop_first()) == 1);
                    assert(product(s) == s[0] * product(s.drop_first()));
                    let (a, b) = (s[0], product(s.drop_first()));
                    assert(a * b == a) by (nonlinear_arith)
                        requires
                            b == 1,
                    ;
                    assert(is_prime_spec(s[0]));
                }
                if is_prime_spec(num as nat) {
                    lemma_prime_factors_of_prime(num as nat);
                }
            }
            f.len() == 1
        },
    }
}

} // verus!
