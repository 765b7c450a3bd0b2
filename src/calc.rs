//! GCD and LCM of a list of values, computed from their prime factorizations.

use crate::multiplicity::{
    count, factor_bound, lemma_count_positive, lemma_count_remove, lemma_power_product_bump,
    lemma_power_product_ext, lemma_power_product_monotone, lemma_power_product_of_factors,
    lemma_power_product_positive, lemma_power_product_zero, factor_exps, power_product,
};
use crate::prime::{ascending, is_prime_spec, lemma_prime_factors, nats, prime_factorization, prime_factors_of};
use crate::text::{comma_separated, decimal, push_comma_separated, push_decimal};
use vstd::prelude::*;
use vstd::seq_lib::{to_multiset_contains, to_multiset_len};

verus! {

/// Why a GCD or LCM could not be computed.
#[derive(Debug, Clone, Copy, PartialEq, Eq, Structural)]
pub enum CalcError {
    /// The list of values is empty.
    NoValues,
    /// The value (below two) has no prime factorization.
    NoFactorization(u32),
    /// The result does not fit the result type.
    Overflow,
}

/// A list of values to combine.
#[derive(Debug, Default)]
pub struct Calc {
    pub values: Vec<u32>,
}

/// The canonical factorization of each value.
pub open spec fn factor_lists(vs: Seq<u32>) -> Seq<Seq<nat>> {
    vs.map_values(|v: u32| prime_factors_of(v as nat))
}

/// A list of machine factor lists seen as sequences of naturals.
pub open spec fn lists_view(ls: Seq<Vec<u32>>) -> Seq<Seq<nat>> {
    ls.map_values(|v: Vec<u32>| nats(v@))
}

/// The least number of occurrences of `p` in any of the lists (0 for no list).
pub open spec fn min_count(ls: Seq<Seq<nat>>, p: nat) -> nat
    decreases ls.len(),
{
    if ls.len() == 0 {
        0
    } else if ls.len() == 1 {
        count(ls[0], p)
    } else {
        let a = min_count(ls.drop_last(), p);
        let b = count(ls.last(), p);
        if a <= b {
            a
        } else {
            b
        }
    }
}

/// The greatest number of occurrences of `p` in any of the lists (0 for no list).
pub open spec fn max_count(ls: Seq<Seq<nat>>, p: nat) -> nat
    decreases ls.len(),
{
    if ls.len() == 0 {
        0
    } else {
        let a = max_count(ls.drop_last(), p);
        let b = count(ls.last(), p);
        if a >= b {
            a
        } else {
            b
        }
    }
}

/// The GCD of the values: each prime to its least multiplicity among them.
pub open spec fn gcd_of(vs: Seq<u32>) -> nat {
    power_product(min_exps(factor_lists(vs)), factor_bound())
}

/// The LCM of the values: each prime to its greatest multiplicity among them.
pub open spec fn lcm_of(vs: Seq<u32>) -> nat {
    power_product(max_exps(factor_lists(vs)), factor_bound())
}

/// Every value has a prime factorization.
pub open spec fn all_factorable(vs: Seq<u32>) -> bool {
    forall|i: int| 0 <= i < vs.len() ==> #[trigger] vs[i] >= 2
}

/// The values form a valid input: non-empty, each at least two.
pub open spec fn valid_input(vs: Seq<u32>) -> bool {
    vs.len() > 0 && all_factorable(vs)
}

/// `v` is the first value of the list that has no prime factorization.
pub open spec fn first_unfactorable(vs: Seq<u32>, v: u32) -> bool {
    exists|i: int|
        0 <= i < vs.len() && vs[i] == v && v < 2 && forall|j: int| 0 <= j < i ==> #[trigger] vs[j]
            >= 2
}

/// `e` is the error that the input `vs` itself calls for.
pub open spec fn input_fault(vs: Seq<u32>, e: CalcError) -> bool {
    match e {
        CalcError::NoValues => vs.len() == 0,
        CalcError::NoFactorization(v) => vs.len() > 0 && first_unfactorable(vs, v),
        CalcError::Overflow => false,
    }
}

/// The line that shows the factorization of `v`: ` pfz(v) = [f1, f2, ...]`,
/// or ` pfz(v) = {}` when `v` has none.
pub open spec fn pfz_line(v: u32) -> Seq<char> {
    " pfz("@ + decimal(v as nat) + if v < 2 {
        ") = {}"@
    } else {
        ") = ["@ + comma_separated(prime_factors_of(v as nat)) + "]"@
    }
}

/// The line that shows the GCD `g` of the values; `teilerfremd` (coprime) for one.
pub open spec fn ggt_line(vs: Seq<u32>, g: nat) -> Seq<char> {
    " ggT("@ + comma_separated(nats(vs)) + ") = "@ + if g == 1 {
        "teilerfremd"@
    } else {
        decimal(g)
    }
}

/// The line that shows the LCM `m` of the values.
pub open spec fn kgv_line(vs: Seq<u32>, m: nat) -> Seq<char> {
    " kgV("@ + comma_separated(nats(vs)) + ") = "@ + decimal(m)
}

/// Every element of every list is at least two.
pub open spec fn lists_above_one(ls: Seq<Seq<nat>>) -> bool {
    forall|i: int, j: int| 0 <= i < ls.len() && 0 <= j < ls[i].len() ==> #[trigger] ls[i][j] >= 2
}

/// `new` is `old` with one occurrence of `p` taken out, if it had one.
pub open spec fn removed_one(new: Seq<nat>, old: Seq<nat>, p: nat) -> bool {
    &&& forall|q: nat|
        #[trigger] count(new, q) == if q == p && count(old, p) > 0 {
            (count(old, q) - 1) as nat
        } else {
            count(old, q)
        }
    &&& forall|j: int| 0 <= j < new.len() ==> exists|k: int| 0 <= k < old.len() && old[k] == #[trigger] new[j]
}

/// Exponents of the primes above `last`: their least multiplicity.
pub open spec fn exps_above(ls: Seq<Seq<nat>>, last: nat) -> spec_fn(nat) -> nat {
    |q: nat|
        if q > last {
            min_count(ls, q)
        } else {
            0
        }
}

/// Exponents of the primes from `p` on: `c` for `p`, the least multiplicity above it.
pub open spec fn exps_from(ls: Seq<Seq<nat>>, p: nat, c: nat) -> spec_fn(nat) -> nat {
    |q: nat|
        if q > p {
            min_count(ls, q)
        } else if q == p {
            c
        } else {
            0
        }
}

/// The least multiplicity of each prime among the lists.
pub open spec fn min_exps(ls: Seq<Seq<nat>>) -> spec_fn(nat) -> nat {
    |q: nat| min_count(ls, q)
}

/// The greatest multiplicity of each prime among the lists.
pub open spec fn max_exps(ls: Seq<Seq<nat>>) -> spec_fn(nat) -> nat {
    |q: nat| max_count(ls, q)
}

proof fn lemma_min_count_bounds(ls: Seq<Seq<nat>>, p: nat)
    requires
        ls.len() > 0,
    ensures
        forall|i: int| 0 <= i < ls.len() ==> min_count(ls, p) <= #[trigger] count(ls[i], p),
        exists|i: int| 0 <= i < ls.len() && min_count(ls, p) == #[trigger] count(ls[i], p),
    decreases ls.len(),
{
    if ls.len() == 1 {
        assert(min_count(ls, p) == count(ls[0], p));
    } else {
        lemma_min_count_bounds(ls.drop_last(), p);
        let i = choose|i: int|
            0 <= i < ls.drop_last().len() && min_count(ls.drop_last(), p) == #[trigger] count(
                ls.drop_last()[i],
                p,
            );
        assert(ls.drop_last()[i] == ls[i]);
        if min_count(ls, p) == count(ls.last(), p) {
            assert(count(ls[ls.len() - 1], p) == min_count(ls, p));
        } else {
            assert(count(ls[i], p) == min_count(ls, p));
        }
        assert forall|k: int| 0 <= k < ls.len() implies min_count(ls, p) <= #[trigger] count(ls[k], p) by {
            if k < ls.len() - 1 {
                assert(ls.drop_last()[k] == ls[k]);
            }
        }
    }
}

proof fn lemma_max_count_bounds(ls: Seq<Seq<nat>>, p: nat)
    ensures
        forall|i: int| 0 <= i < ls.len() ==> #[trigger] count(ls[i], p) <= max_count(ls, p),
        ls.len() > 0 ==> exists|i: int| 0 <= i < ls.len() && max_count(ls, p) == #[trigger] count(ls[i], p),
    decreases ls.len(),
{
    if ls.len() > 0 {
        lemma_max_count_bounds(ls.drop_last(), p);
        assert forall|k: int| 0 <= k < ls.len() implies #[trigger] count(ls[k], p) <= max_count(ls, p) by {
            if k < ls.len() - 1 {
                assert(ls.drop_last()[k] == ls[k]);
            }
        }
        if max_count(ls, p) == count(ls.last(), p) {
            assert(count(ls[ls.len() - 1], p) == max_count(ls, p));
        } else {
            let i = choose|i: int|
                0 <= i < ls.drop_last().len() && max_count(ls.drop_last(), p) == #[trigger] count(
                    ls.drop_last()[i],
                    p,
                );
            assert(ls.drop_last()[i] == ls[i]);
        }
    }
}

/// The least multiplicity of a prime missing from the first list is zero.
proof fn lemma_min_count_absent(ls: Seq<Seq<nat>>, q: nat)
    requires
        ls.len() > 0,
        !ls[0].contains(q),
    ensures
        min_count(ls, q) == 0,
{
    lemma_min_count_bounds(ls, q);
    lemma_count_positive(ls[0], q);
}

/// Taking one occurrence of `p` out of every list that has one lowers the
/// greatest multiplicity of `p` by one (down to zero).
proof fn lemma_max_count_decrement(ls1: Seq<Seq<nat>>, ls2: Seq<Seq<nat>>, p: nat)
    requires
        ls1.len() == ls2.len(),
        forall|i: int|
            0 <= i < ls1.len() ==> #[trigger] count(ls2[i], p) == if count(ls1[i], p) > 0 {
                (count(ls1[i], p) - 1) as nat
            } else {
                0
            },
    ensures
        max_count(ls2, p) == if max_count(ls1, p) > 0 {
            (max_count(ls1, p) - 1) as nat
        } else {
            0
        },
    decreases ls1.len(),
{
    if ls1.len() > 0 {
        let n = ls1.len() - 1;
        assert forall|i: int| 0 <= i < ls1.drop_last().len() implies #[trigger] count(
            ls2.drop_last()[i],
            p,
        ) == if count(ls1.drop_last()[i], p) > 0 {
            (count(ls1.drop_last()[i], p) - 1) as nat
        } else {
            0
        } by {
            assert(count(ls2[i], p) == count(ls2.drop_last()[i], p));
        }
        lemma_max_count_decrement(ls1.drop_last(), ls2.drop_last(), p);
        assert(count(ls2[n], p) == count(ls2.last(), p));
    }
}

/// Lists with the same counts of `q` have the same greatest count of `q`.
proof fn lemma_max_count_same(ls1: Seq<Seq<nat>>, ls2: Seq<Seq<nat>>, q: nat)
    requires
        ls1.len() == ls2.len(),
        forall|i: int| 0 <= i < ls1.len() ==> #[trigger] count(ls2[i], q) == count(ls1[i], q),
    ensures
        max_count(ls2, q) == max_count(ls1, q),
    decreases ls1.len(),
{
    if ls1.len() > 0 {
        assert forall|i: int| 0 <= i < ls1.drop_last().len() implies #[trigger] count(
            ls2.drop_last()[i],
            q,
        ) == count(ls1.drop_last()[i], q) by {
            assert(count(ls2[i], q) == count(ls1[i], q));
        }
        lemma_max_count_same(ls1.drop_last(), ls2.drop_last(), q);
        assert(count(ls2[ls1.len() - 1], q) == count(ls1[ls1.len() - 1], q));
    }
}

/// The GCD of valid values is at most the first of them.
proof fn lemma_gcd_at_most_first(vs: Seq<u32>)
    requires
        valid_input(vs),
    ensures
        gcd_of(vs) <= vs[0],
{
    let ls = factor_lists(vs);
    assert forall|k: nat| 2 <= k <= factor_bound() implies #[trigger] min_exps(ls)(k)
        <= factor_exps(vs[0] as nat)(k) by {
        lemma_min_count_bounds(ls, k);
        assert(ls[0] == prime_factors_of(vs[0] as nat));
    }
    lemma_power_product_monotone(min_exps(ls), factor_exps(vs[0] as nat), factor_bound());
    lemma_power_product_of_factors(vs[0] as nat, factor_bound());
}

/// The number of occurrences of `p` in `v`.
fn count_in(v: &Vec<u32>, p: u32) -> (r: usize)
    ensures
        r == count(nats(v@), p as nat),
{
    let mut n: usize = 0;
    let mut i: usize = 0;
    while i < v.len()
        invariant
            i <= v.len(),
            n == count(nats(v@).subrange(0, i as int), p as nat),
            n <= i,
        decreases v.len() - i,
    {
        assert(nats(v@).subrange(0, i + 1).drop_last() =~= nats(v@).subrange(0, i as int));
        if v[i] == p {
            n = n + 1;
        }
        i = i + 1;
    }
    assert(nats(v@).subrange(0, i as int) =~= nats(v@));
    n
}

/// The least number of occurrences of `p` in any of the lists.
fn min_count_in(lists: &Vec<Vec<u32>>, p: u32) -> (r: usize)
    requires
        lists.len() > 0,
    ensures
        r == min_count(lists_view(lists@), p as nat),
{
    let ghost ls = lists_view(lists@);
    let mut m: usize = count_in(&lists[0], p);
    assert(ls.subrange(0, 1)[0] == ls[0]);
    let mut i: usize = 1;
    while i < lists.len()
        invariant
            1 <= i <= lists.len(),
            ls == lists_view(lists@),
            m == min_count(ls.subrange(0, i as int), p as nat),
        decreases lists.len() - i,
    {
        let c = count_in(&lists[i], p);
        assert(ls.subrange(0, i + 1).drop_last() =~= ls.subrange(0, i as int));
        assert(ls.subrange(0, i + 1).last() == ls[i as int]);
        if c < m {
            m = c;
        }
        i = i + 1;
    }
    assert(ls.subrange(0, i as int) =~= ls);
    m
}

/// Takes the first occurrence of `p` out of `v`, if there is one.
fn remove_one(v: &mut Vec<u32>, p: u32)
    ensures
        removed_one(nats(final(v)@), nats(old(v)@), p as nat),
{
    let ghost s = nats(v@);
    let mut i: usize = 0;
    while i < v.len()
        invariant
            i <= v.len(),
            v@ == old(v)@,
            s == nats(v@),
            forall|k: int| 0 <= k < i ==> v@[k] != p,
        decreases v.len() - i,
    {
        if v[i] == p {
            v.remove(i);
            proof {
                assert(nats(v@) =~= s.remove(i as int));
                assert forall|q: nat| #[trigger] count(nats(v@), q) == if q == p && count(s, p as nat) > 0 {
                    (count(s, q) - 1) as nat
                } else {
                    count(s, q)
                } by {
                    lemma_count_remove(s, i as int, q);
                    lemma_count_remove(s, i as int, p as nat);
                }
                assert forall|j: int| 0 <= j < nats(v@).len() implies exists|k: int|
                    0 <= k < s.len() && s[k] == #[trigger] nats(v@)[j] by {
                    if j < i {
                        assert(s[j] == nats(v@)[j]);
                    } else {
                        assert(s[j + 1] == nats(v@)[j]);
                    }
                }
            }
            return;
        }
        i = i + 1;
    }
    proof {
        assert(!s.contains(p as nat));
        lemma_count_positive(s, p as nat);
        assert forall|j: int| 0 <= j < s.len() implies exists|k: int|
            0 <= k < s.len() && s[k] == #[trigger] s[j] by {}
    }
}

/// Checks that the values are a valid input for a GCD or LCM.
fn validate(values: &Vec<u32>) -> (r: Result<(), CalcError>)
    ensures
        match r {
            Ok(()) => valid_input(values@),
            Err(e) => input_fault(values@, e),
        },
{
    if values.len() == 0 {
        return Err(CalcError::NoValues);
    }
    let mut i: usize = 0;
    while i < values.len()
        invariant
            i <= values.len(),
            forall|j: int| 0 <= j < i ==> #[trigger] values@[j] >= 2,
        decreases values.len() - i,
    {
        if values[i] < 2 {
            assert(first_unfactorable(values@, values@[i as int]));
            return Err(CalcError::NoFactorization(values[i]));
        }
        i = i + 1;
    }
    Ok(())
}

impl Calc {
    /// A calculator over the given values.
    pub fn new(values: Vec<u32>) -> (r: Self)
        ensures
            r.values@ == values@,
    {
        Calc { values }
    }

    /// The prime factorization of each value, in the order of the values.
    pub fn values_pf(&self) -> (r: Vec<Vec<u32>>)
        requires
            all_factorable(self.values@),
        ensures
            lists_view(r@) == factor_lists(self.values@),
    {
        let mut out: Vec<Vec<u32>> = Vec::new();
        let mut i: usize = 0;
        while i < self.values.len()
            invariant
                i <= self.values.len(),
                all_factorable(self.values@),
                lists_view(out@) =~= factor_lists(self.values@.subrange(0, i as int)),
            decreases self.values.len() - i,
        {
            assert(self.values@[i as int] >= 2);
            let r = prime_factorization(self.values[i]);
            let f = r.unwrap();
            assert(nats(f@) == prime_factors_of(self.values@[i as int] as nat));
            let ghost prev = out@;
            out.push(f);
            proof {
                assert(out@ == prev.push(f));
                let now = self.values@.subrange(0, i + 1);
                assert(lists_view(out@) =~= lists_view(prev).push(nats(f@)));
                assert(factor_lists(now) =~= factor_lists(self.values@.subrange(0, i as int)).push(
                    prime_factors_of(self.values@[i as int] as nat),
                ));
            }
            i = i + 1;
        }
        assert(self.values@.subrange(0, i as int) =~= self.values@);
        out
    }

    /// The values in decimal, separated by a comma and a space.
    pub fn values_for_display(&self) -> (r: String)
        ensures
            r@ == comma_separated(nats(self.values@)),
    {
        let mut s = String::new();
        push_comma_separated(&mut s, &self.values);
        assert(s@ =~= comma_separated(nats(self.values@)));
        s
    }

    /// The greatest common divisor of the values, from their factorizations:
    /// each prime of the first value, to its least multiplicity among all.
    pub fn gcd(&self) -> (r: Result<u32, CalcError>)
        ensures
            match r {
                Ok(g) => valid_input(self.values@) && g == gcd_of(self.values@),
                Err(e) => input_fault(self.values@, e),
            },
    {
        if let Err(e) = validate(&self.values) {
            return Err(e);
        }
        let lists = self.values_pf();
        let ghost vs = self.values@;
        let ghost ls = factor_lists(vs);
        let ghost top = factor_bound();
        assert(lists@.len() == lists_view(lists@).len());
        let first = &lists[0];
        let ghost f = nats(first@);
        proof {
            assert(ls[0] == lists_view(lists@)[0]);
            assert(ls[0] == f);
            lemma_prime_factors(vs[0] as nat);
            lemma_gcd_at_most_first(vs);
            lemma_power_product_ext(exps_above(ls, 0), min_exps(ls), top);
        }
        let mut g: u32 = 1;
        let mut last: u32 = 0;
        let mut j: usize = 0;
        while j < first.len()
            invariant
                lists_view(lists@) == ls,
                ls.len() > 0,
                ls[0] == f,
                f == nats(first@),
                f == prime_factors_of(vs[0] as nat),
                f.len() > 0,
                ascending(f),
                forall|i: int| 0 <= i < f.len() ==> is_prime_spec(#[trigger] f[i]),
                gcd_of(vs) <= u32::MAX,
                gcd_of(vs) == power_product(min_exps(ls), top),
                top == factor_bound(),
                j <= first.len(),
                j == 0 ==> last == 0,
                j > 0 ==> last == first@[j - 1],
                g as nat * power_product(exps_above(ls, last as nat), top) == gcd_of(vs),
            decreases first.len() - j,
        {
            let p = first[j];
            if p != last {
                let n = min_count_in(&lists, p);
                proof {
                    assert(f[j as int] == p);
                    assert(p as nat > last as nat) by {
                        if j > 0 {
                            assert(f[j - 1] == last);
                        }
                    }
                    assert forall|q: nat| 2 <= q <= top implies #[trigger] exps_above(ls, last as nat)(q)
                        == exps_from(ls, p as nat, n as nat)(q) by {
                        if last < q < p {
                            assert forall|i: int| 0 <= i < f.len() implies f[i] != q by {
                                if i < j {
                                    assert(f[i] <= f[j - 1]);
                                } else {
                                    assert(f[j as int] <= f[i]);
                                }
                            }
                            lemma_min_count_absent(ls, q);
                        }
                    }
                    lemma_power_product_ext(exps_above(ls, last as nat), exps_from(ls, p as nat, n as nat), top);
                }
                let mut k: usize = 0;
                while k < n
                    invariant
                        k <= n,
                        2 <= p,
                        gcd_of(vs) <= u32::MAX,
                        top == factor_bound(),
                        g as nat * power_product(exps_from(ls, p as nat, (n - k) as nat), top) == gcd_of(vs),
                    decreases n - k,
                {
                    proof {
                        let e1 = exps_from(ls, p as nat, (n - k - 1) as nat);
                        let e2 = exps_from(ls, p as nat, (n - k) as nat);
                        lemma_power_product_bump(e1, e2, p as nat, top);
                        lemma_power_product_positive(e1, top);
                        let rest = power_product(e1, top);
                        assert(g as nat * (p as nat) <= gcd_of(vs)) by (nonlinear_arith)
                            requires
                                g as nat * (rest * p as nat) == gcd_of(vs),
                                rest >= 1,
                        ;
                        assert((g as nat * p as nat) * rest == gcd_of(vs)) by (nonlinear_arith)
                            requires
                                g as nat * (rest * p as nat) == gcd_of(vs),
                        ;
                    }
                    g = g * p;
                    k = k + 1;
                }
                proof {
                    lemma_power_product_ext(exps_from(ls, p as nat, 0), exps_above(ls, p as nat), top);
                }
                last = p;
            }
            j = j + 1;
        }
        proof {
            assert forall|q: nat| 2 <= q <= top implies #[trigger] exps_above(ls, last as nat)(q) == 0 by {
                if q > last {
                    assert forall|i: int| 0 <= i < f.len() implies f[i] != q by {
                        assert(f[i] <= f[f.len() - 1]);
                    }
                    lemma_min_count_absent(ls, q);
                }
            }
            lemma_power_product_zero(exps_above(ls, last as nat), top);
        }
        Ok(g)
    }

    /// The least common multiple of the values, from their factorizations: each
    /// factor taken in turn goes into the result and cancels one equal factor
    /// in every list still left; `Overflow` when the result exceeds `u64`.
    pub fn lcm(&self) -> (r: Result<u64, CalcError>)
        ensures
            match r {
                Ok(m) => valid_input(self.values@) && m == lcm_of(self.values@),
                Err(CalcError::Overflow) => valid_input(self.values@) && lcm_of(self.values@)
                    > u64::MAX,
                Err(e) => input_fault(self.values@, e),
            },
    {
        if let Err(e) = validate(&self.values) {
            return Err(e);
        }
        let mut lists = self.values_pf();
        let ghost vs = self.values@;
        let ghost top = factor_bound();
        proof {
            lemma_lists_above_one(vs);
            assert(lists_view(lists@) == factor_lists(vs));
        }
        let mut acc: u64 = 1;
        while lists.len() > 0
            invariant
                valid_input(vs),
                vs == self.values@,
                top == factor_bound(),
                lists_above_one(lists_view(lists@)),
                acc as nat * power_product(max_exps(lists_view(lists@)), top) == lcm_of(vs),
            decreases lists.len(),
        {
            let ghost before = lists_view(lists@);
            let mut cur = lists.pop().unwrap();
            assert(lists_view(lists@).push(nats(cur@)) =~= before);
            let ghost remaining = lists.len();
            while cur.len() > 0
                invariant
                    lists.len() == remaining,
                    valid_input(vs),
                    vs == self.values@,
                    top == factor_bound(),
                    lists_above_one(lists_view(lists@).push(nats(cur@))),
                    acc as nat * power_product(max_exps(lists_view(lists@).push(nats(cur@))), top)
                        == lcm_of(vs),
                decreases cur.len(),
            {
                let ghost old_lists = lists_view(lists@);
                let ghost old_cur = nats(cur@);
                let ghost all_old = old_lists.push(old_cur);
                let pf = cur.pop().unwrap();
                proof {
                    assert(nats(cur@) =~= old_cur.drop_last());
                    assert(all_old[all_old.len() - 1] == old_cur);
                    assert(old_cur[old_cur.len() - 1] >= 2);
                }
                let mut i: usize = 0;
                while i < lists.len()
                    invariant
                        i <= lists.len(),
                        lists.len() == old_lists.len(),
                        forall|k: int| 0 <= k < i ==> removed_one(#[trigger] lists_view(lists@)[k], old_lists[k], pf as nat),
                        forall|k: int| i <= k < lists.len() ==> #[trigger] lists_view(lists@)[k] == old_lists[k],
                    decreases lists.len() - i,
                {
                    let ghost prev = lists@;
                    remove_one(&mut lists[i], pf);
                    proof {
                        assert(lists@ == prev.update(i as int, lists@[i as int]));
                        assert forall|k: int| 0 <= k < lists.len() && k != i implies #[trigger] lists_view(lists@)[k]
                            == lists_view(prev)[k] by {
                            assert(lists@[k] == prev[k]);
                        }
                        assert(lists_view(lists@)[i as int] == nats(lists@[i as int]@));
                        assert(lists_view(prev)[i as int] == nats(prev[i as int]@));
                    }
                    i = i + 1;
                }
                let ghost all_new = lists_view(lists@).push(nats(cur@));
                proof {
                    lemma_lcm_step(all_old, all_new, pf as nat, top);
                }
                let ghost rest = power_product(max_exps(all_new), top);
                proof {
                    lemma_power_product_positive(max_exps(all_new), top);
                }
                match acc.checked_mul(pf as u64) {
                    Some(x) => {
                        proof {
                            assert(x as nat * rest == lcm_of(vs)) by (nonlinear_arith)
                                requires
                                    acc as nat * (rest * pf as nat) == lcm_of(vs),
                                    x == acc * pf,
                            ;
                        }
                        acc = x;
                    },
                    None => {
                        proof {
                            assert(lcm_of(vs) >= acc as nat * pf as nat) by (nonlinear_arith)
                                requires
                                    acc as nat * (rest * pf as nat) == lcm_of(vs),
                                    rest >= 1,
                            ;
                        }
                        return Err(CalcError::Overflow);
                    },
                }
            }
            proof {
                assert(lists_view(lists@).push(nats(cur@)).drop_last() =~= lists_view(lists@));
                lemma_power_product_ext(
                    max_exps(lists_view(lists@).push(nats(cur@))),
                    max_exps(lists_view(lists@)),
                    top,
                );
                assert forall|i: int, j: int| 0 <= i < lists_view(lists@).len() && 0 <= j
                    < lists_view(lists@)[i].len() implies #[trigger] lists_view(lists@)[i][j] >= 2 by {
                    assert(lists_view(lists@).push(nats(cur@))[i] == lists_view(lists@)[i]);
                }
            }
        }
        proof {
            lemma_power_product_zero(max_exps(lists_view(lists@)), top);
        }
        Ok(acc)
    }
}

impl Calc {
    /// One line per value, in order, showing its prime factorization.
    pub fn command_pfz(&self) -> (r: Vec<String>)
        ensures
            r.len() == self.values.len(),
            forall|i: int| 0 <= i < r.len() ==> #[trigger] r[i]@ == pfz_line(self.values@[i]),
    {
        let mut lines: Vec<String> = Vec::new();
        let mut i: usize = 0;
        while i < self.values.len()
            invariant
                i <= self.values.len(),
                lines.len() == i,
                forall|k: int| 0 <= k < i ==> #[trigger] lines[k]@ == pfz_line(self.values@[k]),
            decreases self.values.len() - i,
        {
            let v = self.values[i];
            let mut line = String::from_str(" pfz(");
            push_decimal(&mut line, v as u64);
            match prime_factorization(v) {
                Some(f) => {
                    line.append(") = [");
                    push_comma_separated(&mut line, &f);
                    line.append("]");
                },
                None => {
                    line.append(") = {}");
                },
            }
            assert(line@ =~= pfz_line(v));
            lines.push(line);
            i = i + 1;
        }
        lines
    }

    /// The line showing the GCD of the values.
    pub fn command_ggt(&self) -> (r: Result<String, CalcError>)
        ensures
            match r {
                Ok(s) => valid_input(self.values@) && s@ == ggt_line(self.values@, gcd_of(self.values@)),
                Err(e) => input_fault(self.values@, e),
            },
    {
        let g = match self.gcd() {
            Ok(g) => g,
            Err(e) => return Err(e),
        };
        let mut line = String::from_str(" ggT(");
        push_comma_separated(&mut line, &self.values);
        line.append(") = ");
        if g == 1 {
            line.append("teilerfremd");
        } else {
            push_decimal(&mut line, g as u64);
        }
        assert(line@ =~= ggt_line(self.values@, gcd_of(self.values@)));
        Ok(line)
    }

    /// The line showing the LCM of the values.
    pub fn command_kgv(&self) -> (r: Result<String, CalcError>)
        ensures
            match r {
                Ok(s) => valid_input(self.values@) && s@ == kgv_line(self.values@, lcm_of(self.values@)),
                Err(CalcError::Overflow) => valid_input(self.values@) && lcm_of(self.values@)
                    > u64::MAX,
                Err(e) => input_fault(self.values@, e),
            },
    {
        let m = match self.lcm() {
            Ok(m) => m,
            Err(e) => return Err(e),
        };
        let mut line = String::from_str(" kgV(");
        push_comma_separated(&mut line, &self.values);
        line.append(") = ");
        push_decimal(&mut line, m);
        assert(line@ =~= kgv_line(self.values@, lcm_of(self.values@)));
        Ok(line)
    }
}

/// The factor lists of valid values hold only numbers above one.
proof fn lemma_lists_above_one(vs: Seq<u32>)
    ensures
        lists_above_one(factor_lists(vs)),
{
    assert forall|i: int, j: int| 0 <= i < factor_lists(vs).len() && 0 <= j < factor_lists(vs)[i].len()
        implies #[trigger] factor_lists(vs)[i][j] >= 2 by {
        if vs[i] >= 1 {
            lemma_prime_factors(vs[i] as nat);
        }
    }
}

/// One step of the LCM: consuming `p` from the last list, and one `p` from
/// every other list, divides the remaining power product by `p`.
proof fn lemma_lcm_step(all_old: Seq<Seq<nat>>, all_new: Seq<Seq<nat>>, p: nat, top: nat)
    requires
        top == factor_bound(),
        all_old.len() == all_new.len(),
        all_old.len() > 0,
        lists_above_one(all_old),
        all_old.last().len() > 0,
        all_old.last().last() == p,
        p <= top,
        all_new.last() == all_old.last().drop_last(),
        forall|k: int| 0 <= k < all_old.len() - 1 ==> removed_one(#[trigger] all_new[k], all_old[k], p),
    ensures
        power_product(max_exps(all_old), top) == power_product(max_exps(all_new), top) * p,
        lists_above_one(all_new),
        2 <= p,
{
    let n = all_old.len() - 1;
    assert(all_old[n][all_old[n].len() - 1] == p);
    assert forall|q: nat| q != p implies #[trigger] max_count(all_new, q) == max_count(all_old, q) by {
        assert forall|i: int| 0 <= i < all_old.len() implies #[trigger] count(all_new[i], q) == count(all_old[i], q) by {
            if i < n {
                assert(removed_one(all_new[i], all_old[i], p));
            } else {
                assert(all_new[i] == all_old[i].drop_last());
            }
        }
        lemma_max_count_same(all_old, all_new, q);
    }
    assert(count(all_old[n], p) > 0);
    assert forall|i: int| 0 <= i < all_old.len() implies #[trigger] count(all_new[i], p) == if count(all_old[i], p) > 0 {
        (count(all_old[i], p) - 1) as nat
    } else {
        0
    } by {
        if i < n {
            assert(removed_one(all_new[i], all_old[i], p));
        } else {
            assert(all_new[i] == all_old[i].drop_last());
        }
    }
    lemma_max_count_decrement(all_old, all_new, p);
    lemma_max_count_bounds(all_old, p);
    lemma_power_product_bump(max_exps(all_new), max_exps(all_old), p, top);
    assert forall|i: int, j: int| 0 <= i < all_new.len() && 0 <= j < all_new[i].len()
        implies #[trigger] all_new[i][j] >= 2 by {
        if i < n {
            assert(removed_one(all_new[i], all_old[i], p));
            let k = choose|k: int| 0 <= k < all_old[i].len() && all_old[i][k] == all_new[i][j];
            assert(all_old[i][k] >= 2);
        } else {
            assert(all_new[i][j] == all_old[i][j]);
        }
    }
}

/// Two value lists with the same values: each value of one occurs in the other.
proof fn lemma_same_values_counts(vs1: Seq<u32>, vs2: Seq<u32>, q: nat)
    requires
        vs1.len() > 0,
        forall|i: int| 0 <= i < vs1.len() ==> vs2.contains(#[trigger] vs1[i]),
    ensures
        min_count(factor_lists(vs2), q) <= min_count(factor_lists(vs1), q),
        max_count(factor_lists(vs1), q) <= max_count(factor_lists(vs2), q),
{
    let ls1 = factor_lists(vs1);
    let ls2 = factor_lists(vs2);
    lemma_min_count_bounds(ls1, q);
    lemma_max_count_bounds(ls1, q);
    lemma_max_count_bounds(ls2, q);
    let i = choose|i: int| 0 <= i < ls1.len() && min_count(ls1, q) == #[trigger] count(ls1[i], q);
    assert(vs2.contains(vs1[i]));
    let j = choose|j: int| 0 <= j < vs2.len() && vs2[j] == vs1[i];
    assert(ls2[j] == ls1[i]);
    lemma_min_count_bounds(ls2, q);
    let k = choose|k: int| 0 <= k < ls1.len() && max_count(ls1, q) == #[trigger] count(ls1[k], q);
    assert(vs2.contains(vs1[k]));
    let l = choose|l: int| 0 <= l < vs2.len() && vs2[l] == vs1[k];
    assert(ls2[l] == ls1[k]);
}

/// GCD and LCM do not depend on the order of the values: two lists that hold
/// the same values, each as often, are equally valid and have the same GCD
/// and the same LCM.
pub proof fn lemma_order_independent(vs1: Seq<u32>, vs2: Seq<u32>)
    requires
        vs1.to_multiset() == vs2.to_multiset(),
    ensures
        valid_input(vs1) == valid_input(vs2),
        gcd_of(vs1) == gcd_of(vs2),
        lcm_of(vs1) == lcm_of(vs2),
{
    to_multiset_len(vs1);
    to_multiset_len(vs2);
    assert forall|i: int| 0 <= i < vs1.len() implies vs2.contains(#[trigger] vs1[i]) by {
        assert(vs1.contains(vs1[i]));
        to_multiset_contains(vs1, vs1[i]);
        to_multiset_contains(vs2, vs1[i]);
    }
    assert forall|i: int| 0 <= i < vs2.len() implies vs1.contains(#[trigger] vs2[i]) by {
        assert(vs2.contains(vs2[i]));
        to_multiset_contains(vs1, vs2[i]);
        to_multiset_contains(vs2, vs2[i]);
    }
    if all_factorable(vs1) {
        assert forall|i: int| 0 <= i < vs2.len() implies #[trigger] vs2[i] >= 2 by {
            assert(vs1.contains(vs2[i]));
        }
    }
    if all_factorable(vs2) {
        assert forall|i: int| 0 <= i < vs1.len() implies #[trigger] vs1[i] >= 2 by {
            assert(vs2.contains(vs1[i]));
        }
    }
    if vs1.len() > 0 {
        assert forall|q: nat| 2 <= q <= factor_bound() implies #[trigger] min_exps(factor_lists(vs1))(q)
            == min_exps(factor_lists(vs2))(q) by {
            lemma_same_values_counts(vs1, vs2, q);
            lemma_same_values_counts(vs2, vs1, q);
        }
        assert forall|q: nat| 2 <= q <= factor_bound() implies #[trigger] max_exps(factor_lists(vs1))(q)
            == max_exps(factor_lists(vs2))(q) by {
            lemma_same_values_counts(vs1, vs2, q);
            lemma_same_values_counts(vs2, vs1, q);
        }
    } else {
        assert(factor_lists(vs1) =~= factor_lists(vs2));
    }
    lemma_power_product_ext(min_exps(factor_lists(vs1)), min_exps(factor_lists(vs2)), factor_bound());
    lemma_power_product_ext(max_exps(factor_lists(vs1)), max_exps(factor_lists(vs2)), factor_bound());
}

/// For a single value `n >= 2`, both the GCD and the LCM are `n` itself.
pub proof fn lemma_single_value(n: u32)
    requires
        n >= 2,
    ensures
        gcd_of(seq![n]) == n,
        lcm_of(seq![n]) == n,
{
    let ls = factor_lists(seq![n]);
    assert(ls.len() == 1 && ls[0] == prime_factors_of(n as nat));
    assert(ls.drop_last().len() == 0);
    assert forall|q: nat| 2 <= q <= factor_bound() implies #[trigger] max_exps(ls)(q)
        == factor_exps(n as nat)(q) by {
        assert(max_count(ls.drop_last(), q) == 0);
    }
    lemma_power_product_ext(min_exps(ls), factor_exps(n as nat), factor_bound());
    lemma_power_product_ext(max_exps(ls), factor_exps(n as nat), factor_bound());
    lemma_power_product_of_factors(n as nat, factor_bound());
}

/// Every operation depends on its input alone: the same values give the same
/// factorizations, GCD, LCM and output lines each time they are computed.
pub proof fn lemma_same_input_same_output(vs1: Seq<u32>, vs2: Seq<u32>)
    requires
        vs1 == vs2,
    ensures
        factor_lists(vs1) == factor_lists(vs2),
        valid_input(vs1) == valid_input(vs2),
        gcd_of(vs1) == gcd_of(vs2),
        lcm_of(vs1) == lcm_of(vs2),
        ggt_line(vs1, gcd_of(vs1)) == ggt_line(vs2, gcd_of(vs2)),
        kgv_line(vs1, lcm_of(vs1)) == kgv_line(vs2, lcm_of(vs2)),
        forall|i: int| 0 <= i < vs1.len() ==> #[trigger] pfz_line(vs1[i]) == pfz_line(vs2[i]),
{
}

} // verus!
