use vstd::prelude::*;

use std::collections::BTreeMap;

use crate::rational::spec_gcd;

verus! {

/// `p` is a prime number.
pub open spec fn spec_is_prime(p: nat) -> bool {
    p > 1 && forall|k: nat| 2 <= k < p ==> #[trigger] (p % k) != 0
}

/// The least common multiple, zero when either argument is zero.
pub open spec fn spec_lcm(a: nat, b: nat) -> nat {
    if a == 0 || b == 0 {
        0
    } else {
        (a / spec_gcd(a, b)) * b
    }
}

/// The highest common factor of `a` and `b`, by Euclid's algorithm.
pub fn hcf(a: u32, b: u32) -> (r: u32)
    ensures
        r == spec_gcd(a as nat, b as nat),
{
    let mut x = a;
    let mut y = b;
    while y != 0
        invariant
            spec_gcd(x as nat, y as nat) == spec_gcd(a as nat, b as nat),
        decreases y,
    {
        let t = y;
        y = x % y;
        x = t;
    }
    x
}

/// The greatest common divisor of `a` and `b` (the same number as [`hcf`]).
pub fn gcd(a: u32, b: u32) -> (r: u32)
    ensures
        r == spec_gcd(a as nat, b as nat),
{
    hcf(a, b)
}

/// The least common multiple of `a` and `b`; zero when either is zero.
pub fn lcm(a: u32, b: u32) -> (r: u32)
    requires
        spec_lcm(a as nat, b as nat) <= u32::MAX,
    ensures
        r == spec_lcm(a as nat, b as nat),
{
    if a == 0 || b == 0 {
        0
    } else {
        let g = hcf(a, b);
        proof {
            crate::rational::lemma_gcd_bounds(a as nat, b as nat);
        }
        (a / g) * b
    }
}

/// The first `count` multiples of `number`: `number * 1`, ..., `number * count`.
pub fn get_multiples(number: u32, count: usize) -> (r: Vec<u32>)
    requires
        number * count <= u32::MAX,
    ensures
        r@.len() == count,
        forall|k: int| 0 <= k < count ==> r@[k] == number * (k + 1),
{
    let mut out: Vec<u32> = Vec::new();
    let mut i: usize = 0;
    let mut next: u32 = number;
    while i < count
        invariant
            i <= count,
            number * count <= u32::MAX,
            i < count ==> next == number * (i + 1),
            out@.len() == i,
            forall|k: int| 0 <= k < i ==> out@[k] == number * (k + 1),
        decreases count - i,
    {
        out.push(next);
        i = i + 1;
        if i < count {
            proof {
                assert(number * (i + 1) == number * i + number) by (nonlinear_arith);
                assert(number * (i + 1) <= number * count) by (nonlinear_arith)
                    requires
                        i + 1 <= count,
                ;
            }
            next = next + number;
        }
    }
    out
}

/// A number with no divisor in `[2, i)` and `i * i > n` is prime (when above one).
proof fn lemma_no_small_divisor(n: nat, i: nat)
    requires
        n > 1,
        i >= 2,
        i * i > n,
        forall|k: nat| 2 <= k < i ==> #[trigger] (n % k) != 0,
    ensures
        spec_is_prime(n),
{
    assert forall|d: nat| 2 <= d < n implies #[trigger] (n % d) != 0 by {
        if d >= i && n % d == 0 {
            let q = n / d;
            vstd::arithmetic::div_mod::lemma_fundamental_div_mod(n as int, d as int);
            assert(n == d * q);
            assert(q >= 2) by (nonlinear_arith)
                requires
                    n == d * q,
                    d < n,
                    d >= 2,
            ;
            assert(q < i) by (nonlinear_arith)
                requires
                    n == d * q,
                    d >= i,
                    i * i > n,
                    q >= 0,
            ;
            vstd::arithmetic::div_mod::lemma_mod_multiples_basic(d as int, q as int);
            assert(n % q == 0);
        }
    }
}

/// Whether `n` is prime, trying divisors up to its square root.
pub fn is_prime(n: u32) -> (r: bool)
    ensures
        r == spec_is_prime(n as nat),
{
    if n <= 1 {
        return false;
    }
    let mut i: u32 = 2;
    while i <= n / i
        invariant
            2 <= i,
            n > 1,
            i <= n,
            forall|k: nat| 2 <= k < i ==> #[trigger] ((n as nat) % k) != 0,
        decreases n - i,
    {
        proof {
            vstd::arithmetic::div_mod::lemma_fundamental_div_mod(n as int, i as int);
            assert(i < n) by (nonlinear_arith)
                requires
                    i <= n / i,
                    n == i * (n / i) + n % i,
                    n % i >= 0,
                    i >= 2,
            ;
        }
        if n % i == 0 {
            assert((n as nat) % (i as nat) == 0);
            return false;
        }
        i = i + 1;
    }
    proof {
        vstd::arithmetic::div_mod::lemma_fundamental_div_mod(n as int, i as int);
        assert(i * i > n) by (nonlinear_arith)
            requires
                i > n / i,
                n == i * (n / i) + n % i,
                n % i < i,
                i >= 2,
        ;
        lemma_no_small_divisor(n as nat, i as nat);
    }
    true
}

/// `p` raised to the power `e`.
pub open spec fn power(p: nat, e: nat) -> nat
    decreases e,
{
    if e == 0 {
        1
    } else {
        p * power(p, (e - 1) as nat)
    }
}

/// The product of `p` to the power `m[p]` over the keys `p` of `m` below `k`.
pub open spec fn product_below(m: Map<u32, u32>, k: nat) -> nat
    decreases k,
{
    if k == 0 {
        1
    } else {
        let p = (k - 1) as nat;
        product_below(m, p) * if m.contains_key(p as u32) {
            power(p, m[p as u32] as nat)
        } else {
            1
        }
    }
}

/// `m` is the prime factorization of `n`: its keys are primes, each with a
/// positive exponent, and the product of the prime powers is `n`.
pub open spec fn is_prime_factorization(m: Map<u32, u32>, n: nat) -> bool {
    &&& forall|p: u32| #[trigger] m.contains_key(p) ==> spec_is_prime(p as nat) && m[p] >= 1
    &&& product_below(m, 0x1_0000_0000) == n
}

/// The product below `k` depends only on the entries below `k`.
proof fn lemma_product_below_frame(f: Map<u32, u32>, g: Map<u32, u32>, k: nat)
    requires
        k <= 0x1_0000_0000,
        forall|p: u32| (p as nat) < k ==> (#[trigger] f.contains_key(p) <==> g.contains_key(p)),
        forall|p: u32| (p as nat) < k && #[trigger] f.contains_key(p) ==> f[p] == g[p],
    ensures
        product_below(f, k) == product_below(g, k),
    decreases k,
{
    if k > 0 {
        lemma_product_below_frame(f, g, (k - 1) as nat);
        let p = (k - 1) as u32;
        assert(f.contains_key(p) <==> g.contains_key(p));
    }
}

/// Without keys in `[k, j)` the product below `j` is the product below `k`.
proof fn lemma_product_below_gap(f: Map<u32, u32>, k: nat, j: nat)
    requires
        k <= j <= 0x1_0000_0000,
        forall|p: u32| #[trigger] f.contains_key(p) ==> (p as nat) < k || (p as nat) >= j,
    ensures
        product_below(f, j) == product_below(f, k),
    decreases j,
{
    if k < j {
        lemma_product_below_gap(f, k, (j - 1) as nat);
        assert(!f.contains_key((j - 1) as u32));
    }
}

/// Adding the key `p` (above every other key) multiplies the product up to
/// just past `p` by `p` to its exponent.
proof fn lemma_product_below_insert(f: Map<u32, u32>, p: u32, e: u32)
    requires
        forall|q: u32| #[trigger] f.contains_key(q) ==> q < p,
    ensures
        product_below(f.insert(p, e), p as nat + 1) == product_below(f, p as nat) * power(
            p as nat,
            e as nat,
        ),
{
    let g = f.insert(p, e);
    lemma_product_below_frame(f, g, p as nat);
    assert(g.contains_key(p));
}

/// A divisor of a divisor of `m` divides `m`.
proof fn lemma_divides_transitive(m: nat, d: nat, k: nat)
    requires
        k > 0,
        d > 0,
        m % d == 0,
        d % k == 0,
    ensures
        m % k == 0,
{
    vstd::arithmetic::div_mod::lemma_fundamental_div_mod(m as int, d as int);
    vstd::arithmetic::div_mod::lemma_fundamental_div_mod(d as int, k as int);
    let q = m / d;
    let j = d / k;
    assert(m == k * (j * q)) by (nonlinear_arith)
        requires
            m == d * q,
            d == k * j,
    ;
    vstd::arithmetic::div_mod::lemma_mod_multiples_basic((j * q) as int, k as int);
    assert((j * q) * k == k * (j * q)) by (nonlinear_arith);
}

/// The prime factorization of `n` as a map from each prime factor to its
/// exponent; empty for `0` and `1`.
pub fn prime_factorization(n: u32) -> (r: BTreeMap<u32, u32>)
    ensures
        n == 0 ==> r@ == Map::<u32, u32>::empty(),
        n >= 1 ==> is_prime_factorization(r@, n as nat),
{
    broadcast use vstd::laws_cmp::group_laws_cmp;

    let mut factors: BTreeMap<u32, u32> = BTreeMap::new();
    if n == 0 {
        return factors;
    }
    let mut m: u32 = n;
    let mut d: u32 = 2;
    proof {
        lemma_product_below_gap(factors@, 0, 2);
    }
    while m > 1 && (d as u64) * (d as u64) <= m as u64
        invariant
            2 <= d <= 65536,
            d * d <= 0x1_0000_0000,
            1 <= m <= n,
            forall|p: u32| #[trigger] factors@.contains_key(p) ==> p < d,
            forall|p: u32| #[trigger]
                factors@.contains_key(p) ==> spec_is_prime(p as nat) && factors@[p] >= 1,
            product_below(factors@, d as nat) * m == n,
            forall|k: nat| 2 <= k < d ==> #[trigger] ((m as nat) % k) != 0,
        decreases m + 65536 - d,
    {
        let ghost m0 = m;
        let mut count: u32 = 0;
        assert(d <= 65535) by (nonlinear_arith)
            requires
                d * d <= m,
                m <= 0xffff_ffff,
                d >= 2,
        ;
        proof {
            let pb = product_below(factors@, d as nat);
            assert(power(d as nat, 0) == 1);
            assert(pb * 1 * m == pb * m) by (nonlinear_arith);
        }
        while m % d == 0
            invariant
                2 <= d <= 65535,
                1 <= m <= m0,
                count + m <= m0,
                m0 <= n,
                product_below(factors@, d as nat) * power(d as nat, count as nat) * m == n,
                forall|k: nat| 2 <= k < d ==> #[trigger] ((m as nat) % k) != 0,
                count > 0 ==> spec_is_prime(d as nat),
            decreases m,
        {
            proof {
                assert forall|k: nat| 2 <= k < d implies #[trigger] ((d as nat) % k) != 0 by {
                    if (d as nat) % k == 0 {
                        lemma_divides_transitive(m as nat, d as nat, k);
                    }
                }
            }
            let next = m / d;
            proof {
                vstd::arithmetic::div_mod::lemma_fundamental_div_mod(m as int, d as int);
                assert(m == d * next);
                let pb = product_below(factors@, d as nat);
                let pw = power(d as nat, count as nat);
                assert(pb * power(d as nat, (count + 1) as nat) * next == pb * pw * m)
                    by (nonlinear_arith)
                    requires
                        m == d * next,
                        power(d as nat, (count + 1) as nat) == d * pw,
                ;
                assert(next < m) by (nonlinear_arith)
                    requires
                        m == d * next,
                        d >= 2,
                        m >= 1,
                ;
                assert(next >= 1) by (nonlinear_arith)
                    requires
                        m == d * next,
                        m >= 1,
                ;
                assert forall|k: nat| 2 <= k < d implies #[trigger] ((next as nat) % k) != 0 by {
                    if (next as nat) % k == 0 {
                        vstd::arithmetic::div_mod::lemma_mod_multiples_basic(next as int, d as int);
                        assert((m as nat) % (next as nat) == 0) by {
                            vstd::arithmetic::div_mod::lemma_mod_multiples_basic(d as int, next as int);
                        }
                        lemma_divides_transitive(m as nat, next as nat, k);
                    }
                }
            }
            m = next;
            count = count + 1;
        }
        proof {
            lemma_product_below_gap(factors@, d as nat, d as nat + 1);
        }
        if count > 0 {
            proof {
                lemma_product_below_insert(factors@, d, count);
            }
            factors.insert(d, count);
        }
        assert((d + 1) * (d + 1) <= 0x1_0000_0000) by (nonlinear_arith)
            requires
                d <= 65535,
        ;
        d = d + 1;
    }
    proof {
        lemma_product_below_gap(factors@, d as nat, 0x1_0000_0000);
    }
    if m > 1 {
        proof {
            assert((m as nat) % (m as nat) == 0) by {
                vstd::arithmetic::div_mod::lemma_mod_self_0(m as int);
            }
            assert(d * d > m);
            lemma_no_small_divisor(m as nat, d as nat);
            lemma_product_below_gap(factors@, d as nat, m as nat);
            lemma_product_below_insert(factors@, m, 1);
            assert(power(m as nat, 0) == 1);
            assert(power(m as nat, 1) == m * power(m as nat, 0));
            lemma_product_below_gap(factors@.insert(m, 1), m as nat + 1, 0x1_0000_0000);
        }
        factors.insert(m, 1);
    }
    factors
}

} // verus!
