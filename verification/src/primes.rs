use rayon::iter::{IntoParallelIterator, ParallelIterator};
use vstd::prelude::*;

verus! {

/// `x` is a prime number.
pub open spec fn is_prime(x: int) -> bool {
    x >= 2 && forall|d: int| 2 <= d < x ==> #[trigger] (x % d) != 0
}

/// How many numbers below `k` are prime.
pub open spec fn primes_below(k: nat) -> nat
    decreases k,
{
    if k == 0 {
        0
    } else {
        primes_below((k - 1) as nat) + if is_prime(k - 1) {
            1nat
        } else {
            0nat
        }
    }
}

/// `x` has a divisor `d` with `2 <= d < bound` and `d * d <= x`.
pub open spec fn has_factor_below(x: int, bound: int) -> bool {
    exists|d: int| 2 <= d < bound && d * d <= x && #[trigger] (x % d) == 0
}

/// What the sieve holds for `x` while the multiples of `i` from `i * i` are
/// being struck out, once those below `j` are.
pub open spec fn striking(x: int, i: int, j: int) -> bool {
    unstruck(x, i) && !(i * i <= x < j && x % i == 0)
}

/// What the sieve holds for `x` once every candidate divisor below `i` has
/// been used: `x` is at least 2 and none of those divisors struck it out.
pub open spec fn unstruck(x: int, i: int) -> bool {
    x >= 2 && !has_factor_below(x, i)
}

proof fn lemma_square_bound(d: int, x: int)
    by (nonlinear_arith)
    requires
        2 <= d,
        d * d <= x,
    ensures
        d < x,
{
}

proof fn lemma_cofactor(x: int, d: int)
    by (nonlinear_arith)
    requires
        2 <= d < x,
        x % d == 0,
        d * d > x,
    ensures
        2 <= x / d,
        (x / d) * (x / d) <= x,
        x % (x / d) == 0,
{
    let e = x / d;
    assert(x == d * e + x % d);
    assert(x == d * e);
    assert(e >= 2) by {
        if e <= 1 {
            assert(d * e <= d);
        }
    }
    assert(e < d) by {
        if e >= d {
            assert(d * e >= d * d);
        }
    }
    assert(e * e <= d * e);
    assert(x == e * d + 0);
}

/// A number that is not prime (and at least 2) has a divisor no greater than
/// its square root, and the converse.
proof fn lemma_prime_iff_no_small_factor(x: int, bound: int)
    requires
        x >= 2,
        x < bound * bound,
        bound >= 0,
    ensures
        is_prime(x) <==> !has_factor_below(x, bound),
{
    if has_factor_below(x, bound) {
        let d = choose|d: int| 2 <= d < bound && d * d <= x && #[trigger] (x % d) == 0;
        lemma_square_bound(d, x);
        assert(!is_prime(x));
    }
    if !is_prime(x) {
        let d = choose|d: int| 2 <= d < x && #[trigger] (x % d) == 0;
        if d * d <= x {
            lemma_below_bound(d, x, bound);
            assert(has_factor_below(x, bound));
        } else {
            lemma_cofactor(x, d);
            let e = x / d;
            lemma_below_bound(e, x, bound);
            assert(has_factor_below(x, bound));
        }
    }
}

proof fn lemma_below_bound(d: int, x: int, bound: int)
    by (nonlinear_arith)
    requires
        0 <= d,
        d * d <= x,
        x < bound * bound,
        bound >= 0,
    ensures
        d < bound,
{
}

/// A multiple of a multiple of `d` is a multiple of `d`.
proof fn lemma_multiple_of_multiple(x: int, i: int, d: int)
    by (nonlinear_arith)
    requires
        d > 0,
        i > 0,
        i % d == 0,
        x % i == 0,
    ensures
        x % d == 0,
{
    assert(i == d * (i / d));
    assert(x == i * (x / i));
    assert(x == d * ((i / d) * (x / i)));
}

/// The only multiple of `i` in `[j, j + i)`, for a multiple `j` of `i`, is `j`.
proof fn lemma_next_multiple(x: int, j: int, i: int)
    by (nonlinear_arith)
    requires
        i > 0,
        j % i == 0,
        x % i == 0,
        j <= x < j + i,
    ensures
        x == j,
{
    assert(j == i * (j / i));
    assert(x == i * (x / i));
    if x / i > j / i {
        assert(i * (x / i) >= i * (j / i + 1));
    }
    if x / i < j / i {
        assert(i * (x / i) < i * (j / i));
    }
}

/// Counts the prime numbers up to `n` with the sieve of Eratosthenes.
///
/// Candidate divisors are tried while their square is at most `n`.
pub fn worker_function(n: u64) -> (count: u64)
    requires
        1 <= n < usize::MAX,
    ensures
        count == primes_below(n as nat + 1),
{
    let len: usize = (n + 1) as usize;
    let mut sieve: Vec<bool> = Vec::with_capacity(len);
    let mut k: usize = 0;
    while k < len
        invariant
            k <= len,
            sieve@.len() == k,
            forall|x: int| 0 <= x < k ==> sieve@[x],
        decreases len - k,
    {
        sieve.push(true);
        k = k + 1;
    }
    sieve.set(0, false);
    sieve.set(1, false);
    assert forall|x: int| 0 <= x <= n implies sieve@[x] == unstruck(x, 2) by {}

    let mut i: u64 = 2;
    while i <= n / i
        invariant
            1 <= n < usize::MAX,
            len == n + 1,
            sieve@.len() == len,
            2 <= i <= n + 1,
            forall|x: int| 0 <= x <= n ==> #[trigger] sieve@[x] == unstruck(x, i as int),
        decreases n + 1 - i,
    {
        assert(i * i <= n) by (nonlinear_arith)
            requires
                i <= n / i,
                i >= 2,
        ;
        if sieve[i as usize] {
            let mut j: u64 = i * i;
            assert((i * i) % (i as int) == 0) by (nonlinear_arith)
                requires
                    i >= 2,
            ;
            while j <= n
                invariant
                    1 <= n < usize::MAX,
                    sieve@.len() == len,
                    len == n + 1,
                    2 <= i,
                    i * i <= j,
                    j <= n + 1,
                    (j as int) % (i as int) == 0 || j == n + 1,
                    forall|x: int| 0 <= x <= n ==> #[trigger] sieve@[x] == striking(x, i as int, j as int),
                decreases n + 1 - j,
            {
                let ghost before = sieve@;
                sieve.set(j as usize, false);
                if n - j < i {
                    assert forall|x: int| 0 <= x <= n implies #[trigger] sieve@[x] == striking(x, i as int, n + 1) by {
                        if x != j {
                            assert(sieve@[x] == before[x]);
                            if j < x && x % (i as int) == 0 {
                                lemma_next_multiple(x, j as int, i as int);
                            }
                        }
                    }
                    j = n + 1;
                } else {
                    assert forall|x: int| 0 <= x <= n implies #[trigger] sieve@[x] == striking(x, i as int, j + i) by {
                        if x != j {
                            assert(sieve@[x] == before[x]);
                            if j < x < j + i && x % (i as int) == 0 {
                                lemma_next_multiple(x, j as int, i as int);
                            }
                        }
                    }
                    assert((j + i) % (i as int) == 0) by (nonlinear_arith)
                        requires
                            (j as int) % (i as int) == 0,
                            i >= 2,
                    ;
                    j = j + i;
                }
            }
            assert forall|x: int| 0 <= x <= n implies sieve@[x] == unstruck(x, i + 1) by {
                if has_factor_below(x, i + 1) && !has_factor_below(x, i as int) {
                    let d = choose|d: int| 2 <= d < i + 1 && d * d <= x && #[trigger] (x % d) == 0;
                    assert(d == i);
                    assert(i * i <= x && x % (i as int) == 0);
                }
                if i * i <= x && x % (i as int) == 0 {
                    assert(has_factor_below(x, i + 1));
                }
            }
        } else {
            assert(sieve@[i as int] == unstruck(i as int, i as int));
            assert forall|x: int| 0 <= x <= n implies #[trigger] sieve@[x] == unstruck(x, i + 1) by {
                if has_factor_below(x, i + 1) && !has_factor_below(x, i as int) {
                    let e = choose|d: int| 2 <= d < i + 1 && d * d <= x && #[trigger] (x % d) == 0;
                    assert(e == i);
                    assert(i * i <= x && x % (i as int) == 0);
                    assert(!unstruck(i as int, i as int));
                    let d = choose|d: int| 2 <= d < i && d * d <= i && #[trigger] ((i as int) % d) == 0;
                    lemma_multiple_of_multiple(x, i as int, d);
                    assert(i <= i * i) by (nonlinear_arith)
                        requires
                            i >= 2,
                    ;
                    assert(d * d <= x);
                    assert(has_factor_below(x, i as int));
                }
            }
        }
        i = i + 1;
    }
    assert(n < i * i) by (nonlinear_arith)
        requires
            i > n / i,
            i >= 2,
    ;
    assert forall|x: int| 0 <= x <= n implies #[trigger] sieve@[x] == is_prime(x) by {
        assert(sieve@[x] == unstruck(x, i as int));
        if x >= 2 {
            lemma_prime_iff_no_small_factor(x, i as int);
        }
    }

    let mut count: u64 = 0;
    let mut k: usize = 0;
    while k < len
        invariant
            k <= len,
            len == n + 1,
            sieve@.len() == len,
            n < usize::MAX,
            forall|x: int| 0 <= x <= n ==> sieve@[x] == is_prime(x),
            count == primes_below(k as nat),
            count <= k,
        decreases len - k,
    {
        if sieve[k] {
            count = count + 1;
        }
        k = k + 1;
    }
    count
}

/// The sum, over `k` from 1 to `n`, of the number of primes up to `k`.
pub open spec fn prime_count_total(n: nat) -> nat
    decreases n,
{
    if n == 0 {
        0
    } else {
        prime_count_total((n - 1) as nat) + primes_below(n + 1)
    }
}

/// There are at most `k` primes below `k`.
pub proof fn lemma_primes_below_bound(k: nat)
    ensures
        primes_below(k) <= k,
    decreases k,
{
    if k > 0 {
        lemma_primes_below_bound((k - 1) as nat);
    }
}

/// The total of the prime counts up to `n` is at most `n * (n + 3) / 2`; in
/// particular it fits in a `u64` for every `n` below `2^32`.
pub proof fn lemma_prime_count_total_bound(n: nat)
    ensures
        2 * prime_count_total(n) <= n * (n + 3),
    decreases n,
{
    if n > 0 {
        lemma_prime_count_total_bound((n - 1) as nat);
        lemma_primes_below_bound(n + 1);
        assert((n - 1) * (n + 2) + 2 * (n + 1) == n * (n + 3)) by (nonlinear_arith);
    }
}

/// rayon's `(1..=n).into_par_iter().map(worker_function).sum::<u64>()`.
///
/// rayon documents `sum` as adding up the items, in an order that it leaves
/// open. Every item is a verified prime count and every partial sum is at most
/// the whole, so under the bound of `requires` no addition overflows and the
/// order does not matter: the result is the sum of `worker_function(k)` over
/// `k` in `1..=n`.
#[verifier::external_body]
fn par_sum_prime_counts(n: u64) -> (total: u64)
    requires
        n < usize::MAX,
        prime_count_total(n as nat) <= u64::MAX,
    ensures
        total == prime_count_total(n as nat),
{
    (1..=n).into_par_iter().map(worker_function).sum::<u64>()
}

/// The number of primes up to `k`, added up over `k` from 1 to `n`, computed by
/// counting for each `k` in parallel on rayon's thread pool.
pub fn parallel_prime_total(n: u64) -> (total: u64)
    requires
        n < usize::MAX,
        prime_count_total(n as nat) <= u64::MAX,
    ensures
        total == prime_count_total(n as nat),
{
    par_sum_prime_counts(n)
}

} // verus!
