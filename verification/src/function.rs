//! Evaluation algorithms for functions

use vstd::prelude::*;

verus! {

/// The product of the numbers from 1 to `n`.
pub open spec fn factorial_of(n: nat) -> nat
    decreases n,
{
    if n == 0 {
        1
    } else {
        n * factorial_of((n - 1) as nat)
    }
}

/// The number of ways to choose `k` out of `n` things, by Pascal's rule.
pub open spec fn pascal(n: nat, k: nat) -> nat
    decreases n,
{
    if k == 0 {
        1
    } else if n == 0 {
        0
    } else {
        pascal((n - 1) as nat, (k - 1) as nat) + pascal((n - 1) as nat, k)
    }
}

/// The largest argument whose factorial fits in an `i64`.
pub const MAX_FACTORIAL_ARGUMENT: i64 = 20;

/// A factorial is positive.
pub proof fn lemma_factorial_positive(n: nat)
    ensures
        factorial_of(n) > 0,
    decreases n,
{
    if n > 0 {
        lemma_factorial_positive((n - 1) as nat);
        assert(n * factorial_of((n - 1) as nat) > 0) by (nonlinear_arith)
            requires
                n > 0,
                factorial_of((n - 1) as nat) > 0,
        ;
    }
}

/// The factorial grows with its argument.
pub proof fn lemma_factorial_monotonic(a: nat, b: nat)
    requires
        a <= b,
    ensures
        factorial_of(a) <= factorial_of(b),
    decreases b,
{
    if a < b {
        lemma_factorial_monotonic(a, (b - 1) as nat);
        lemma_factorial_positive((b - 1) as nat);
        assert(b * factorial_of((b - 1) as nat) >= factorial_of((b - 1) as nat))
            by (nonlinear_arith)
            requires
                b >= 1,
                factorial_of((b - 1) as nat) > 0,
        ;
    }
}

/// The factorial of twenty, the largest one that an `i64` holds.
pub proof fn lemma_factorial_of_twenty()
    ensures
        factorial_of(20) == 2432902008176640000,
{
    assert(factorial_of(0) == 1);
    assert(factorial_of(1) == 1);
    assert(factorial_of(2) == 2);
    assert(factorial_of(3) == 6);
    assert(factorial_of(4) == 24);
    assert(factorial_of(5) == 120);
    assert(factorial_of(6) == 720);
    assert(factorial_of(7) == 5040);
    assert(factorial_of(8) == 40320);
    assert(factorial_of(9) == 362880);
    assert(factorial_of(10) == 3628800);
    assert(factorial_of(11) == 39916800);
    assert(factorial_of(12) == 479001600);
    assert(factorial_of(13) == 6227020800);
    assert(factorial_of(14) == 87178291200);
    assert(factorial_of(15) == 1307674368000);
    assert(factorial_of(16) == 20922789888000);
    assert(factorial_of(17) == 355687428096000);
    assert(factorial_of(18) == 6402373705728000);
    assert(factorial_of(19) == 121645100408832000);
    assert(factorial_of(20) == 2432902008176640000);
}

/// Nothing can be chosen in more ways than there are things.
pub proof fn lemma_pascal_beyond(n: nat, k: nat)
    requires
        k > n,
    ensures
        pascal(n, k) == 0,
    decreases n,
{
    if n > 0 {
        lemma_pascal_beyond((n - 1) as nat, (k - 1) as nat);
        lemma_pascal_beyond((n - 1) as nat, k);
    }
}

/// Pascal's rule gives the quotient of factorials: `n! = C(n, k) * k! * (n - k)!`.
pub proof fn lemma_pascal_factorials(n: nat, k: nat)
    requires
        k <= n,
    ensures
        pascal(n, k) * (factorial_of(k) * factorial_of((n - k) as nat)) == factorial_of(n),
    decreases n,
{
    let c = pascal(n, k) as int;
    let fk = factorial_of(k) as int;
    let fd = factorial_of((n - k) as nat) as int;
    if k == 0 {
        assert(c * (fk * fd) == fd) by (nonlinear_arith)
            requires
                c == 1,
                fk == 1,
        ;
    } else {
        // here 0 < k <= n
        let m = (n - 1) as nat;
        let fm = factorial_of(m) as int;
        let a = pascal(m, (k - 1) as nat) as int;
        let b = pascal(m, k) as int;
        let fk1 = factorial_of((k - 1) as nat) as int;
        assert(fk == k * fk1);
        lemma_pascal_factorials(m, (k - 1) as nat);
        assert(a * (fk1 * fd) == fm);
        if k == n {
            lemma_pascal_beyond(m, k);
            assert(c * (fk * fd) == n * fm) by (nonlinear_arith)
                requires
                    c == a + b,
                    b == 0,
                    fk == k * fk1,
                    k == n,
                    a * (fk1 * fd) == fm,
            ;
        } else {
            let fd1 = factorial_of((n - k - 1) as nat) as int;
            assert(fd == (n - k) * fd1);
            lemma_pascal_factorials(m, k);
            assert(b * (fk * fd1) == fm);
            assert(c * (fk * fd) == n * fm) by (nonlinear_arith)
                requires
                    c == a + b,
                    fk == k * fk1,
                    fd == (n - k) * fd1,
                    a * (fk1 * fd) == fm,
                    b * (fk * fd1) == fm,
            ;
        }
    }
}

/// Calcuate the factorial n!
pub fn factorial(n: i64) -> (res: i64)
    requires
        0 <= n <= MAX_FACTORIAL_ARGUMENT,
    ensures
        res == factorial_of(n as nat),
{
    let mut res: i64 = 1;
    let mut i: i64 = 0;
    while i < n
        invariant
            0 <= i <= n <= 20,
            res == factorial_of(i as nat),
        decreases n - i,
    {
        i = i + 1;
        proof {
            lemma_factorial_monotonic(i as nat, 20);
            lemma_factorial_of_twenty();
            assert(factorial_of(i as nat) == i * factorial_of((i - 1) as nat));
            assert(res * i == i * res) by (nonlinear_arith);
        }
        res = res * i;
    }
    res
}

/// Calculate the binomial distribution of (n k)
///
/// The result is the binomial coefficient: the quotient of `n!` by `k!` and
/// `(n - k)!`, and zero where `k` is above `n`.
pub fn binomial(n: i64, k: i64) -> (res: i64)
    requires
        k > n || (0 <= k && n <= MAX_FACTORIAL_ARGUMENT),
    ensures
        k > n ==> res == 0,
        k <= n ==> res == pascal(n as nat, k as nat),
        k <= n ==> res * (factorial_of(k as nat) * factorial_of((n - k) as nat)) == factorial_of(
            n as nat,
        ),
{
    if k > n {
        return 0;
    }
    let numerator = factorial(n);
    let of_k = factorial(k);
    let of_rest = factorial(n - k);
    proof {
        let c = pascal(n as nat, k as nat) as int;
        let d = of_k * of_rest;
        lemma_pascal_factorials(n as nat, k as nat);
        lemma_factorial_positive(k as nat);
        lemma_factorial_positive((n - k) as nat);
        lemma_factorial_positive(n as nat);
        assert(d > 0) by (nonlinear_arith)
            requires
                d == of_k * of_rest,
                of_k > 0,
                of_rest > 0,
        ;
        assert(c >= 1 && d <= numerator) by (nonlinear_arith)
            requires
                c * d == numerator,
                numerator > 0,
                d > 0,
                c >= 0,
        ;
        vstd::arithmetic::div_mod::lemma_div_by_multiple(c, d);
    }
    numerator / (of_k * of_rest)
}

} // verus!
