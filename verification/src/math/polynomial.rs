//! Polynomial tools needed for curves and surfaces: binomial coefficients
//! and Pascal's triangle.
use vstd::prelude::*;
use crate::math::quick::{fact, factorial, lemma_factorial_positive, lemma_factorial_monotonic};

verus! {

/// The number of rows of Pascal's triangle that the lookup holds.
pub const MAX_DEGREE: usize = 15;

/// The binomial coefficient `n over k`, by Pascal's rule.
pub open spec fn binomial(n: nat, k: nat) -> nat
    decreases n,
{
    if k == 0 {
        1
    } else if n == 0 {
        0
    } else {
        binomial((n - 1) as nat, (k - 1) as nat) + binomial((n - 1) as nat, k)
    }
}

/// There are no ways to pick more items than there are.
pub proof fn lemma_binomial_beyond(n: nat, k: nat)
    requires
        k > n,
    ensures
        binomial(n, k) == 0,
    decreases n,
{
    if n > 0 {
        lemma_binomial_beyond((n - 1) as nat, (k - 1) as nat);
        lemma_binomial_beyond((n - 1) as nat, k);
    }
}

/// There is one way to pick all items.
pub proof fn lemma_binomial_all(n: nat)
    ensures
        binomial(n, n) == 1,
    decreases n,
{
    if n > 0 {
        lemma_binomial_all((n - 1) as nat);
        lemma_binomial_beyond((n - 1) as nat, n);
    }
}

/// The factorial form of the binomial coefficient:
/// `(n over k) * k! * (n - k)! == n!`.
pub proof fn lemma_binomial_factorial(n: nat, k: nat)
    requires
        k <= n,
    ensures
        binomial(n, k) * factorial(k) * factorial((n - k) as nat) == factorial(n),
    decreases n,
{
    if k == 0 {
        assert(factorial(0) == 1);
        assert(1 * 1 * factorial(n) == factorial(n));
    } else if k == n {
        lemma_binomial_all(n);
        assert(factorial(0) == 1);
        assert(1 * factorial(n) * 1 == factorial(n));
    } else {
        let m = (n - 1) as nat;
        lemma_binomial_factorial(m, (k - 1) as nat);
        lemma_binomial_factorial(m, k);
        let a = binomial(m, (k - 1) as nat);
        let b = binomial(m, k);
        let fk1 = factorial((k - 1) as nat);
        let fk = factorial(k);
        let fnk = factorial((n - k) as nat);
        let fnk1 = factorial((m - k) as nat);
        let fm = factorial(m);
        assert(fk == k * fk1);
        assert(fnk == (n - k) * fnk1);
        assert(factorial(n) == n * fm);
        assert(binomial(n, k) == a + b);
        assert((a + b) * fk * fnk == factorial(n)) by (nonlinear_arith)
            requires
                a * fk1 * fnk == fm,
                b * fk * fnk1 == fm,
                fk == k * fk1,
                fnk == (n - k) * fnk1,
                factorial(n) == n * fm,
                0 < k < n,
        ;
    }
}

/// Pascal's rule: an inner entry is the sum of the two entries above it.
pub proof fn lemma_pascal_rule(n: nat, k: nat)
    requires
        0 < k <= n,
    ensures
        binomial(n, k) == binomial((n - 1) as nat, (k - 1) as nat) + binomial((n - 1) as nat, k),
{
}

/// Pascal's triangle is symmetric: `n over k == n over (n - k)`.
pub proof fn lemma_binomial_symmetric(n: nat, k: nat)
    requires
        k <= n,
    ensures
        binomial(n, k) == binomial(n, (n - k) as nat),
{
    let j = (n - k) as nat;
    lemma_binomial_factorial(n, k);
    lemma_binomial_factorial(n, j);
    assert((n - j) as nat == k);
    let p = factorial(k) * factorial(j);
    lemma_factorial_positive(k);
    lemma_factorial_positive(j);
    assert(p > 0) by (nonlinear_arith)
        requires
            factorial(k) >= 1,
            factorial(j) >= 1,
            p == factorial(k) * factorial(j),
    ;
    assert(p * binomial(n, k) == p * binomial(n, j)) by (nonlinear_arith)
        requires
            binomial(n, k) * factorial(k) * factorial(j) == factorial(n),
            binomial(n, j) * factorial(j) * factorial(k) == factorial(n),
            p == factorial(k) * factorial(j),
    ;
    vstd::arithmetic::mul::lemma_mul_equality_converse(p as int, binomial(n, k) as int, binomial(n, j) as int);
}

/// The binomial coefficient `n over i`, from factorials.
pub fn calc_bicoef(n: usize, i: usize) -> (res: usize)
    requires
        i <= n,
        factorial(n as nat) <= usize::MAX,
    ensures
        res == binomial(n as nat, i as nat),
{
    proof {
        lemma_binomial_factorial(n as nat, i as nat);
        lemma_factorial_monotonic(i as nat, n as nat);
        lemma_factorial_monotonic((n - i) as nat, n as nat);
        lemma_factorial_positive(i as nat);
        lemma_factorial_positive((n - i) as nat);
        lemma_binomial_positive(n as nat, i as nat);
        let b = binomial(n as nat, i as nat);
        let p = factorial(i as nat) * factorial((n - i) as nat);
        assert(p <= factorial(n as nat) && p > 0) by (nonlinear_arith)
            requires
                b * factorial(i as nat) * factorial((n - i) as nat) == factorial(n as nat),
                b >= 1,
                factorial(i as nat) >= 1,
                factorial((n - i) as nat) >= 1,
                p == factorial(i as nat) * factorial((n - i) as nat),
        ;
    }
    let fi = fact(i);
    let fni = fact(n - i);
    let fnn = fact(n);
    let p = fi * fni;
    proof {
        let b = binomial(n as nat, i as nat);
        assert(fnn as int == (p as int) * (b as int) + 0) by (nonlinear_arith)
            requires
                b * factorial(i as nat) * factorial((n - i) as nat) == factorial(n as nat),
                p == factorial(i as nat) * factorial((n - i) as nat),
                fnn == factorial(n as nat),
        ;
        vstd::arithmetic::div_mod::lemma_fundamental_div_mod_converse(fnn as int, p as int, b as int, 0);
    }
    fnn / p
}

/// Every binomial coefficient within a row is at least one.
pub proof fn lemma_binomial_positive(n: nat, k: nat)
    requires
        k <= n,
    ensures
        binomial(n, k) >= 1,
    decreases n,
{
    if k > 0 && n > 0 {
        if k < n {
            lemma_binomial_positive((n - 1) as nat, k);
        } else {
            lemma_binomial_all(n);
        }
    }
}

/// Pascal's triangle of `size` rows, from top to bottom: row `n` holds
/// `n + 1` entries, entry `i` of it being `n over i`.
pub fn pascal_triangle(size: usize) -> (pascal: Vec<Vec<usize>>)
    requires
        size > 0 ==> factorial((size - 1) as nat) <= usize::MAX,
    ensures
        pascal.len() == size,
        forall|n: int| 0 <= n < size ==> (#[trigger] pascal@[n]).len() == n + 1,
        forall|n: int, i: int|
            0 <= n < size && 0 <= i <= n ==> #[trigger] pascal@[n]@[i] == binomial(n as nat, i as nat),
{
    let mut pascal: Vec<Vec<usize>> = Vec::with_capacity(size);
    let mut n: usize = 0;
    while n < size
        invariant
            n <= size,
            size > 0 ==> factorial((size - 1) as nat) <= usize::MAX,
            pascal.len() == n,
            forall|r: int| 0 <= r < n ==> (#[trigger] pascal@[r]).len() == r + 1,
            forall|r: int, i: int|
                0 <= r < n && 0 <= i <= r ==> #[trigger] pascal@[r]@[i] == binomial(r as nat, i as nat),
        decreases size - n,
    {
        proof {
            lemma_factorial_monotonic(n as nat, (size - 1) as nat);
        }
        let mut row: Vec<usize> = Vec::with_capacity(n + 1);
        let mut i: usize = 0;
        while i <= n
            invariant
                i <= n + 1,
                n < size,
                factorial(n as nat) <= usize::MAX,
                row.len() == i,
                forall|j: int| 0 <= j < i ==> #[trigger] row@[j] == binomial(n as nat, j as nat),
            decreases n + 1 - i,
        {
            row.push(calc_bicoef(n, i));
            i = i + 1;
        }
        pascal.push(row);
        n = n + 1;
    }
    pascal
}

/// The binomial coefficient `n over i`, looked up in Pascal's triangle of
/// `MAX_DEGREE` rows.
pub fn get_bicoef(n: usize, i: usize) -> (res: usize)
    requires
        n < MAX_DEGREE,
        i <= n,
        factorial((MAX_DEGREE - 1) as nat) <= usize::MAX,
    ensures
        res == binomial(n as nat, i as nat),
{
    let pascal = pascal_triangle(MAX_DEGREE);
    pascal[n][i]
}

} // verus!
