//! Shorthands for a number of small integer operations.
use vstd::prelude::*;
use vstd::std_specs::cmp::PartialOrdSpec;
use core::cmp::Ordering;

verus! {

/// `1 + 2 + ... + n`.
pub open spec fn triangle(n: nat) -> nat
    decreases n,
{
    if n == 0 {
        0
    } else {
        n + triangle((n - 1) as nat)
    }
}

/// `triangle` grows with its argument.
pub proof fn lemma_triangle_monotonic(i: nat, j: nat)
    requires
        i <= j,
    ensures
        triangle(i) <= triangle(j),
    decreases j - i,
{
    if i < j {
        lemma_triangle_monotonic(i, (j - 1) as nat);
    }
}

/// The closed form of the stacked sum: `1 + ... + n == n * (n + 1) / 2`.
pub proof fn lemma_triangle_closed_form(n: nat)
    ensures
        2 * triangle(n) == n * (n + 1),
    decreases n,
{
    if n > 0 {
        let m = (n - 1) as nat;
        lemma_triangle_closed_form(m);
        assert(triangle(n) == n + triangle(m));
        assert(n * (n + 1) == m * (m + 1) + 2 * n) by (nonlinear_arith)
            requires
                m == n - 1,
        ;
    } else {
        assert(n * (n + 1) == 0) by (nonlinear_arith)
            requires
                n == 0,
        ;
    }
}

/// `n!`, the product `1 * 2 * ... * n`.
pub open spec fn factorial(n: nat) -> nat
    decreases n,
{
    if n == 0 {
        1
    } else {
        n * factorial((n - 1) as nat)
    }
}

/// Every factorial is at least one.
pub proof fn lemma_factorial_positive(n: nat)
    ensures
        factorial(n) >= 1,
    decreases n,
{
    if n > 0 {
        lemma_factorial_positive((n - 1) as nat);
        assert(n * factorial((n - 1) as nat) >= 1) by (nonlinear_arith)
            requires
                n >= 1,
                factorial((n - 1) as nat) >= 1,
        ;
    }
}

/// The factorial grows with its argument.
pub proof fn lemma_factorial_monotonic(i: nat, j: nat)
    requires
        i <= j,
    ensures
        factorial(i) <= factorial(j),
    decreases j - i,
{
    if i < j {
        lemma_factorial_monotonic(i, (j - 1) as nat);
        lemma_factorial_positive((j - 1) as nat);
        assert(factorial((j - 1) as nat) <= j * factorial((j - 1) as nat)) by (nonlinear_arith)
            requires
                j >= 1,
        ;
    }
}

/// Factorial, calculated naively: `fact(3) == 1 * 2 * 3 == 6`.
pub fn fact(n: usize) -> (product: usize)
    requires
        factorial(n as nat) <= usize::MAX,
    ensures
        product == factorial(n as nat),
{
    let mut product: usize = 1;
    let mut i: usize = 0;
    while i < n
        invariant
            i <= n,
            product == factorial(i as nat),
            factorial(n as nat) <= usize::MAX,
        decreases n - i,
    {
        i = i + 1;
        proof {
            lemma_factorial_monotonic(i as nat, n as nat);
            assert(factorial(i as nat) == i * factorial((i - 1) as nat));
        }
        product = i * product;
    }
    product
}

/// Factorial but addition: `stack_sum(3) == 1 + 2 + 3 == 6`.
pub fn stack_sum(n: usize) -> (sum: usize)
    requires
        triangle(n as nat) <= usize::MAX,
    ensures
        sum == triangle(n as nat),
{
    let mut sum: usize = 0;
    let mut i: usize = 1;
    while i <= n
        invariant
            1 <= i <= n + 1,
            sum == triangle((i - 1) as nat),
            triangle(n as nat) <= usize::MAX,
        decreases n + 1 - i,
    {
        proof {
            lemma_triangle_monotonic(i as nat, n as nat);
        }
        sum = sum + i;
        i = i + 1;
    }
    sum
}

/// The index in `[0, max)` that `i` lands on when counting around a ring of
/// `max` slots: the euclidean remainder of `i` by `max`.
pub open spec fn wrapped(i: int, max: nat) -> nat
    recommends
        max > 0,
{
    (i % (max as int)) as nat
}

/// Wraps `i` into the range `[0, max)`, also for negative `i`:
/// `wrap_around(-2, max) == max - 2`.
pub fn wrap_around(i: i32, max: usize) -> (res: usize)
    requires
        max > 0,
        i != i32::MIN,
    ensures
        res == wrapped(i as int, max as nat),
        res < max,
{
    if i < 0 {
        let a: usize = (-i - 1) as usize;
        let r: usize = a % max;
        let res: usize = max - r - 1;
        proof {
            let q = (a as int) / (max as int);
            vstd::arithmetic::div_mod::lemma_fundamental_div_mod(a as int, max as int);
            assert(i as int == (-q - 1) * (max as int) + (res as int)) by (nonlinear_arith)
                requires
                    a as int == (max as int) * q + (r as int),
                    a as int == -(i as int) - 1,
                    res as int == max as int - r as int - 1,
            ;
            vstd::arithmetic::div_mod::lemma_fundamental_div_mod_converse(
                i as int,
                max as int,
                -q - 1,
                res as int,
            );
        }
        res
    } else {
        (i as usize) % max
    }
}

/// The list `s`, rotated such that position `k` holds the item at the
/// wrapped position `k + offset`.
pub open spec fn cycled<T>(s: Seq<T>, offset: int) -> Seq<T> {
    Seq::new(s.len(), |k: int| s[wrapped(k + offset, s.len()) as int])
}

/// Displaces all items in a list by `offset`, wrapping around any
/// out-of-bounds index: `[1,2,3,4,5], offset=2` gives `[3,4,5,1,2]`.
pub fn cycle_offset<T: Clone>(list: Vec<T>, offset: i32) -> (result: Vec<T>)
    requires
        list.len() <= i32::MAX,
        list.len() > 0 ==> offset > i32::MIN && list.len() - 1 + offset <= i32::MAX,
    ensures
        result.len() == list.len(),
        forall|k: int|
            0 <= k < list.len() ==> cloned(
                list@[wrapped(k + offset, list.len() as nat) as int],
                #[trigger] result@[k],
            ),
        (forall|x: T, y: T| #[trigger] cloned(x, y) ==> x == y) ==> result@ == cycled(list@, offset as int),
{
    let len = list.len();
    let mut result: Vec<T> = Vec::with_capacity(len);
    let n: i32 = len as i32;
    let mut i: i32 = 0;
    while i < n
        invariant
            0 <= i <= n,
            n == len,
            len == list.len(),
            len > 0 ==> offset > i32::MIN && len - 1 + offset <= i32::MAX,
            result.len() == i,
            forall|k: int|
                0 <= k < i ==> cloned(
                    list@[wrapped(k + offset, len as nat) as int],
                    #[trigger] result@[k],
                ),
        decreases n - i,
    {
        let idx = wrap_around(i + offset, len);
        let item = list[idx].clone();
        result.push(item);
        i = i + 1;
    }
    proof {
        if forall|x: T, y: T| #[trigger] cloned(x, y) ==> x == y {
            assert forall|k: int| 0 <= k < len implies #[trigger] result@[k] == cycled(list@, offset as int)[k] by {
                assert(cloned(list@[wrapped(k + offset, len as nat) as int], result@[k]));
            }
            assert(result@ =~= cycled(list@, offset as int));
        }
    }
    result
}

/// What `partial_clamp` returns, as far as the comparisons of `T` go: first
/// `a` is raised to `lower` (also where the two do not compare), then the
/// outcome is lowered to `upper` (kept where the two do not compare).
pub open spec fn clamped<T: PartialOrd>(a: T, lower: T, upper: T) -> T {
    let lowered = match a.partial_cmp_spec(&lower) {
        Some(Ordering::Greater) => a,
        _ => lower,
    };
    match lowered.partial_cmp_spec(&upper) {
        Some(Ordering::Less) => lowered,
        None => lowered,
        _ => upper,
    }
}

/// Clamps `a` between `lower` and `upper`, for any partially ordered type.
pub fn partial_clamp<T: PartialOrd>(a: T, lower: T, upper: T) -> (res: T)
    ensures
        res == a || res == lower || res == upper,
        T::obeys_partial_cmp_spec() ==> res == clamped(a, lower, upper),
{
    let lowered = match a.partial_cmp(&lower) {
        Some(res) => match res {
            Ordering::Less => lower,
            Ordering::Equal => lower,
            Ordering::Greater => a,
        },
        None => lower,
    };
    match lowered.partial_cmp(&upper) {
        Some(res) => match res {
            Ordering::Less => lowered,
            Ordering::Equal => upper,
            Ordering::Greater => upper,
        },
        None => lowered,
    }
}

} // verus!

verus! {

/// Wrapping is periodic: `i` and `i + max` land on the same slot.
pub proof fn law_wrap_periodic(i: int, max: nat)
    requires
        max > 0,
    ensures
        wrapped(i + max, max) == wrapped(i, max),
        wrapped(i, max) < max,
{
    vstd::arithmetic::div_mod::lemma_fundamental_div_mod(i, max as int);
    let q = i / (max as int);
    assert(i + max == (q + 1) * (max as int) + i % (max as int)) by (nonlinear_arith)
        requires
            i == (max as int) * q + i % (max as int),
    ;
    vstd::arithmetic::div_mod::lemma_fundamental_div_mod_converse(
        i + max,
        max as int,
        i / (max as int) + 1,
        i % (max as int),
    );
}

/// Cycling by `a`, then by `b`, is cycling by `a + b`; cycling by nothing
/// keeps the list.
pub proof fn law_cycle_compose<T>(s: Seq<T>, a: int, b: int)
    ensures
        cycled(cycled(s, a), b) == cycled(s, a + b),
        cycled(s, 0) == s,
{
    let n = s.len();
    if n > 0 {
        assert forall|k: int| 0 <= k < n implies #[trigger] cycled(cycled(s, a), b)[k] == cycled(
            s,
            a + b,
        )[k] by {
            let m = wrapped(k + b, n) as int;
            vstd::arithmetic::div_mod::lemma_fundamental_div_mod(k + b, n as int);
            vstd::arithmetic::div_mod::lemma_fundamental_div_mod(m + a, n as int);
            let q1 = (k + b) / (n as int);
            let q2 = (m + a) / (n as int);
            assert(k + (a + b) == (q1 + q2) * (n as int) + (m + a) % (n as int)) by (nonlinear_arith)
                requires
                    k + b == (n as int) * q1 + m,
                    m + a == (n as int) * q2 + (m + a) % (n as int),
            ;
            vstd::arithmetic::div_mod::lemma_fundamental_div_mod_converse(
                k + (a + b),
                n as int,
                q1 + q2,
                (m + a) % (n as int),
            );
        }
        assert forall|k: int| 0 <= k < n implies #[trigger] cycled(s, 0)[k] == s[k] by {
            vstd::arithmetic::div_mod::lemma_small_mod(k as nat, n);
        }
    }
    assert(cycled(cycled(s, a), b) =~= cycled(s, a + b));
    assert(cycled(s, 0) =~= s);
}

/// For integers, `partial_clamp` lands within `[lower, upper]` where
/// `lower <= upper`, and keeps what already lies within.
pub proof fn law_clamp_within(a: i64, lower: i64, upper: i64)
    requires
        lower <= upper,
    ensures
        lower <= clamped(a, lower, upper) <= upper,
        lower <= a <= upper ==> clamped(a, lower, upper) == a,
{
}

} // verus!
