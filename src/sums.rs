use vstd::prelude::*;

verus! {

/// `f(0) + f(1) + ... + f(n - 1)`.
pub open spec fn sum_to(f: spec_fn(int) -> int, n: int) -> int
    decreases n,
{
    if n <= 0 {
        0
    } else {
        sum_to(f, n - 1) + f(n - 1)
    }
}

/// A sum of terms that each lie in `0..=b` lies in `0..=n * b`.
pub proof fn lemma_sum_bounds(f: spec_fn(int) -> int, n: int, b: int)
    requires
        0 <= n,
        forall|k: int| 0 <= k < n ==> 0 <= #[trigger] f(k) <= b,
    ensures
        0 <= sum_to(f, n) <= n * b,
    decreases n,
{
    if n > 0 {
        lemma_sum_bounds(f, n - 1, b);
        assert(0 <= f(n - 1) <= b);
        assert(sum_to(f, n) == sum_to(f, n - 1) + f(n - 1));
        assert((n - 1) * b + b == n * b) by (nonlinear_arith);
    } else {
        assert(n * b == 0) by (nonlinear_arith)
            requires
                n == 0,
        ;
    }
}

/// Sums of terms that agree below `n` are equal.
pub proof fn lemma_sum_ext(f: spec_fn(int) -> int, g: spec_fn(int) -> int, n: int)
    requires
        forall|k: int| 0 <= k < n ==> #[trigger] f(k) == g(k),
    ensures
        sum_to(f, n) == sum_to(g, n),
    decreases n,
{
    if n > 0 {
        lemma_sum_ext(f, g, n - 1);
    }
}

/// Sums of terms that agree below `n` except at `p` differ by the difference at `p`.
pub proof fn lemma_sum_one_change(f: spec_fn(int) -> int, g: spec_fn(int) -> int, n: int, p: int)
    requires
        0 <= p < n,
        forall|k: int| 0 <= k < n && k != p ==> #[trigger] f(k) == g(k),
    ensures
        sum_to(f, n) - sum_to(g, n) == f(p) - g(p),
    decreases n,
{
    if n - 1 == p {
        lemma_sum_ext(f, g, n - 1);
    } else {
        lemma_sum_one_change(f, g, n - 1, p);
    }
}

/// Sums of terms that agree below `n` except at `p` and `q` differ by the differences there.
pub proof fn lemma_sum_two_changes(
    f: spec_fn(int) -> int,
    g: spec_fn(int) -> int,
    n: int,
    p: int,
    q: int,
)
    requires
        0 <= p < n,
        0 <= q < n,
        p != q,
        forall|k: int| 0 <= k < n && k != p && k != q ==> #[trigger] f(k) == g(k),
    ensures
        sum_to(f, n) - sum_to(g, n) == (f(p) - g(p)) + (f(q) - g(q)),
{
    let h = |k: int|
        if k == p {
            g(k)
        } else {
            f(k)
        };
    lemma_sum_one_change(f, h, n, p);
    lemma_sum_one_change(h, g, n, q);
}

} // verus!
