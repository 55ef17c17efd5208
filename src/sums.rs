use vstd::prelude::*;

verus! {

/// `h(0) + h(1) + ... + h(m - 1)`.
pub open spec fn sum_to(h: spec_fn(int) -> nat, m: int) -> nat
    decreases m,
{
    if m <= 0 {
        0
    } else {
        sum_to(h, m - 1) + h(m - 1)
    }
}

/// Sums of functions that agree on the range are equal.
pub proof fn lemma_sum_ext(h1: spec_fn(int) -> nat, h2: spec_fn(int) -> nat, m: int)
    requires
        forall|k: int| 0 <= k < m ==> #[trigger] h1(k) == h2(k),
    ensures
        sum_to(h1, m) == sum_to(h2, m),
    decreases m,
{
    if m > 0 {
        lemma_sum_ext(h1, h2, m - 1);
    }
}

/// A sum splits over a pointwise sum.
pub proof fn lemma_sum_add(h1: spec_fn(int) -> nat, h2: spec_fn(int) -> nat, m: int)
    ensures
        sum_to(|k: int| h1(k) + h2(k), m) == sum_to(h1, m) + sum_to(h2, m),
    decreases m,
{
    if m > 0 {
        lemma_sum_add(h1, h2, m - 1);
    }
}

/// `sum h over [0, m)` is `h(0)` plus the sum of `h` shifted by one over `[0, m - 1)`.
pub proof fn lemma_sum_shift(h: spec_fn(int) -> nat, m: int)
    requires
        m > 0,
    ensures
        sum_to(h, m) == h(0) + sum_to(|k: int| h(k + 1), m - 1),
    decreases m,
{
    let g = |k: int| h(k + 1);
    if m == 1 {
        assert(sum_to(h, 0) == 0);
        assert(sum_to(g, 0) == 0);
    } else {
        lemma_sum_shift(h, m - 1);
        assert(sum_to(g, m - 1) == sum_to(g, m - 2) + g(m - 2));
    }
}

/// Summing in reverse order gives the same total.
pub proof fn lemma_sum_reverse(h: spec_fn(int) -> nat, m: int)
    requires
        m >= 0,
    ensures
        sum_to(|k: int| h(m - 1 - k), m) == sum_to(h, m),
    decreases m,
{
    if m > 0 {
        let r = |k: int| h(m - 1 - k);
        let g = |k: int| h(k + 1);
        lemma_sum_reverse(g, m - 1);
        lemma_sum_ext(r, |k: int| g(m - 1 - 1 - k), m - 1);
        lemma_sum_shift(h, m);
        assert(sum_to(r, m) == sum_to(r, m - 1) + r(m - 1));
    }
}

/// A sum of zeros is zero.
pub proof fn lemma_sum_zero(h: spec_fn(int) -> nat, m: int)
    requires
        forall|k: int| 0 <= k < m ==> #[trigger] h(k) == 0,
    ensures
        sum_to(h, m) == 0,
    decreases m,
{
    if m > 0 {
        lemma_sum_zero(h, m - 1);
    }
}

/// A double sum may be taken in either order.
pub proof fn lemma_sum_swap(f: spec_fn(int, int) -> nat, a: int, b: int)
    requires
        a >= 0,
        b >= 0,
    ensures
        sum_to(|y: int| sum_to(|x: int| f(x, y), b), a) == sum_to(
            |x: int| sum_to(|y: int| f(x, y), a),
            b,
        ),
    decreases a,
{
    let rows = |y: int| sum_to(|x: int| f(x, y), b);
    let cols = |x: int| sum_to(|y: int| f(x, y), a);
    if a == 0 {
        assert(sum_to(rows, 0) == 0);
        lemma_sum_zero(cols, b);
    } else {
        lemma_sum_swap(f, a - 1, b);
        let h1 = |x: int| sum_to(|y: int| f(x, y), a - 1);
        let h2 = |x: int| f(x, a - 1);
        assert forall|x: int| 0 <= x < b implies #[trigger] cols(x) == h1(x) + h2(x) by {
            assert(sum_to(|y: int| f(x, y), a) == sum_to(|y: int| f(x, y), a - 1) + f(x, a - 1));
        }
        lemma_sum_ext(cols, |k: int| h1(k) + h2(k), b);
        lemma_sum_add(h1, h2, b);
        assert(sum_to(rows, a) == sum_to(rows, a - 1) + rows(a - 1));
        lemma_sum_ext(|x: int| f(x, a - 1), h2, b);
    }
}

} // verus!
