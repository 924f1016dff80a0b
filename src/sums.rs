//! Finite sums of integer sequences, and their invariance under reordering.

use vstd::prelude::*;

verus! {

/// `f(0) + f(1) + ... + f(k - 1)`.
pub open spec fn sum_upto(f: spec_fn(int) -> int, k: nat) -> int
    decreases k,
{
    if k == 0 {
        0
    } else {
        sum_upto(f, (k - 1) as nat) + f(k - 1)
    }
}

/// `p` maps `0..n` onto itself, and `q` undoes it.
pub open spec fn is_permutation(p: spec_fn(int) -> int, q: spec_fn(int) -> int, n: int) -> bool {
    &&& forall|k: int| 0 <= k < n ==> 0 <= #[trigger] p(k) < n && q(p(k)) == k
    &&& forall|k: int| 0 <= k < n ==> 0 <= #[trigger] q(k) < n && p(q(k)) == k
}

/// Sums of functions that agree on `0..k` are equal.
pub proof fn lemma_sum_congruent(f: spec_fn(int) -> int, g: spec_fn(int) -> int, k: nat)
    requires
        forall|x: int| 0 <= x < k ==> #[trigger] f(x) == g(x),
    ensures
        sum_upto(f, k) == sum_upto(g, k),
    decreases k,
{
    if k > 0 {
        lemma_sum_congruent(f, g, (k - 1) as nat);
    }
}

/// Changing one term changes the sum by the difference.
proof fn lemma_sum_one_change(f: spec_fn(int) -> int, g: spec_fn(int) -> int, k: nat, m: int)
    requires
        0 <= m < k,
        forall|x: int| 0 <= x < k && x != m ==> #[trigger] f(x) == g(x),
    ensures
        sum_upto(g, k) == sum_upto(f, k) - f(m) + g(m),
    decreases k,
{
    if m == k - 1 {
        lemma_sum_congruent(f, g, (k - 1) as nat);
    } else {
        lemma_sum_one_change(f, g, (k - 1) as nat, m);
    }
}

/// A sum does not depend on the order of its terms.
pub proof fn lemma_sum_permuted(
    f: spec_fn(int) -> int,
    g: spec_fn(int) -> int,
    p: spec_fn(int) -> int,
    q: spec_fn(int) -> int,
    n: nat,
)
    requires
        is_permutation(p, q, n as int),
        forall|k: int| 0 <= k < n ==> f(k) == g(#[trigger] p(k)),
    ensures
        sum_upto(f, n) == sum_upto(g, n),
    decreases n,
{
    if n > 0 {
        let last = n - 1;
        let m = q(last);
        assert(p(m) == last);
        let f2 = |x: int|
            if x == m {
                f(last)
            } else {
                f(x)
            };
        let p2 = |x: int|
            if x == m {
                p(last)
            } else {
                p(x)
            };
        let q2 = |y: int|
            if y == p(last) {
                m
            } else {
                q(y)
            };
        assert forall|k: int| 0 <= k < last implies 0 <= #[trigger] p2(k) < last && q2(p2(k))
            == k by {
            if k == m {
                assert(q(p(last)) == last);
            } else {
                assert(q(p(k)) == k);
                if p(k) == last {
                    assert(k == m);
                }
                if p(k) == p(last) {
                    assert(q(p(k)) == q(p(last)));
                }
            }
        }
        assert forall|y: int| 0 <= y < last implies 0 <= #[trigger] q2(y) < last && p2(q2(y))
            == y by {
            assert(p(q(y)) == y);
            if y == p(last) {
                if m == last {
                    assert(p(last) == last);
                }
            } else {
                if q(y) == last {
                    assert(p(q(y)) == p(last));
                }
                if q(y) == m {
                    assert(p(q(y)) == p(m));
                }
            }
        }
        assert forall|k: int| 0 <= k < last implies f2(k) == g(#[trigger] p2(k)) by {
            if k != m {
                assert(f(k) == g(p(k)));
            } else {
                assert(f(last) == g(p(last)));
            }
        }
        lemma_sum_permuted(f2, g, p2, q2, last as nat);
        assert(f(m) == g(p(m)));
        assert(f(last) == g(p(last)));
        if m == last {
            lemma_sum_congruent(f, f2, last as nat);
        } else {
            lemma_sum_one_change(f, f2, last as nat, m);
        }
    }
}

/// The sum of pointwise sums is the sum of the sums.
pub proof fn lemma_sum_add(
    f: spec_fn(int) -> int,
    g: spec_fn(int) -> int,
    h: spec_fn(int) -> int,
    k: nat,
)
    requires
        forall|x: int| 0 <= x < k ==> #[trigger] h(x) == f(x) + g(x),
    ensures
        sum_upto(h, k) == sum_upto(f, k) + sum_upto(g, k),
    decreases k,
{
    if k > 0 {
        lemma_sum_add(f, g, h, (k - 1) as nat);
    }
}

/// A sum of zeros is zero.
pub proof fn lemma_sum_zero(f: spec_fn(int) -> int, k: nat)
    requires
        forall|x: int| 0 <= x < k ==> #[trigger] f(x) == 0,
    ensures
        sum_upto(f, k) == 0,
    decreases k,
{
    if k > 0 {
        lemma_sum_zero(f, (k - 1) as nat);
    }
}

/// A sum whose terms vanish outside positions `a` and `b` is `f(a) + f(b)`.
pub proof fn lemma_sum_two_terms(f: spec_fn(int) -> int, k: nat, a: int, b: int)
    requires
        0 <= a < k,
        0 <= b < k,
        a != b,
        forall|x: int| 0 <= x < k && x != a && x != b ==> #[trigger] f(x) == 0,
    ensures
        sum_upto(f, k) == f(a) + f(b),
    decreases k,
{
    let last = k - 1;
    if last == a {
        lemma_sum_one_term(f, last as nat, b);
    } else if last == b {
        lemma_sum_one_term(f, last as nat, a);
    } else {
        lemma_sum_two_terms(f, last as nat, a, b);
    }
}

/// A sum whose terms vanish outside position `a` is `f(a)`.
pub proof fn lemma_sum_one_term(f: spec_fn(int) -> int, k: nat, a: int)
    requires
        0 <= a < k,
        forall|x: int| 0 <= x < k && x != a ==> #[trigger] f(x) == 0,
    ensures
        sum_upto(f, k) == f(a),
    decreases k,
{
    let last = k - 1;
    if last == a {
        lemma_sum_zero(f, last as nat);
    } else {
        lemma_sum_one_term(f, last as nat, a);
    }
}

/// The order of two finite summations can be exchanged.
pub proof fn lemma_sum_swap(f: spec_fn(int, int) -> int, m: nat, k: nat)
    ensures
        sum_upto(|a: int| sum_upto(|x: int| f(a, x), k), m) == sum_upto(
            |x: int| sum_upto(|a: int| f(a, x), m),
            k,
        ),
    decreases m,
{
    if m == 0 {
        lemma_sum_zero(|x: int| sum_upto(|a: int| f(a, x), 0), k);
    } else {
        let mm = (m - 1) as nat;
        lemma_sum_swap(f, mm, k);
        let prev = |x: int| sum_upto(|a: int| f(a, x), mm);
        let row = |x: int| f(mm as int, x);
        let cur = |x: int| sum_upto(|a: int| f(a, x), m);
        assert forall|x: int| 0 <= x < k implies #[trigger] cur(x) == prev(x) + row(x) by {}
        lemma_sum_add(prev, row, cur, k);
    }
}

/// A sum of `k` equal terms `c` is `k * c`.
pub proof fn lemma_sum_constant(f: spec_fn(int) -> int, c: int, k: nat)
    requires
        forall|x: int| 0 <= x < k ==> #[trigger] f(x) == c,
    ensures
        sum_upto(f, k) == k * c,
    decreases k,
{
    if k > 0 {
        let j = (k - 1) as nat;
        lemma_sum_constant(f, c, j);
        assert(f(j as int) == c);
        assert(j * c + c == k * c) by (nonlinear_arith)
            requires
                j + 1 == k,
        ;
    } else {
        assert(0 * c == 0) by (nonlinear_arith);
    }
}

} // verus!
