//! Efficiency: when the table holds every coalition of the players, the
//! Shapley values add up to the worth of the grand coalition minus the worth
//! of the empty one.

use vstd::prelude::*;
use vstd::set_lib::{lemma_len_subset, lemma_subset_equality};

use crate::coalition::lemma_push_to_set;
use crate::shapley::{
    contribution_sum, contribution_term, entry_weight, factorial, has_coalition, index_of,
    interchangeable, keys_unique, lacks_complement, lemma_swap_len, lemma_symmetric_sums,
    lemma_worth_at, scaled_weight, swap_players, weight_sum, worth_of,
};
use crate::sums::{lemma_sum_add, lemma_sum_permuted, lemma_sum_swap, lemma_sum_two_terms, sum_upto};

verus! {

/// The table holds each coalition of the players `pl` exactly once, and no
/// other coalition.
pub open spec fn full_game(e: Seq<(Set<u64>, int)>, pl: Seq<u64>) -> bool {
    &&& pl.no_duplicates()
    &&& keys_unique(e)
    &&& forall|k: int| 0 <= k < e.len() ==> (#[trigger] e[k]).0.subset_of(pl.to_set())
    &&& forall|c: Set<u64>| c.subset_of(pl.to_set()) ==> #[trigger] has_coalition(e, c)
}

/// `s` with `p` added when absent and removed when present.
pub open spec fn toggle(s: Set<u64>, p: u64) -> Set<u64> {
    if s.contains(p) {
        s.remove(p)
    } else {
        s.insert(p)
    }
}

/// The worth of entry `k`, weighted for `p` as a coalition that `p` completes.
pub open spec fn gain_term(e: Seq<(Set<u64>, int)>, n: nat, p: u64, k: int) -> int {
    if e[k].0.contains(p) {
        entry_weight(e, n, p, k) * e[k].1
    } else {
        0
    }
}

/// The worth of the complement of entry `k`, weighted as in `gain_term`.
pub open spec fn loss_term(e: Seq<(Set<u64>, int)>, n: nat, p: u64, k: int) -> int {
    if e[k].0.contains(p) {
        entry_weight(e, n, p, k) * worth_of(e, e[k].0.remove(p))
    } else {
        0
    }
}

/// The worth of entry `k`, weighted for `p` as a coalition that `p` joins.
pub open spec fn join_term(e: Seq<(Set<u64>, int)>, n: nat, p: u64, k: int) -> int {
    if e[k].0.contains(p) {
        0
    } else {
        scaled_weight(n, e[k].0.len()) * e[k].1
    }
}

proof fn lemma_entry_finite(e: Seq<(Set<u64>, int)>, pl: Seq<u64>, k: int)
    requires
        full_game(e, pl),
        0 <= k < e.len(),
    ensures
        e[k].0.finite(),
        e[k].0.len() <= pl.len(),
{
    vstd::seq_lib::seq_to_set_is_finite(pl);
    pl.unique_seq_to_set();
    assert(e[k].0.subset_of(pl.to_set()));
    lemma_len_subset(e[k].0, pl.to_set());
}

/// Toggling `p` is a permutation of a full table, under which each loss term
/// is the join term of the complement.
proof fn lemma_losses_are_joins(e: Seq<(Set<u64>, int)>, pl: Seq<u64>, n: nat, p: u64)
    requires
        full_game(e, pl),
        pl.contains(p),
    ensures
        sum_upto(|k: int| loss_term(e, n, p, k), e.len()) == sum_upto(
            |k: int| join_term(e, n, p, k),
            e.len(),
        ),
{
    let len = e.len();
    let t = |k: int| index_of(e, toggle(e[k].0, p));
    assert forall|k: int| 0 <= k < len implies 0 <= #[trigger] t(k) < len && t(t(k)) == k
        && e[t(k)].0 == toggle(e[k].0, p) by {
        let s = e[k].0;
        assert(s.subset_of(pl.to_set()));
        assert(toggle(s, p).subset_of(pl.to_set()));
        assert(has_coalition(e, toggle(s, p)));
        assert(toggle(toggle(s, p), p) =~= s);
        assert(has_coalition(e, toggle(toggle(s, p), p)));
        lemma_worth_at(e, k);
    }
    let lf = |k: int| loss_term(e, n, p, k);
    let jf = |k: int| join_term(e, n, p, k);
    assert forall|k: int| 0 <= k < len implies lf(k) == jf(#[trigger] t(k)) by {
        let s = e[k].0;
        lemma_entry_finite(e, pl, k);
        if s.contains(p) {
            assert(e[t(k)].0 == s.remove(p));
            assert(entry_weight(e, n, p, k) == scaled_weight(n, s.remove(p).len()));
        } else {
            assert(e[t(k)].0.contains(p));
        }
    }
    lemma_sum_permuted(lf, jf, t, t, len);
}

/// Each player's contribution sum is its gains minus its joins.
proof fn lemma_contribution_split(e: Seq<(Set<u64>, int)>, pl: Seq<u64>, n: nat, p: u64)
    requires
        full_game(e, pl),
        pl.contains(p),
    ensures
        contribution_sum(e, n, p, e.len()) == sum_upto(|k: int| gain_term(e, n, p, k), e.len())
            - sum_upto(|k: int| join_term(e, n, p, k), e.len()),
{
    let len = e.len();
    let cf = |k: int| contribution_term(e, n, p, k);
    let gf = |k: int| gain_term(e, n, p, k);
    let lf = |k: int| loss_term(e, n, p, k);
    assert forall|k: int| 0 <= k < len implies #[trigger] gf(k) == cf(k) + lf(k) by {
        let w = entry_weight(e, n, p, k);
        let v = e[k].1;
        let u = worth_of(e, e[k].0.remove(p));
        assert(w * v == w * (v - u) + w * u) by (nonlinear_arith);
    }
    lemma_sum_add(cf, lf, gf, len);
    lemma_contribution_sum_is_sum(e, n, p, len);
    lemma_losses_are_joins(e, pl, n, p);
}

proof fn lemma_contribution_sum_is_sum(e: Seq<(Set<u64>, int)>, n: nat, p: u64, k: nat)
    ensures
        contribution_sum(e, n, p, k) == sum_upto(|x: int| contribution_term(e, n, p, x), k),
    decreases k,
{
    if k > 0 {
        lemma_contribution_sum_is_sum(e, n, p, (k - 1) as nat);
    }
}

/// Counting the players of `pl[0..m]` inside and outside `s`, each counted
/// with the value `c`.
proof fn lemma_count(pl: Seq<u64>, s: Set<u64>, c: int, m: nat)
    requires
        pl.no_duplicates(),
        s.finite(),
        m <= pl.len(),
    ensures
        sum_upto(
            |a: int|
                if s.contains(pl[a]) {
                    c
                } else {
                    0
                },
            m,
        ) == c * s.intersect(pl.subrange(0, m as int).to_set()).len(),
        sum_upto(
            |a: int|
                if s.contains(pl[a]) {
                    0
                } else {
                    c
                },
            m,
        ) == c * (m - s.intersect(pl.subrange(0, m as int).to_set()).len()),
    decreases m,
{
    broadcast use vstd::set::group_set_axioms;

    if m == 0 {
        assert(s.intersect(pl.subrange(0, 0).to_set()) =~= Set::empty());
    } else {
        let mm = (m - 1) as nat;
        lemma_count(pl, s, c, mm);
        let x = pl[mm as int];
        let before = pl.subrange(0, mm as int);
        assert(pl.subrange(0, m as int) =~= before.push(x));
        lemma_push_to_set(before, x);
        let old_part = s.intersect(before.to_set());
        assert(!before.contains(x)) by {
            if before.contains(x) {
                let j = choose|j: int| 0 <= j < before.len() && before[j] == x;
                assert(pl[j] == pl[mm as int]);
            }
        }
        vstd::seq_lib::seq_to_set_is_finite(before);
        let l = old_part.len();
        if s.contains(x) {
            assert(s.intersect(before.to_set().insert(x)) =~= old_part.insert(x));
            assert(c * (l + 1) == c * l + c) by (nonlinear_arith);
        } else {
            assert(s.intersect(before.to_set().insert(x)) =~= old_part);
            assert(c * (mm + 1 - l) == c * (mm - l) + c) by (nonlinear_arith);
        }
    }
}

/// `s * (s-1)! * (n-s)!` and `(n-s) * s! * (n-1-s)!` agree for `0 < s < n`.
proof fn lemma_weights_balance(n: nat, s: nat)
    requires
        0 < s < n,
    ensures
        s * scaled_weight(n, (s - 1) as nat) == (n - s) * scaled_weight(n, s),
{
    let a = factorial((s - 1) as nat);
    let b = factorial((n - 1 - s) as nat);
    assert(factorial(s) == s * a);
    assert(factorial((n - s) as nat) == (n - s) * b);
    assert((n - 1 - (s - 1)) as nat == (n - s) as nat);
    assert(s * (a * ((n - s) * b)) == (n - s) * ((s * a) * b)) by (nonlinear_arith);
}

/// What the players inside entry `k` gain from it, less what the players
/// outside it would add by joining, in units of the entry's worth.
pub open spec fn balance(e: Seq<(Set<u64>, int)>, n: nat, k: int) -> int {
    if e[k].0.len() == n {
        factorial(n) * e[k].1
    } else if e[k].0.len() == 0 {
        -(factorial(n) * e[k].1)
    } else {
        0
    }
}

proof fn lemma_balance(e: Seq<(Set<u64>, int)>, pl: Seq<u64>, k: int)
    requires
        full_game(e, pl),
        pl.len() >= 1,
        0 <= k < e.len(),
    ensures
        sum_upto(|a: int| gain_term(e, pl.len(), pl[a], k), pl.len()) - sum_upto(
            |a: int| join_term(e, pl.len(), pl[a], k),
            pl.len(),
        ) == balance(e, pl.len(), k),
{
    broadcast use vstd::set::group_set_axioms;

    let n = pl.len();
    let s = e[k].0;
    lemma_entry_finite(e, pl, k);
    vstd::seq_lib::seq_to_set_is_finite(pl);
    let everyone = pl.to_set();
    assert(pl.subrange(0, n as int) =~= pl);
    let sz = s.len();
    let cg = scaled_weight(n, (sz - 1) as nat) * e[k].1;
    let cj = scaled_weight(n, sz) * e[k].1;
    let gf = |a: int| gain_term(e, n, pl[a], k);
    let jf = |a: int| join_term(e, n, pl[a], k);
    let gc = |a: int|
        if s.contains(pl[a]) {
            cg
        } else {
            0
        };
    let jc = |a: int|
        if s.contains(pl[a]) {
            0
        } else {
            cj
        };
    assert forall|a: int| 0 <= a < n implies #[trigger] gf(a) == gc(a) && jf(a) == jc(a) by {
        if s.contains(pl[a]) {
            assert(s.remove(pl[a]).len() == sz - 1);
        }
    }
    crate::sums::lemma_sum_congruent(gf, gc, n);
    crate::sums::lemma_sum_congruent(jf, jc, n);
    lemma_count(pl, s, cg, n);
    lemma_count(pl, s, cj, n);
    assert(s.subset_of(everyone));
    assert(s.intersect(everyone) =~= s);
    assert(sum_upto(gf, n) == cg * sz);
    assert(sum_upto(jf, n) == cj * (n - sz));
    assert(factorial(n) == n * factorial((n - 1) as nat));
    if sz == n {
        assert(scaled_weight(n, (sz - 1) as nat) == factorial((n - 1) as nat) * factorial(0));
        assert(cg * sz == factorial(n) * e[k].1) by (nonlinear_arith)
            requires
                cg == factorial((n - 1) as nat) * 1 * e[k].1,
                sz == n,
                factorial(n) == n * factorial((n - 1) as nat),
        ;
    } else if sz == 0 {
        assert(scaled_weight(n, 0) == factorial(0) * factorial((n - 1) as nat));
        assert(cj * (n - sz) == factorial(n) * e[k].1) by (nonlinear_arith)
            requires
                cj == 1 * factorial((n - 1) as nat) * e[k].1,
                sz == 0,
                factorial(n) == n * factorial((n - 1) as nat),
        ;
    } else {
        lemma_weights_balance(n, sz);
        let ws = scaled_weight(n, (sz - 1) as nat);
        let wt = scaled_weight(n, sz);
        assert(cg * sz == cj * (n - sz)) by (nonlinear_arith)
            requires
                cg == ws * e[k].1,
                cj == wt * e[k].1,
                sz * ws == (n - sz) * wt,
        ;
    }
    assert(cj * 0 == 0 && cg * 0 == 0);
    assert(sum_upto(gf, n) - sum_upto(jf, n) == balance(e, n, k));
    crate::sums::lemma_sum_congruent(gf, |a: int| gain_term(e, pl.len(), pl[a], k), pl.len());
    crate::sums::lemma_sum_congruent(jf, |a: int| join_term(e, pl.len(), pl[a], k), pl.len());
}

/// When the table holds every coalition of the `n` distinct players `pl`,
/// their contribution sums add up to `n!` times the worth of the grand
/// coalition minus the worth of the empty coalition.
pub proof fn lemma_efficiency_sums(e: Seq<(Set<u64>, int)>, pl: Seq<u64>)
    requires
        full_game(e, pl),
        pl.len() >= 1,
    ensures
        sum_upto(|a: int| contribution_sum(e, pl.len(), pl[a], e.len()), pl.len()) == factorial(
            pl.len(),
        ) * (worth_of(e, pl.to_set()) - worth_of(e, Set::empty())),
{
    broadcast use vstd::set::group_set_axioms;

    let n = pl.len();
    let len = e.len();
    let g2 = |a: int, k: int| gain_term(e, n, pl[a], k);
    let j2 = |a: int, k: int| join_term(e, n, pl[a], k);
    let total = |a: int| contribution_sum(e, n, pl[a], len);
    let gains = |a: int| sum_upto(|k: int| g2(a, k), len);
    let joins = |a: int| sum_upto(|k: int| j2(a, k), len);
    assert forall|a: int| 0 <= a < n implies #[trigger] gains(a) == total(a) + joins(a) by {
        assert(pl.contains(pl[a]));
        lemma_contribution_split(e, pl, n, pl[a]);
        assert(sum_upto(|k: int| g2(a, k), len) == sum_upto(
            |k: int| gain_term(e, n, pl[a], k),
            len,
        )) by {
            crate::sums::lemma_sum_congruent(
                |k: int| g2(a, k),
                |k: int| gain_term(e, n, pl[a], k),
                len,
            );
        }
        crate::sums::lemma_sum_congruent(
            |k: int| j2(a, k),
            |k: int| join_term(e, n, pl[a], k),
            len,
        );
    }
    lemma_sum_add(total, joins, gains, n);
    lemma_sum_swap(g2, n, len);
    lemma_sum_swap(j2, n, len);
    // per coalition: the players inside it gain, the players outside join
    let gk = |k: int| sum_upto(|a: int| g2(a, k), n);
    let jk = |k: int| sum_upto(|a: int| j2(a, k), n);
    let h = |k: int| gk(k) - jk(k);
    vstd::seq_lib::seq_to_set_is_finite(pl);
    pl.unique_seq_to_set();
    let everyone = pl.to_set();
    assert(pl.subrange(0, n as int) =~= pl);
    assert forall|k: int| 0 <= k < len implies #[trigger] h(k) == balance(e, n, k) by {
        lemma_balance(e, pl, k);
        crate::sums::lemma_sum_congruent(
            |a: int| g2(a, k),
            |a: int| gain_term(e, n, pl[a], k),
            n,
        );
        crate::sums::lemma_sum_congruent(
            |a: int| j2(a, k),
            |a: int| join_term(e, n, pl[a], k),
            n,
        );
    }
    // only the grand and the empty coalition remain
    let top = index_of(e, everyone);
    let bottom = index_of(e, Set::<u64>::empty());
    assert(everyone.subset_of(everyone));
    assert(has_coalition(e, everyone));
    assert(has_coalition(e, Set::<u64>::empty()));
    assert(e[top].0.len() == n);
    assert(e[bottom].0.len() == 0);
    assert forall|k: int| 0 <= k < len && k != top && k != bottom implies #[trigger] h(k) == 0 by {
        lemma_entry_finite(e, pl, k);
        let s = e[k].0;
        if s.len() == n {
            lemma_subset_equality(s, everyone);
            lemma_worth_at(e, k);
        } else if s.len() == 0 {
            assert(s =~= Set::<u64>::empty());
            lemma_worth_at(e, k);
        }
    }
    assert(h(top) == factorial(n) * worth_of(e, everyone));
    assert(h(bottom) == -(factorial(n) * worth_of(e, Set::<u64>::empty())));
    lemma_sum_two_terms(h, len, top, bottom);
    lemma_sum_add(h, jk, gk, len);
    assert(sum_upto(gk, len) == sum_upto(gains, n));
    assert(sum_upto(jk, len) == sum_upto(joins, n));
    let f = factorial(n) as int;
    let vt = worth_of(e, everyone);
    let vb = worth_of(e, Set::<u64>::empty());
    assert(f * (vt - vb) == f * vt - f * vb) by (nonlinear_arith);
    crate::sums::lemma_sum_congruent(
        total,
        |a: int| contribution_sum(e, pl.len(), pl[a], e.len()),
        pl.len(),
    );
}

/// The same coalitions, each worth its number of members.
pub open spec fn additive(e: Seq<(Set<u64>, int)>) -> Seq<(Set<u64>, int)> {
    e.map_values(|x: (Set<u64>, int)| (x.0, x.0.len() as int))
}

proof fn lemma_same_keys_same_weights(
    e: Seq<(Set<u64>, int)>,
    d: Seq<(Set<u64>, int)>,
    n: nat,
    p: u64,
    k: nat,
)
    requires
        e.len() == d.len(),
        k <= e.len(),
        forall|x: int| 0 <= x < e.len() ==> (#[trigger] e[x]).0 == d[x].0,
    ensures
        weight_sum(e, n, p, k) == weight_sum(d, n, p, k),
    decreases k,
{
    if k > 0 {
        lemma_same_keys_same_weights(e, d, n, p, (k - 1) as nat);
        assert(e[k - 1].0 == d[k - 1].0);
    }
}

/// In the additive game on a full table every marginal contribution is 1.
proof fn lemma_additive_contribution(e: Seq<(Set<u64>, int)>, pl: Seq<u64>, p: u64, k: nat)
    requires
        full_game(e, pl),
        k <= e.len(),
    ensures
        contribution_sum(additive(e), pl.len(), p, k) == weight_sum(additive(e), pl.len(), p, k),
    decreases k,
{
    if k > 0 {
        lemma_additive_contribution(e, pl, p, (k - 1) as nat);
        let d = additive(e);
        let x = k - 1;
        let s = d[x].0;
        assert(s == e[x].0);
        if s.contains(p) {
            lemma_entry_finite(e, pl, x);
            assert(s.remove(p).subset_of(pl.to_set()));
            assert(has_coalition(e, s.remove(p)));
            let j = choose|j: int| 0 <= j < e.len() && e[j].0 == s.remove(p);
            assert(d[j].0 == s.remove(p));
            assert(has_coalition(d, s.remove(p)));
            let m = index_of(d, s.remove(p));
            assert(d[m].1 == d[m].0.len());
            assert(d[x].1 - worth_of(d, s.remove(p)) == 1);
            let w = entry_weight(d, pl.len(), p, x);
            assert(w * 1 == w) by (nonlinear_arith);
        }
    }
}

/// On a full table every player's weights add up to `n!`.
pub proof fn lemma_full_weights(e: Seq<(Set<u64>, int)>, pl: Seq<u64>, b: int)
    requires
        full_game(e, pl),
        0 <= b < pl.len(),
    ensures
        weight_sum(e, pl.len(), pl[b], e.len()) == factorial(pl.len()),
{
    broadcast use vstd::set::group_set_axioms;

    let n = pl.len();
    let len = e.len();
    let d = additive(e);
    assert forall|x: int| 0 <= x < len implies (#[trigger] e[x]).0 == d[x].0 by {}
    assert(full_game(d, pl)) by {
        assert forall|c: Set<u64>| c.subset_of(pl.to_set()) implies #[trigger] has_coalition(
            d,
            c,
        ) by {
            assert(has_coalition(e, c));
            let j = choose|j: int| 0 <= j < e.len() && e[j].0 == c;
            assert(d[j].0 == c);
        }
        assert forall|x: int| 0 <= x < len implies (#[trigger] d[x]).0.subset_of(pl.to_set()) by {
            assert(e[x].0.subset_of(pl.to_set()));
        }
    }
    vstd::seq_lib::seq_to_set_is_finite(pl);
    pl.unique_seq_to_set();
    lemma_efficiency_sums(d, pl);
    // every player of the additive game is interchangeable with `pl[b]`
    assert forall|x: int| 0 <= x < len implies (#[trigger] d[x]).0.finite() by {
        lemma_entry_finite(d, pl, x);
    }
    let w = weight_sum(d, n, pl[b], len);
    assert forall|a: int| 0 <= a < n implies #[trigger] weight_sum(d, n, pl[a], len) == w by {
        let i = pl[b];
        let j = pl[a];
        assert(pl.contains(i) && pl.contains(j));
        assert forall|x: int| 0 <= x < len implies has_coalition(
            d,
            swap_players(#[trigger] d[x].0, i, j),
        ) && worth_of(d, swap_players(d[x].0, i, j)) == d[x].1 by {
            let s = d[x].0;
            assert(s.subset_of(pl.to_set()));
            lemma_entry_finite(d, pl, x);
            lemma_swap_len(s, i, j);
            assert(swap_players(s, i, j).subset_of(pl.to_set()));
            assert(has_coalition(d, swap_players(s, i, j)));
            let m = index_of(d, swap_players(s, i, j));
            assert(d[m].1 == d[m].0.len());
        }
        assert(interchangeable(d, i, j));
        assert forall|x: int| 0 <= x < len implies !lacks_complement(d, i, x) by {
            let s = d[x].0;
            if s.contains(i) {
                assert(s.subset_of(pl.to_set()));
                assert(s.remove(i).subset_of(pl.to_set()));
                assert(has_coalition(d, s.remove(i)));
            }
        }
        lemma_symmetric_sums(d, n, i, j);
    }
    let per = |a: int| contribution_sum(d, n, pl[a], len);
    assert forall|a: int| 0 <= a < n implies #[trigger] per(a) == w by {
        lemma_additive_contribution(e, pl, pl[a], len);
    }
    crate::sums::lemma_sum_constant(per, w, n);
    crate::sums::lemma_sum_congruent(
        per,
        |a: int| contribution_sum(d, pl.len(), pl[a], d.len()),
        n,
    );
    assert(pl.to_set().subset_of(pl.to_set()));
    assert(has_coalition(d, pl.to_set()));
    assert(has_coalition(d, Set::<u64>::empty()));
    let top = index_of(d, pl.to_set());
    let bottom = index_of(d, Set::<u64>::empty());
    assert(d[top] == (e[top].0, e[top].0.len() as int));
    assert(d[bottom] == (e[bottom].0, e[bottom].0.len() as int));
    assert(worth_of(d, pl.to_set()) - worth_of(d, Set::<u64>::empty()) == n);
    let f = factorial(n) as int;
    assert(sum_upto(per, n) == f * n);
    assert(n * w == f * n);
    assert(w == f) by (nonlinear_arith)
        requires
            n >= 1,
            n * w == f * n,
    ;
    lemma_same_keys_same_weights(e, d, n, pl[b], len);
}

} // verus!
