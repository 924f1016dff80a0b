//! The Shapley engine: exact weighted averages of marginal contributions over
//! the coalitions that a worth table supplies.

use vstd::prelude::*;

use crate::coalition::Coalition;
use crate::efficiency::{full_game, lemma_efficiency_sums, lemma_full_weights};
use crate::sums::{lemma_sum_congruent, lemma_sum_permuted, sum_upto};

verus! {

/// The largest number of players an engine accepts: with it every scaled
/// weight fits in 57 bits.
pub const MAX_PLAYERS: usize = 20;

/// `(MAX_PLAYERS - 1)!`, the largest scaled weight.
pub const WEIGHT_CAP: u64 = 121645100408832000;

pub open spec fn factorial(k: nat) -> nat
    decreases k,
{
    if k == 0 {
        1
    } else {
        k * factorial((k - 1) as nat)
    }
}

/// `n! * w(s)`, where `w(s) = (1/n) / C(n-1, s)` weighs a marginal contribution
/// to a coalition of `s` other players. It equals `s! * (n-1-s)!`.
pub open spec fn scaled_weight(n: nat, s: nat) -> nat {
    factorial(s) * factorial((n - 1 - s) as nat)
}

/// A worth table seen as coalitions (sets of players) with integer worths.
pub open spec fn entries_of(t: Seq<(Coalition, i64)>) -> Seq<(Set<u64>, int)> {
    t.map_values(|e: (Coalition, i64)| (e.0@, e.1 as int))
}

/// The table holds `c`.
pub open spec fn has_coalition(e: Seq<(Set<u64>, int)>, c: Set<u64>) -> bool {
    exists|j: int| 0 <= j < e.len() && e[j].0 == c
}

/// No coalition appears twice.
pub open spec fn keys_unique(e: Seq<(Set<u64>, int)>) -> bool {
    forall|a: int, b: int| 0 <= a < b < e.len() ==> e[a].0 != e[b].0
}

/// A position of `c` in the table (meaningful when `c` is present).
pub open spec fn index_of(e: Seq<(Set<u64>, int)>, c: Set<u64>) -> int {
    choose|j: int| 0 <= j < e.len() && e[j].0 == c
}

/// The worth recorded for `c` (meaningful when `c` is present).
pub open spec fn worth_of(e: Seq<(Set<u64>, int)>, c: Set<u64>) -> int {
    e[index_of(e, c)].1
}

/// Entry `k` contains `player`, but the coalition without `player` is absent.
pub open spec fn lacks_complement(e: Seq<(Set<u64>, int)>, player: u64, k: int) -> bool {
    e[k].0.contains(player) && !has_coalition(e, e[k].0.remove(player))
}

/// Entry `k` contains `player`, its complement is present, but the other
/// members are too many for an `n`-player game.
pub open spec fn oversized(e: Seq<(Set<u64>, int)>, n: nat, player: u64, k: int) -> bool {
    e[k].0.contains(player) && has_coalition(e, e[k].0.remove(player)) && e[k].0.remove(
        player,
    ).len() >= n
}

/// Entry `k` contains `player` but cannot serve to measure its contribution.
pub open spec fn unusable(e: Seq<(Set<u64>, int)>, n: nat, player: u64, k: int) -> bool {
    lacks_complement(e, player, k) || oversized(e, n, player, k)
}

/// Entry `k` is the first one that cannot be used for `player`.
pub open spec fn first_unusable(e: Seq<(Set<u64>, int)>, n: nat, player: u64, k: int) -> bool {
    0 <= k < e.len() && unusable(e, n, player, k) && forall|j: int|
        0 <= j < k ==> !unusable(e, n, player, j)
}

/// Every entry that contains `player` can serve to measure its contribution.
pub open spec fn all_usable(e: Seq<(Set<u64>, int)>, n: nat, player: u64) -> bool {
    forall|k: int| 0 <= k < e.len() ==> !unusable(e, n, player, k)
}

/// Some coalition of the table contains `player`.
pub open spec fn mentions(e: Seq<(Set<u64>, int)>, player: u64) -> bool {
    exists|k: int| 0 <= k < e.len() && e[k].0.contains(player)
}

/// The weight that entry `k` contributes for `player`.
pub open spec fn entry_weight(e: Seq<(Set<u64>, int)>, n: nat, player: u64, k: int) -> int {
    if e[k].0.contains(player) {
        scaled_weight(n, e[k].0.remove(player).len()) as int
    } else {
        0
    }
}

/// The sum of the scaled weights over the first `k` entries.
pub open spec fn weight_sum(e: Seq<(Set<u64>, int)>, n: nat, player: u64, k: nat) -> int
    decreases k,
{
    if k == 0 {
        0
    } else {
        weight_sum(e, n, player, (k - 1) as nat) + entry_weight(e, n, player, k - 1)
    }
}

/// The weighted marginal contribution of `player` to entry `k`.
pub open spec fn contribution_term(e: Seq<(Set<u64>, int)>, n: nat, player: u64, k: int) -> int {
    if e[k].0.contains(player) {
        entry_weight(e, n, player, k) * (e[k].1 - worth_of(e, e[k].0.remove(player)))
    } else {
        0
    }
}

/// The sum of the weighted marginal contributions of `player` over the first
/// `k` entries.
pub open spec fn contribution_sum(e: Seq<(Set<u64>, int)>, n: nat, player: u64, k: nat) -> int
    decreases k,
{
    if k == 0 {
        0
    } else {
        contribution_sum(e, n, player, (k - 1) as nat) + contribution_term(e, n, player, k - 1)
    }
}

/// Every running sum of the contributions fits in an `i128`.
pub open spec fn sums_fit(e: Seq<(Set<u64>, int)>, n: nat, player: u64) -> bool {
    forall|k: nat|
        k <= e.len() ==> i128::MIN <= #[trigger] contribution_sum(e, n, player, k) <= i128::MAX
}

/// The Shapley value of a player, as the exact fraction
/// `numerator / denominator` with a positive denominator.
#[derive(Debug, Clone, Copy, PartialEq, Eq, Structural)]
pub struct ShapleyValue {
    pub numerator: i128,
    pub denominator: i128,
}

/// Why a Shapley value could not be computed.
#[derive(Debug, Clone)]
pub enum ShapleyError {
    /// The table holds a coalition with the player, but not `coalition`, the
    /// same coalition without the player.
    MissingCoalitionData { coalition: Coalition },
    /// A coalition holds more other players than the game has, so no weight
    /// exists for its `size`.
    MissingWeight { size: usize },
    /// No coalition of the table contains `player`.
    InsufficientData { player: u64 },
    /// The exact sum for `player` does not fit in 128 bits.
    Overflow { player: u64 },
}

/// Owns a coalition worth table and the weight table of an `n`-player game.
pub struct Shapley {
    table: Vec<(Coalition, i64)>,
    weights: Vec<u64>,
}

proof fn lemma_factorial_positive(k: nat)
    ensures
        factorial(k) >= 1,
    decreases k,
{
    if k > 0 {
        lemma_factorial_positive((k - 1) as nat);
        let f = factorial((k - 1) as nat);
        assert(k * f >= 1) by (nonlinear_arith)
            requires
                k >= 1,
                f >= 1,
        ;
    }
}

proof fn lemma_factorial_product(s: nat, t: nat)
    ensures
        factorial(s) * factorial(t) <= factorial(s + t),
    decreases t,
{
    if t > 0 {
        lemma_factorial_product(s, (t - 1) as nat);
        let a = factorial(s);
        let b = factorial((t - 1) as nat);
        let c = factorial((s + t - 1) as nat);
        assert(factorial(t) == t * b);
        assert((s + t - 1) as nat == s + (t - 1) as nat);
        assert(factorial(s + t) == (s + t) * c);
        assert(a * (t * b) <= (s + t) * c) by (nonlinear_arith)
            requires
                a * b <= c,
        ;
        assert(factorial(s) * factorial(t) == a * (t * b));
        assert(factorial(s) * factorial(t) <= factorial(s + t));
    } else {
        assert(factorial(t) == 1);
        assert(s + t == s);
        assert(factorial(s) * 1 == factorial(s));
    }
}

proof fn lemma_factorial_monotone(a: nat, b: nat)
    requires
        a <= b,
    ensures
        factorial(a) <= factorial(b),
{
    let d = (b - a) as nat;
    lemma_factorial_product(a, d);
    lemma_factorial_positive(d);
    assert(a + d == b);
    let f = factorial(a);
    let g = factorial(d);
    assert(f <= f * g) by (nonlinear_arith)
        requires
            g >= 1,
    ;
}

proof fn lemma_factorial_cap()
    ensures
        factorial((MAX_PLAYERS - 1) as nat) == WEIGHT_CAP,
{
    assert(factorial(0) == 1);
    assert(factorial(1) == 1);
    assert(factorial(2) == 2);
    assert(factorial(3) == 6);
    assert(factorial(4) == 24);
    assert(factorial(5) == 120);
    assert(factorial(6) == 720);
    assert(factorial(7) == 5040);
    assert(factorial(8) == 40320);
    assert(factorial(9) == 362880);
    assert(factorial(10) == 3628800);
    assert(factorial(11) == 39916800);
    assert(factorial(12) == 479001600);
    assert(factorial(13) == 6227020800);
    assert(factorial(14) == 87178291200);
    assert(factorial(15) == 1307674368000);
    assert(factorial(16) == 20922789888000);
    assert(factorial(17) == 355687428096000);
    assert(factorial(18) == 6402373705728000);
    assert(factorial(19) == 121645100408832000);
}

/// Every scaled weight of a game of at most `MAX_PLAYERS` players lies
/// between 1 and `WEIGHT_CAP`.
proof fn lemma_weight_bounds(n: nat, s: nat)
    requires
        1 <= n <= MAX_PLAYERS,
        s < n,
    ensures
        1 <= scaled_weight(n, s) <= WEIGHT_CAP,
{
    let t = (n - 1 - s) as nat;
    lemma_factorial_positive(s);
    lemma_factorial_positive(t);
    lemma_factorial_product(s, t);
    lemma_factorial_product((n - 1) as nat, (MAX_PLAYERS - n) as nat);
    lemma_factorial_positive((MAX_PLAYERS - n) as nat);
    lemma_factorial_cap();
    let a = factorial(s);
    let b = factorial(t);
    assert(a * b >= 1) by (nonlinear_arith)
        requires
            a >= 1,
            b >= 1,
    ;
    let f = factorial((n - 1) as nat);
    let g = factorial((MAX_PLAYERS - n) as nat);
    assert(f <= f * g) by (nonlinear_arith)
        requires
            g >= 1,
    ;
}

/// The position of `c` in the table, if it is there.
fn position(table: &Vec<(Coalition, i64)>, c: &Coalition) -> (r: Option<usize>)
    requires
        c.wf(),
        forall|k: int| 0 <= k < table@.len() ==> (#[trigger] table@[k]).0.wf(),
        keys_unique(entries_of(table@)),
    ensures
        match r {
            Some(j) => j < table@.len() && entries_of(table@)[j as int].0 == c@ && worth_of(
                entries_of(table@),
                c@,
            ) == entries_of(table@)[j as int].1,
            None => !has_coalition(entries_of(table@), c@),
        },
{
    let ghost e = entries_of(table@);
    let mut j: usize = 0;
    while j < table.len()
        invariant
            0 <= j <= table@.len(),
            e == entries_of(table@),
            c.wf(),
            forall|k: int| 0 <= k < table@.len() ==> (#[trigger] table@[k]).0.wf(),
            forall|k: int| 0 <= k < j ==> e[k].0 != c@,
            keys_unique(e),
        decreases table@.len() - j,
    {
        let found = table[j].0.eq(c);
        proof {
            crate::coalition::lemma_elements_match_members(table@[j as int].0, *c);
        }
        if found {
            proof {
                assert(e[j as int].0 == c@);
                let i = choose|i: int| 0 <= i < e.len() && e[i].0 == c@;
                if i != j {
                    assert(keys_unique(e));
                    if i < j {
                        assert(e[i].0 != e[j as int].0);
                    } else {
                        assert(e[j as int].0 != e[i].0);
                    }
                }
            }
            return Some(j);
        }
        j = j + 1;
    }
    None
}

/// `s` with players `i` and `j` exchanged.
pub open spec fn swap_players(s: Set<u64>, i: u64, j: u64) -> Set<u64> {
    Set::new(
        |x: u64|
            if x == i {
                s.contains(j)
            } else if x == j {
                s.contains(i)
            } else {
                s.contains(x)
            },
    )
}

/// Exchanging `i` and `j` takes every coalition of the table to a coalition of
/// the table with the same worth.
pub open spec fn interchangeable(e: Seq<(Set<u64>, int)>, i: u64, j: u64) -> bool {
    forall|k: int|
        0 <= k < e.len() ==> has_coalition(e, swap_players(#[trigger] e[k].0, i, j)) && worth_of(
            e,
            swap_players(e[k].0, i, j),
        ) == e[k].1
}

/// Exchanging two players keeps the number of members.
pub proof fn lemma_swap_len(a: Set<u64>, i: u64, j: u64)
    requires
        a.finite(),
    ensures
        swap_players(a, i, j).finite(),
        swap_players(a, i, j).len() == a.len(),
{
    broadcast use vstd::set::group_set_axioms;

    let b = swap_players(a, i, j);
    if i == j || a.contains(i) == a.contains(j) {
        assert(b =~= a);
    } else if a.contains(i) {
        assert(b =~= a.remove(i).insert(j));
    } else {
        assert(b =~= a.remove(j).insert(i));
    }
}

/// In a table without repeated coalitions, entry `k` is where its coalition
/// is found.
pub proof fn lemma_worth_at(e: Seq<(Set<u64>, int)>, k: int)
    requires
        keys_unique(e),
        0 <= k < e.len(),
    ensures
        index_of(e, e[k].0) == k,
        worth_of(e, e[k].0) == e[k].1,
{
    let x = index_of(e, e[k].0);
    assert(e[k].0 == e[k].0);
    if x < k {
        assert(e[x].0 != e[k].0);
    } else if x > k {
        assert(e[k].0 != e[x].0);
    }
}

proof fn lemma_weight_sum_is_sum(e: Seq<(Set<u64>, int)>, n: nat, player: u64, k: nat)
    ensures
        weight_sum(e, n, player, k) == sum_upto(|x: int| entry_weight(e, n, player, x), k),
    decreases k,
{
    if k > 0 {
        lemma_weight_sum_is_sum(e, n, player, (k - 1) as nat);
    }
}

proof fn lemma_contribution_sum_is_sum(e: Seq<(Set<u64>, int)>, n: nat, player: u64, k: nat)
    ensures
        contribution_sum(e, n, player, k) == sum_upto(
            |x: int| contribution_term(e, n, player, x),
            k,
        ),
    decreases k,
{
    if k > 0 {
        lemma_contribution_sum_is_sum(e, n, player, (k - 1) as nat);
    }
}

/// The coalition that exchanging `i` and `j` takes entry `k` to sits at
/// `index_of(e, swap_players(e[k].0, i, j))`, and going there twice returns.
proof fn lemma_swapped_index(e: Seq<(Set<u64>, int)>, i: u64, j: u64, k: int)
    requires
        keys_unique(e),
        interchangeable(e, i, j),
        0 <= k < e.len(),
    ensures
        0 <= index_of(e, swap_players(e[k].0, i, j)) < e.len(),
        e[index_of(e, swap_players(e[k].0, i, j))].0 == swap_players(e[k].0, i, j),
        e[index_of(e, swap_players(e[k].0, i, j))].1 == e[k].1,
        index_of(e, swap_players(e[index_of(e, swap_players(e[k].0, i, j))].0, i, j)) == k,
{
    let sk = swap_players(e[k].0, i, j);
    assert(has_coalition(e, sk));
    assert(swap_players(sk, i, j) =~= e[k].0);
    lemma_worth_at(e, k);
}

/// Entry `k` gives `i` the weight and contribution that its exchanged
/// coalition gives `j`.
proof fn lemma_swapped_terms(e: Seq<(Set<u64>, int)>, n: nat, i: u64, j: u64, k: int)
    requires
        i != j,
        keys_unique(e),
        e[k].0.finite(),
        interchangeable(e, i, j),
        forall|x: int| 0 <= x < e.len() ==> !lacks_complement(e, i, x),
        0 <= k < e.len(),
    ensures
        entry_weight(e, n, i, k) == entry_weight(e, n, j, index_of(e, swap_players(e[k].0, i, j))),
        contribution_term(e, n, i, k) == contribution_term(
            e,
            n,
            j,
            index_of(e, swap_players(e[k].0, i, j)),
        ),
{
    lemma_swapped_index(e, i, j, k);
    let sk = e[k].0;
    let x = index_of(e, swap_players(sk, i, j));
    let t = e[x].0;
    assert(t.contains(j) == sk.contains(i));
    if sk.contains(i) {
        let rest = sk.remove(i);
        assert(t.remove(j) =~= swap_players(rest, i, j));
        lemma_swap_len(rest, i, j);
        assert(!lacks_complement(e, i, k));
        let m = index_of(e, rest);
        assert(e[m].0 == rest);
        lemma_worth_at(e, m);
        assert(worth_of(e, swap_players(e[m].0, i, j)) == e[m].1);
    }
}

/// Over a table closed under exchanging `i` and `j`, whose coalitions with `i`
/// all have their complements, both players have the same weight and
/// contribution sums.
pub proof fn lemma_symmetric_sums(e: Seq<(Set<u64>, int)>, n: nat, i: u64, j: u64)
    requires
        keys_unique(e),
        forall|k: int| 0 <= k < e.len() ==> (#[trigger] e[k]).0.finite(),
        interchangeable(e, i, j),
        forall|k: int| 0 <= k < e.len() ==> !lacks_complement(e, i, k),
    ensures
        weight_sum(e, n, i, e.len()) == weight_sum(e, n, j, e.len()),
        contribution_sum(e, n, i, e.len()) == contribution_sum(e, n, j, e.len()),
{
    if i != j {
        let len = e.len();
        let p = |k: int| index_of(e, swap_players(e[k].0, i, j));
        assert forall|k: int| 0 <= k < len implies 0 <= #[trigger] p(k) < len && p(p(k)) == k by {
            lemma_swapped_index(e, i, j, k);
        }
        let wi = |x: int| entry_weight(e, n, i, x);
        let wj = |x: int| entry_weight(e, n, j, x);
        let ci = |x: int| contribution_term(e, n, i, x);
        let cj = |x: int| contribution_term(e, n, j, x);
        assert forall|k: int| 0 <= k < len implies wi(k) == wj(#[trigger] p(k)) && ci(k) == cj(
            p(k),
        ) by {
            lemma_swapped_terms(e, n, i, j, k);
        }
        lemma_sum_permuted(wi, wj, p, p, len);
        lemma_sum_permuted(ci, cj, p, p, len);
        lemma_weight_sum_is_sum(e, n, i, len);
        lemma_weight_sum_is_sum(e, n, j, len);
        lemma_contribution_sum_is_sum(e, n, i, len);
        lemma_contribution_sum_is_sum(e, n, j, len);
    }
}

impl Shapley {
    /// The coalitions of the table with their worths, in table order.
    pub closed spec fn entries(&self) -> Seq<(Set<u64>, int)> {
        entries_of(self.table@)
    }

    /// The number of players of the game.
    pub closed spec fn player_count(&self) -> nat {
        self.weights@.len()
    }

    /// The table holds well-formed, distinct coalitions, the empty one among
    /// them, and the weights are those of a game of 1 to `MAX_PLAYERS` players.
    pub closed spec fn wf(&self) -> bool {
        &&& 1 <= self.weights@.len() <= MAX_PLAYERS
        &&& forall|s: int|
            0 <= s < self.weights@.len() ==> #[trigger] self.weights@[s] == scaled_weight(
                self.weights@.len(),
                s as nat,
            )
        &&& forall|k: int| 0 <= k < self.table@.len() ==> (#[trigger] self.table@[k]).0.wf()
        &&& keys_unique(self.entries())
        &&& has_coalition(self.entries(), Set::empty())
    }

    /// An engine for the game of `players` with the given worths. The empty
    /// coalition is added with worth 0 when the table lacks it.
    pub fn new(players: Vec<u64>, coalition_worth: Vec<(Coalition, i64)>) -> (r: Shapley)
        requires
            1 <= players.len() <= MAX_PLAYERS,
            forall|k: int|
                0 <= k < coalition_worth@.len() ==> (#[trigger] coalition_worth@[k]).0.wf(),
            keys_unique(entries_of(coalition_worth@)),
        ensures
            r.wf(),
            r.player_count() == players.len(),
            has_coalition(entries_of(coalition_worth@), Set::empty()) ==> r.entries()
                == entries_of(coalition_worth@),
            !has_coalition(entries_of(coalition_worth@), Set::empty()) ==> r.entries()
                == entries_of(coalition_worth@).push((Set::empty(), 0)),
            !has_coalition(entries_of(coalition_worth@), Set::empty()) ==> worth_of(
                r.entries(),
                Set::empty(),
            ) == 0,
    {
        let n = players.len();
        let mut table = coalition_worth;
        let empty = Coalition::new(Vec::new());
        assert(empty@ =~= Set::<u64>::empty());
        let found = position(&table, &empty);
        if found.is_none() {
            let ghost before = table@;
            table.push((empty, 0));
            proof {
                let e = entries_of(table@);
                assert(e =~= entries_of(before).push((Set::empty(), 0)));
                assert(e[before.len() as int].0 == Set::<u64>::empty());
                let j = choose|j: int| 0 <= j < e.len() && e[j].0 == Set::<u64>::empty();
                if j < before.len() {
                    assert(entries_of(before)[j].0 == Set::<u64>::empty());
                }
            }
        }
        let mut fact: Vec<u64> = Vec::new();
        fact.push(1);
        let mut k: usize = 1;
        proof {
            lemma_factorial_cap();
        }
        while k < n
            invariant
                1 <= k <= n,
                n <= MAX_PLAYERS,
                fact@.len() == k,
                factorial((MAX_PLAYERS - 1) as nat) == WEIGHT_CAP,
                forall|j: int| 0 <= j < k ==> #[trigger] fact@[j] == factorial(j as nat),
            decreases n - k,
        {
            proof {
                lemma_factorial_monotone(k as nat, (MAX_PLAYERS - 1) as nat);
                assert(fact@[k - 1] == factorial((k - 1) as nat));
                assert(factorial(k as nat) == k * factorial((k - 1) as nat));
                assert(fact@[k - 1] * k <= WEIGHT_CAP);
            }
            let next = fact[k - 1] * (k as u64);
            fact.push(next);
            k = k + 1;
        }
        let mut weights: Vec<u64> = Vec::new();
        let mut s: usize = 0;
        while s < n
            invariant
                0 <= s <= n,
                1 <= n <= MAX_PLAYERS,
                fact@.len() == n,
                forall|j: int| 0 <= j < n ==> #[trigger] fact@[j] == factorial(j as nat),
                weights@.len() == s,
                forall|j: int| 0 <= j < s ==> #[trigger] weights@[j] == scaled_weight(n as nat, j as nat),
            decreases n - s,
        {
            proof {
                lemma_weight_bounds(n as nat, s as nat);
            }
            let w = fact[s] * fact[n - 1 - s];
            weights.push(w);
            s = s + 1;
        }
        Shapley { table, weights }
    }

    /// The worth recorded for `c`, if the table holds it.
    pub fn worth(&self, c: &Coalition) -> (r: Option<i64>)
        requires
            self.wf(),
            c.wf(),
        ensures
            r is Some <==> has_coalition(self.entries(), c@),
            r is Some ==> r->0 as int == worth_of(self.entries(), c@),
    {
        match position(&self.table, c) {
            Some(j) => Some(self.table[j].1),
            None => None,
        }
    }

    /// The Shapley value of `player`: the weighted average of its marginal
    /// contributions `v(S) - v(S minus player)` over the coalitions `S` of the
    /// table that contain it, each weighted by `n! * w(|S| - 1)`, as an exact
    /// fraction.
    ///
    /// Fails at the first coalition of the table that contains `player` and
    /// lacks its complement (or holds more players than the game), then when
    /// no coalition contains `player`, then when the exact sum does not fit.
    pub fn shapley_value(&self, player: u64) -> (r: Result<ShapleyValue, ShapleyError>)
        requires
            self.wf(),
        ensures
            ({
                let e = self.entries();
                let n = self.player_count();
                match r {
                    Ok(v) => {
                        &&& all_usable(e, n, player)
                        &&& mentions(e, player)
                        &&& sums_fit(e, n, player)
                        &&& v.numerator == contribution_sum(e, n, player, e.len())
                        &&& v.denominator == weight_sum(e, n, player, e.len())
                        &&& v.denominator > 0
                    },
                    Err(ShapleyError::MissingCoalitionData { coalition }) => exists|k: int|
                        #![trigger e[k]]
                        first_unusable(e, n, player, k) && lacks_complement(e, player, k)
                            && coalition.wf() && coalition@ == e[k].0.remove(player),
                    Err(ShapleyError::MissingWeight { size }) => exists|k: int|
                        #![trigger e[k]]
                        first_unusable(e, n, player, k) && oversized(e, n, player, k) && size
                            == e[k].0.remove(player).len(),
                    Err(ShapleyError::InsufficientData { player: p }) => p == player
                        && all_usable(e, n, player) && !mentions(e, player),
                    Err(ShapleyError::Overflow { player: p }) => p == player && all_usable(
                        e,
                        n,
                        player,
                    ) && mentions(e, player) && !sums_fit(e, n, player),
                }
            }),
    {
        let ghost e = self.entries();
        let ghost n = self.player_count();
        let mut numerator: i128 = 0;
        let mut denominator: i128 = 0;
        let mut overflowed = false;
        let mut k: usize = 0;
        while k < self.table.len()
            invariant
                self.wf(),
                e == self.entries(),
                n == self.player_count(),
                0 <= k <= e.len(),
                e.len() == self.table@.len(),
                forall|j: int| 0 <= j < k ==> !unusable(e, n, player, j),
                denominator as int == weight_sum(e, n, player, k as nat),
                0 <= denominator <= k * WEIGHT_CAP,
                (denominator > 0) == (exists|j: int| 0 <= j < k && e[j].0.contains(player)),
                !overflowed ==> numerator as int == contribution_sum(e, n, player, k as nat),
                !overflowed ==> forall|j: nat|
                    j <= k ==> i128::MIN <= #[trigger] contribution_sum(e, n, player, j)
                        <= i128::MAX,
                overflowed ==> exists|j: nat|
                    j <= k && !(i128::MIN <= #[trigger] contribution_sum(e, n, player, j)
                        <= i128::MAX),
            decreases e.len() - k,
        {
            let c = &self.table[k].0;
            let value_with = self.table[k].1;
            assert(e[k as int] == (c@, value_with as int));
            if c.contains(player) {
                let without = c.subtract(player);
                let found = position(&self.table, &without);
                let j = match found {
                    Some(j) => j,
                    None => {
                        assert(first_unusable(e, n, player, k as int));
                        return Err(ShapleyError::MissingCoalitionData { coalition: without });
                    },
                };
                let size = without.size();
                if size >= self.weights.len() {
                    assert(first_unusable(e, n, player, k as int));
                    return Err(ShapleyError::MissingWeight { size });
                }
                let value_without = self.table[j].1;
                let weight = self.weights[size];
                proof {
                    lemma_weight_bounds(n, size as nat);
                    assert(entry_weight(e, n, player, k as int) == weight as int);
                    let w = weight as int;
                    let d = value_with as int - value_without as int;
                    assert(-0x1_0000_0000_0000_0000 <= d <= 0x1_0000_0000_0000_0000);
                    assert(-0x1_0000_0000_0000_0000 * WEIGHT_CAP <= w * d
                        <= 0x1_0000_0000_0000_0000 * WEIGHT_CAP) by (nonlinear_arith)
                        requires
                            0 <= w <= WEIGHT_CAP,
                            -0x1_0000_0000_0000_0000 <= d <= 0x1_0000_0000_0000_0000,
                    ;
                    assert((k + 1) * WEIGHT_CAP <= 0x1_0000_0000_0000_0000 * WEIGHT_CAP)
                        by (nonlinear_arith)
                        requires
                            k + 1 <= 0x1_0000_0000_0000_0000,
                    ;
                }
                let term = (weight as i128) * ((value_with as i128) - (value_without as i128));
                denominator = denominator + weight as i128;
                if !overflowed {
                    match numerator.checked_add(term) {
                        Some(sum) => {
                            numerator = sum;
                        },
                        None => {
                            overflowed = true;
                            assert(!(i128::MIN <= contribution_sum(e, n, player, (k + 1) as nat)
                                <= i128::MAX));
                        },
                    }
                }
            }
            k = k + 1;
        }
        if denominator == 0 {
            return Err(ShapleyError::InsufficientData { player });
        }
        if overflowed {
            return Err(ShapleyError::Overflow { player });
        }
        Ok(ShapleyValue { numerator, denominator })
    }

    /// The number of players of the game.
    pub fn players(&self) -> (r: usize)
        ensures
            r == self.player_count(),
    {
        self.weights.len()
    }
    /// Symmetry: when exchanging players `i` and `j` takes every coalition of
    /// the table to one with the same worth, and every coalition with `i` has
    /// its complement in the table, both players get the same exact sums, so
    /// `shapley_value` gives them the same value.
    pub proof fn lemma_symmetry(self, i: u64, j: u64)
        requires
            self.wf(),
            interchangeable(self.entries(), i, j),
            forall|k: int| 0 <= k < self.entries().len() ==> !lacks_complement(self.entries(), i, k),
        ensures
            weight_sum(self.entries(), self.player_count(), i, self.entries().len()) == weight_sum(
                self.entries(),
                self.player_count(),
                j,
                self.entries().len(),
            ),
            contribution_sum(self.entries(), self.player_count(), i, self.entries().len())
                == contribution_sum(self.entries(), self.player_count(), j, self.entries().len()),
    {
        let e = self.entries();
        assert forall|k: int| 0 <= k < e.len() implies (#[trigger] e[k]).0.finite() by {
            crate::coalition::lemma_members_finite(self.table@[k].0);
        }
        lemma_symmetric_sums(e, self.player_count(), i, j);
    }
    /// Efficiency: when the table holds each coalition of the game's distinct
    /// players `pl` exactly once, every player's weights add up to `n!`, and
    /// the contributions of all players add up to `n!` times the worth of the
    /// grand coalition minus the worth of the empty one; so the Shapley values
    /// that `shapley_value` gives add up to that difference.
    pub proof fn lemma_efficiency(self, pl: Seq<u64>)
        requires
            self.wf(),
            pl.len() == self.player_count(),
            full_game(self.entries(), pl),
        ensures
            forall|a: int|
                0 <= a < pl.len() ==> #[trigger] weight_sum(
                    self.entries(),
                    self.player_count(),
                    pl[a],
                    self.entries().len(),
                ) == factorial(self.player_count()),
            sum_upto(
                |a: int|
                    contribution_sum(self.entries(), self.player_count(), pl[a], self.entries().len()),
                pl.len(),
            ) == factorial(self.player_count()) * (worth_of(self.entries(), pl.to_set())
                - worth_of(self.entries(), Set::empty())),
    {
        let e = self.entries();
        assert forall|a: int| 0 <= a < pl.len() implies #[trigger] weight_sum(
            e,
            self.player_count(),
            pl[a],
            e.len(),
        ) == factorial(self.player_count()) by {
            lemma_full_weights(e, pl, a);
        }
        lemma_efficiency_sums(e, pl);
        lemma_sum_congruent(
            |a: int| contribution_sum(e, pl.len(), pl[a], e.len()),
            |a: int| contribution_sum(self.entries(), self.player_count(), pl[a], self.entries().len()),
            pl.len(),
        );
    }
}

} // verus!
