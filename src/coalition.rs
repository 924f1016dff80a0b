//! Coalitions: canonical, order-independent sets of player identifiers.

use vstd::prelude::*;

verus! {

/// Each element is smaller than every element after it.
pub open spec fn strictly_sorted(s: Seq<u64>) -> bool {
    forall|i: int, j: int| 0 <= i < j < s.len() ==> s[i] < s[j]
}

/// Two strictly sorted sequences agree on their first `k` positions when they
/// hold the same elements.
proof fn lemma_sorted_prefix_agrees(a: Seq<u64>, b: Seq<u64>, k: int)
    requires
        strictly_sorted(a),
        strictly_sorted(b),
        a.to_set() == b.to_set(),
        0 <= k <= a.len(),
        k <= b.len(),
    ensures
        forall|j: int| 0 <= j < k ==> a[j] == b[j],
    decreases k,
{
    if k > 0 {
        lemma_sorted_prefix_agrees(a, b, k - 1);
        let last = k - 1;
        assert(a.to_set().contains(a[last]));
        assert(b.contains(a[last]));
        let m = choose|m: int| 0 <= m < b.len() && b[m] == a[last];
        if m < last {
            assert(a[m] == b[m]);
        }
        assert(b.to_set().contains(b[last]));
        assert(a.contains(b[last]));
        let m2 = choose|m2: int| 0 <= m2 < a.len() && a[m2] == b[last];
        if m2 < last {
            assert(a[m2] == b[m2]);
        }
    }
}

/// A strictly sorted sequence is determined by the set of its elements.
pub proof fn lemma_sorted_seq_unique(a: Seq<u64>, b: Seq<u64>)
    requires
        strictly_sorted(a),
        strictly_sorted(b),
        a.to_set() == b.to_set(),
    ensures
        a == b,
{
    if a.len() < b.len() {
        lemma_sorted_prefix_agrees(a, b, a.len() as int);
        let l = a.len() as int;
        assert(b.to_set().contains(b[l]));
        assert(a.contains(b[l]));
        let m = choose|m: int| 0 <= m < a.len() && a[m] == b[l];
        assert(a[m] == b[m]);
    } else if b.len() < a.len() {
        lemma_sorted_prefix_agrees(a, b, b.len() as int);
        let l = b.len() as int;
        assert(a.to_set().contains(a[l]));
        assert(b.contains(a[l]));
        let m = choose|m: int| 0 <= m < b.len() && b[m] == a[l];
        assert(a[m] == b[m]);
    } else {
        lemma_sorted_prefix_agrees(a, b, a.len() as int);
        assert(a =~= b);
    }
}

/// Appending an element adds it to the set of elements.
pub proof fn lemma_push_to_set(s: Seq<u64>, x: u64)
    ensures
        s.push(x).to_set() == s.to_set().insert(x),
{
    assert forall|y: u64| s.contains(y) implies s.push(x).contains(y) by {
        let k = choose|k: int| 0 <= k < s.len() && s[k] == y;
        assert(s.push(x)[k] == y);
    }
    assert(s.push(x)[s.len() as int] == x);
    assert forall|y: u64| s.push(x).contains(y) implies s.contains(y) || y == x by {
        let k = choose|k: int| 0 <= k < s.len() + 1 && s.push(x)[k] == y;
        if k < s.len() {
            assert(s[k] == y);
        }
    }
    assert(s.push(x).to_set() =~= s.to_set().insert(x));
}

/// Inserts `x` at its place in a strictly sorted vector, unless it is there.
fn insert_sorted(v: &mut Vec<u64>, x: u64)
    requires
        strictly_sorted(old(v)@),
    ensures
        strictly_sorted(final(v)@),
        final(v)@.to_set() == old(v)@.to_set().insert(x),
{
    let mut p: usize = 0;
    while p < v.len() && v[p] < x
        invariant
            0 <= p <= v.len(),
            forall|j: int| 0 <= j < p ==> v@[j] < x,
        decreases v.len() - p,
    {
        p = p + 1;
    }
    if p < v.len() && v[p] == x {
        assert(v@.to_set() =~= v@.to_set().insert(x)) by {
            assert(v@.contains(x));
        }
    } else {
        let ghost before = v@;
        v.insert(p, x);
        assert forall|i: int, j: int| 0 <= i < j < v@.len() implies v@[i] < v@[j] by {
            if j < p {
                assert(v@[i] == before[i] && v@[j] == before[j]);
            } else if j == p {
                assert(v@[i] == before[i]);
            } else if i < p {
                assert(v@[j] == before[j - 1]);
                assert(v@[i] == before[i]);
                assert(before[p as int] >= x);
                if j - 1 > p {
                    assert(before[p as int] < before[j - 1]);
                }
            } else if i == p {
                assert(v@[j] == before[j - 1]);
                assert(before[p as int] > x);
                if j - 1 > p {
                    assert(before[p as int] < before[j - 1]);
                }
            } else {
                assert(v@[i] == before[i - 1] && v@[j] == before[j - 1]);
            }
        }
        assert(v@.to_set() =~= before.to_set().insert(x)) by {
            assert forall|y: u64| before.contains(y) implies v@.contains(y) by {
                let k = choose|k: int| 0 <= k < before.len() && before[k] == y;
                if k < p {
                    assert(v@[k] == y);
                } else {
                    assert(v@[k + 1] == y);
                }
            }
            assert(v@[p as int] == x);
            assert forall|y: u64| v@.contains(y) implies before.contains(y) || y == x by {
                let k = choose|k: int| 0 <= k < v@.len() && v@[k] == y;
                if k < p {
                    assert(before[k] == y);
                } else if k > p {
                    assert(before[k - 1] == y);
                }
            }
        }
    }
}

/// A set of players, held as its members in increasing order without
/// repetition, so that the order in which it was built does not matter.
#[derive(Debug, Clone, Eq, Hash)]
pub struct Coalition {
    members: Vec<u64>,
}

impl View for Coalition {
    type V = Set<u64>;

    closed spec fn view(&self) -> Set<u64> {
        self.members@.to_set()
    }
}

impl Coalition {
    /// The members in the order in which they are held.
    pub closed spec fn elements(&self) -> Seq<u64> {
        self.members@
    }

    /// The members are held in increasing order, without repetition.
    pub closed spec fn wf(&self) -> bool {
        strictly_sorted(self.members@)
    }

    /// The coalition of the given players; repeated identifiers count once
    /// and their order is irrelevant.
    pub fn new(members: Vec<u64>) -> (r: Coalition)
        ensures
            r.wf(),
            r@ == members@.to_set(),
    {
        let mut sorted: Vec<u64> = Vec::new();
        let mut i: usize = 0;
        assert(sorted@.to_set() =~= members@.subrange(0, 0).to_set());
        while i < members.len()
            invariant
                0 <= i <= members.len(),
                strictly_sorted(sorted@),
                sorted@.to_set() == members@.subrange(0, i as int).to_set(),
            decreases members.len() - i,
        {
            insert_sorted(&mut sorted, members[i]);
            assert(members@.subrange(0, i + 1) =~= members@.subrange(0, i as int).push(
                members@[i as int],
            ));
            proof {
                lemma_push_to_set(members@.subrange(0, i as int), members@[i as int]);
            }
            i = i + 1;
        }
        assert(members@.subrange(0, members@.len() as int) =~= members@);
        Coalition { members: sorted }
    }

    /// The number of members.
    pub fn size(&self) -> (r: usize)
        requires
            self.wf(),
        ensures
            r == self@.len(),
    {
        proof {
            assert(self.members@.no_duplicates());
            self.members@.unique_seq_to_set();
        }
        self.members.len()
    }

    /// Whether `player` is a member.
    pub fn contains(&self, player: u64) -> (r: bool)
        ensures
            r == self@.contains(player),
    {
        let mut i: usize = 0;
        while i < self.members.len()
            invariant
                0 <= i <= self.members.len(),
                forall|j: int| 0 <= j < i ==> self.members@[j] != player,
            decreases self.members.len() - i,
        {
            if self.members[i] == player {
                assert(self.members@.contains(player));
                return true;
            }
            i = i + 1;
        }
        false
    }

    /// The coalition without `player`; the same coalition when `player` is
    /// not a member.
    pub fn subtract(&self, player: u64) -> (r: Coalition)
        requires
            self.wf(),
        ensures
            r.wf(),
            r@ == self@.remove(player),
    {
        let mut rest: Vec<u64> = Vec::new();
        let mut i: usize = 0;
        assert(rest@.to_set() =~= self.members@.subrange(0, 0).to_set().remove(player));
        while i < self.members.len()
            invariant
                0 <= i <= self.members.len(),
                self.wf(),
                strictly_sorted(rest@),
                rest@.to_set() == self.members@.subrange(0, i as int).to_set().remove(player),
            decreases self.members.len() - i,
        {
            let m = self.members[i];
            let ghost prefix = self.members@.subrange(0, i as int);
            assert(self.members@.subrange(0, i + 1) =~= prefix.push(m));
            proof {
                lemma_push_to_set(prefix, m);
            }
            if m != player {
                let ghost before = rest@;
                assert forall|k: int| 0 <= k < before.len() implies before[k] < m by {
                    assert(before.to_set().contains(before[k]));
                    assert(prefix.contains(before[k]));
                    let j = choose|j: int| 0 <= j < prefix.len() && prefix[j] == before[k];
                    assert(self.members@[j] == before[k]);
                }
                rest.push(m);
                proof {
                    lemma_push_to_set(before, m);
                }
                assert(rest@.to_set() =~= self.members@.subrange(0, i + 1).to_set().remove(
                    player,
                ));
            } else {
                assert(rest@.to_set() =~= self.members@.subrange(0, i + 1).to_set().remove(
                    player,
                ));
            }
            i = i + 1;
        }
        assert(self.members@.subrange(0, self.members@.len() as int) =~= self.members@);
        Coalition { members: rest }
    }

    /// The members in increasing order.
    pub fn members(&self) -> (r: Vec<u64>)
        ensures
            r@ == self.elements(),
    {
        let mut out: Vec<u64> = Vec::new();
        let mut i: usize = 0;
        while i < self.members.len()
            invariant
                0 <= i <= self.members.len(),
                out@ == self.members@.subrange(0, i as int),
            decreases self.members.len() - i,
        {
            out.push(self.members[i]);
            assert(out@ =~= self.members@.subrange(0, i + 1));
            i = i + 1;
        }
        assert(out@ =~= self.members@);
        out
    }
}

impl PartialEq for Coalition {
    fn eq(&self, other: &Coalition) -> (r: bool)
        ensures
            r == (self.elements() == other.elements()),
    {
        if self.members.len() != other.members.len() {
            return false;
        }
        let mut i: usize = 0;
        while i < self.members.len()
            invariant
                0 <= i <= self.members.len(),
                self.members.len() == other.members.len(),
                forall|j: int| 0 <= j < i ==> self.members@[j] == other.members@[j],
            decreases self.members.len() - i,
        {
            if self.members[i] != other.members[i] {
                return false;
            }
            i = i + 1;
        }
        assert(self.members@ =~= other.members@);
        true
    }
}

impl vstd::std_specs::cmp::PartialEqSpecImpl for Coalition {
    open spec fn obeys_eq_spec() -> bool {
        true
    }

    open spec fn eq_spec(&self, other: &Coalition) -> bool {
        self.elements() == other.elements()
    }
}

/// Coalitions with the same members hold the same canonical contents, however
/// they were built: they compare equal and hash identically.
pub proof fn lemma_canonical_equality(c1: Coalition, c2: Coalition)
    requires
        c1.wf(),
        c2.wf(),
        c1@ == c2@,
    ensures
        c1.elements() == c2.elements(),
{
    lemma_sorted_seq_unique(c1.members@, c2.members@);
}

/// The members of a coalition form a finite set.
pub proof fn lemma_members_finite(c: Coalition)
    ensures
        c@.finite(),
{
    vstd::seq_lib::seq_to_set_is_finite(c.members@);
}

/// Two well-formed coalitions have the same canonical contents exactly when
/// they have the same members.
pub proof fn lemma_elements_match_members(c1: Coalition, c2: Coalition)
    requires
        c1.wf(),
        c2.wf(),
    ensures
        (c1.elements() == c2.elements()) == (c1@ == c2@),
{
    if c1@ == c2@ {
        lemma_canonical_equality(c1, c2);
    }
}

} // verus!
