//! The points ledger: a mapping from user identity to point total.
//!
//! The ledger is modelled as a `Map<u64, i64>`; a user absent from the map
//! has a total of zero.  The executable representation is a vector of
//! `(user, total)` pairs with pairwise-distinct users.

use vstd::prelude::*;

verus! {

/// Point total of `u` under the model map `m`: absence means zero.
pub open spec fn total_of(m: Map<u64, i64>, u: u64) -> int {
    if m.dom().contains(u) {
        m[u] as int
    } else {
        0
    }
}

/// The model map denoted by a sequence of `(user, total)` entries;
/// later entries win, though a well-formed ledger never repeats a user.
pub open spec fn entries_map(s: Seq<(u64, i64)>) -> Map<u64, i64>
    decreases s.len(),
{
    if s.len() == 0 {
        Map::empty()
    } else {
        entries_map(s.drop_last()).insert(s.last().0, s.last().1)
    }
}

/// Entry sequence with pairwise-distinct users.
pub open spec fn unique_users(s: Seq<(u64, i64)>) -> bool {
    forall|i: int, j: int| 0 <= i < j < s.len() ==> s[i].0 != s[j].0
}

/// The effect of one successful grant on the model map.
pub open spec fn spec_add(m: Map<u64, i64>, u: u64, amount: int) -> Map<u64, i64> {
    m.insert(u, (total_of(m, u) + amount) as i64)
}

/// The full mapping of user to point total.
pub struct PointsLedger {
    pub entries: Vec<(u64, i64)>,
}

impl View for PointsLedger {
    type V = Map<u64, i64>;

    open spec fn view(&self) -> Map<u64, i64> {
        entries_map(self.entries@)
    }
}

/// The domain of `entries_map(s)` is exactly the set of users appearing in
/// `s`, and with distinct users each entry gives its user's total.
pub proof fn lemma_entries_map_index(s: Seq<(u64, i64)>, i: int)
    requires
        unique_users(s),
        0 <= i < s.len(),
    ensures
        entries_map(s).dom().contains(s[i].0),
        entries_map(s)[s[i].0] == s[i].1,
    decreases s.len(),
{
    if i == s.len() - 1 {
    } else {
        lemma_entries_map_index(s.drop_last(), i);
        assert(s.drop_last()[i] == s[i]);
        assert(s[s.len() - 1].0 != s[i].0);
    }
}

/// A user appearing in no entry of `s` is absent from `entries_map(s)`.
pub proof fn lemma_entries_map_absent(s: Seq<(u64, i64)>, u: u64)
    requires
        forall|i: int| 0 <= i < s.len() ==> s[i].0 != u,
    ensures
        !entries_map(s).dom().contains(u),
    decreases s.len(),
{
    if s.len() > 0 {
        lemma_entries_map_absent(s.drop_last(), u);
    }
}

/// Updating the entry of user `u` in place updates the model map at `u`.
proof fn lemma_entries_map_update(s: Seq<(u64, i64)>, i: int, v: i64)
    requires
        unique_users(s),
        0 <= i < s.len(),
    ensures
        entries_map(s.update(i, (s[i].0, v))) == entries_map(s).insert(s[i].0, v),
    decreases s.len(),
{
    let t = s.update(i, (s[i].0, v));
    if i == s.len() - 1 {
        assert(t.drop_last() =~= s.drop_last());
        assert(entries_map(t) == entries_map(s.drop_last()).insert(s[i].0, v));
        assert(entries_map(s).insert(s[i].0, v) =~= entries_map(s.drop_last()).insert(s[i].0, v));
    } else {
        lemma_entries_map_update(s.drop_last(), i, v);
        assert(t.drop_last() =~= s.drop_last().update(i, (s[i].0, v)));
        assert(t.last() == s.last());
        assert(s[s.len() - 1].0 != s[i].0);
        assert(entries_map(s).insert(s[i].0, v) =~= entries_map(s.drop_last()).insert(
            s[i].0,
            v,
        ).insert(s.last().0, s.last().1));
        assert(entries_map(t) =~= entries_map(s).insert(s[i].0, v));
    }
}

impl PointsLedger {
    /// Well-formed: no user appears twice.
    pub open spec fn wf(&self) -> bool {
        unique_users(self.entries@)
    }

    /// The empty ledger.
    pub fn new() -> (l: PointsLedger)
        ensures
            l.wf(),
            l@ == Map::<u64, i64>::empty(),
            l.entries@.len() == 0,
    {
        PointsLedger { entries: Vec::new() }
    }

    /// Number of users with a recorded total.
    pub fn num_entries(&self) -> (n: usize)
        ensures
            n == self.entries@.len(),
    {
        self.entries.len()
    }

    /// The entry at position `i`, as a `(user, total)` pair.
    pub fn entry_at(&self, i: usize) -> (e: (u64, i64))
        requires
            i < self.entries@.len(),
        ensures
            e == self.entries@[i as int],
    {
        (self.entries[i].0, self.entries[i].1)
    }

    /// Position of the entry for `target`, if one exists.
    fn find(&self, target: u64) -> (r: Option<usize>)
        requires
            self.wf(),
        ensures
            match r {
                Some(i) => i < self.entries@.len() && self.entries@[i as int].0 == target,
                None => forall|i: int| 0 <= i < self.entries@.len() ==> self.entries@[i].0 != target,
            },
    {
        let n = self.entries.len();
        let mut i: usize = 0;
        while i < n
            invariant
                n == self.entries@.len(),
                i <= n,
                forall|k: int| 0 <= k < i ==> self.entries@[k].0 != target,
            decreases n - i,
        {
            if self.entries[i].0 == target {
                return Some(i);
            }
            i = i + 1;
        }
        None
    }

    /// Current total of `target`; zero for a user never granted points.
    pub fn get_points(&self, target: u64) -> (r: i64)
        requires
            self.wf(),
        ensures
            r == total_of(self@, target),
    {
        match self.find(target) {
            Some(i) => {
                proof {
                    lemma_entries_map_index(self.entries@, i as int);
                }
                self.entries[i].1
            },
            None => {
                proof {
                    lemma_entries_map_absent(self.entries@, target);
                }
                0
            },
        }
    }

    /// Atomically add `amount` to `target`'s total (zero if absent), store
    /// the result and return the new total.
    ///
    /// The bounds in `requires` only keep the new total representable as a
    /// signed 64-bit integer; the ledger itself places no demand on the sign
    /// of `amount`.
    pub fn add_points(&mut self, target: u64, amount: i64) -> (r: i64)
        requires
            old(self).wf(),
            i64::MIN <= total_of(old(self)@, target) + amount <= i64::MAX,
        ensures
            final(self).wf(),
            final(self)@ == spec_add(old(self)@, target, amount as int),
            r == total_of(old(self)@, target) + amount,
            total_of(final(self)@, target) == r,
    {
        match self.find(target) {
            Some(i) => {
                proof {
                    lemma_entries_map_index(self.entries@, i as int);
                }
                let new_total = self.entries[i].1 + amount;
                proof {
                    lemma_entries_map_update(self.entries@, i as int, new_total);
                }
                self.entries.set(i, (target, new_total));
                proof {
                    lemma_entries_map_index(self.entries@, i as int);
                }
                new_total
            },
            None => {
                proof {
                    lemma_entries_map_absent(self.entries@, target);
                }
                let new_total = amount;
                self.entries.push((target, new_total));
                proof {
                    assert(self.entries@.drop_last() =~= old(self).entries@);
                    assert(self@ =~= spec_add(old(self)@, target, amount as int));
                    lemma_entries_map_index(self.entries@, self.entries@.len() - 1);
                }
                new_total
            },
        }
    }

    /// A consistent point-in-time copy: same entries, same model map.
    pub fn snapshot(&self) -> (l: PointsLedger)
        ensures
            l.entries@ == self.entries@,
            l@ == self@,
            l.wf() == self.wf(),
    {
        let n = self.entries.len();
        let mut copy: Vec<(u64, i64)> = Vec::new();
        let mut i: usize = 0;
        while i < n
            invariant
                n == self.entries@.len(),
                i <= n,
                copy@ =~= self.entries@.subrange(0, i as int),
            decreases n - i,
        {
            copy.push((self.entries[i].0, self.entries[i].1));
            i = i + 1;
        }
        proof {
            assert(copy@ =~= self.entries@);
        }
        PointsLedger { entries: copy }
    }
}

/// Granting points and then reading the target's total yields exactly the
/// previous total plus the granted amount: commands accumulate.
pub proof fn lemma_add_then_read(m: Map<u64, i64>, u: u64, amount: int)
    requires
        i64::MIN <= total_of(m, u) + amount <= i64::MAX,
    ensures
        total_of(spec_add(m, u, amount), u) == total_of(m, u) + amount,
{
}

/// Two grants to the same user commute, and together raise the user's total
/// by exactly the sum of the two amounts: under a lock that serialises
/// writers, any interleaving of the two grants ends in the same ledger.
pub proof fn lemma_adds_commute(m: Map<u64, i64>, u: u64, a: int, b: int)
    requires
        i64::MIN <= total_of(m, u) + a <= i64::MAX,
        i64::MIN <= total_of(m, u) + b <= i64::MAX,
        i64::MIN <= total_of(m, u) + a + b <= i64::MAX,
    ensures
        spec_add(spec_add(m, u, a), u, b) == spec_add(spec_add(m, u, b), u, a),
        total_of(spec_add(spec_add(m, u, a), u, b), u) == total_of(m, u) + a + b,
{
    assert(spec_add(spec_add(m, u, a), u, b) =~= spec_add(spec_add(m, u, b), u, a));
}

/// Two grants to distinct users commute: order across different targets is
/// irrelevant to the final ledger.
pub proof fn lemma_adds_distinct_commute(m: Map<u64, i64>, u: u64, a: int, v: u64, b: int)
    requires
        u != v,
    ensures
        spec_add(spec_add(m, u, a), v, b) == spec_add(spec_add(m, v, b), u, a),
{
    assert(spec_add(spec_add(m, u, a), v, b) =~= spec_add(spec_add(m, v, b), u, a));
}

} // verus!
