//! Small verified key-value stores used for the engine's side tables.
//!
//! `BalanceBook` keeps the escrow balances together with a provable total,
//! so money conservation can be stated over it.  `IdMap` is a plain map
//! from numeric identities to copyable values.

use vstd::prelude::*;

verus! {

/// The map denoted by an association list; a later entry would win, but
/// the stores below keep keys unique.
pub open spec fn map_of<V>(s: Seq<(u64, V)>) -> Map<u64, V>
    decreases s.len(),
{
    if s.len() == 0 {
        Map::empty()
    } else {
        map_of(s.drop_last()).insert(s.last().0, s.last().1)
    }
}

/// Keys appear at most once.
pub open spec fn unique_keys<V>(s: Seq<(u64, V)>) -> bool {
    forall|i: int, j: int| 0 <= i < j < s.len() ==> (#[trigger] s[i]).0 != (#[trigger] s[j]).0
}

/// Sum of the values.
pub open spec fn sum_vals(s: Seq<(u64, u64)>) -> int
    decreases s.len(),
{
    if s.len() == 0 {
        0
    } else {
        sum_vals(s.drop_last()) + s.last().1
    }
}

proof fn lemma_map_of_contains<V>(s: Seq<(u64, V)>, k: u64)
    ensures
        map_of(s).contains_key(k) <==> exists|i: int| 0 <= i < s.len() && (#[trigger] s[i]).0 == k,
    decreases s.len(),
{
    if s.len() > 0 {
        lemma_map_of_contains(s.drop_last(), k);
        if s.last().0 == k {
            assert(s[s.len() - 1].0 == k);
        } else if map_of(s).contains_key(k) {
            let i = choose|i: int| 0 <= i < s.drop_last().len() && (#[trigger] s.drop_last()[i]).0
                == k;
            assert(s[i].0 == k);
        } else {
            assert forall|i: int| 0 <= i < s.len() implies (#[trigger] s[i]).0 != k by {
                if i < s.len() - 1 {
                    assert(s.drop_last()[i].0 == s[i].0);
                }
            }
        }
    }
}

proof fn lemma_map_of_get<V>(s: Seq<(u64, V)>, i: int)
    requires
        unique_keys(s),
        0 <= i < s.len(),
    ensures
        map_of(s).contains_key(s[i].0),
        map_of(s)[s[i].0] == s[i].1,
    decreases s.len(),
{
    if i == s.len() - 1 {
        assert(s.last() == s[i]);
    } else {
        assert(s.drop_last()[i] == s[i]);
        assert(unique_keys(s.drop_last())) by {
            assert forall|a: int, b: int|
                0 <= a < b < s.drop_last().len() implies (#[trigger] s.drop_last()[a]).0 != (
            #[trigger] s.drop_last()[b]).0 by {
                assert(s.drop_last()[a] == s[a] && s.drop_last()[b] == s[b]);
            }
        }
        lemma_map_of_get(s.drop_last(), i);
        assert(s.last().0 != s[i].0);
    }
}

proof fn lemma_map_of_update<V>(s: Seq<(u64, V)>, i: int, v: V)
    requires
        unique_keys(s),
        0 <= i < s.len(),
    ensures
        map_of(s.update(i, (s[i].0, v))) == map_of(s).insert(s[i].0, v),
        unique_keys(s.update(i, (s[i].0, v))),
    decreases s.len(),
{
    let s2 = s.update(i, (s[i].0, v));
    assert forall|a: int, b: int| 0 <= a < b < s2.len() implies (#[trigger] s2[a]).0 != (
    #[trigger] s2[b]).0 by {
        assert(s2[a].0 == s[a].0 && s2[b].0 == s[b].0);
    }
    if i == s.len() - 1 {
        assert(s2.drop_last() =~= s.drop_last());
        assert(s2.last() == (s[i].0, v));
        assert(map_of(s2) == map_of(s.drop_last()).insert(s[i].0, v));
        assert(map_of(s) == map_of(s.drop_last()).insert(s[i].0, s[i].1));
        assert(map_of(s.drop_last()).insert(s[i].0, v) =~= map_of(s.drop_last()).insert(
            s[i].0,
            s[i].1,
        ).insert(s[i].0, v));
    } else {
        assert(unique_keys(s.drop_last())) by {
            assert forall|a: int, b: int|
                0 <= a < b < s.drop_last().len() implies (#[trigger] s.drop_last()[a]).0 != (
            #[trigger] s.drop_last()[b]).0 by {
                assert(s.drop_last()[a] == s[a] && s.drop_last()[b] == s[b]);
            }
        }
        assert(s2.drop_last() =~= s.drop_last().update(i, (s[i].0, v)));
        assert(s.drop_last()[i] == s[i]);
        lemma_map_of_update(s.drop_last(), i, v);
        assert(s2.last() == s.last());
        assert(map_of(s2) == map_of(s.drop_last()).insert(s[i].0, v).insert(s.last().0, s.last().1));
        assert(s.last().0 != s[i].0);
        assert(map_of(s.drop_last()).insert(s[i].0, v).insert(s.last().0, s.last().1)
            =~= map_of(s.drop_last()).insert(s.last().0, s.last().1).insert(s[i].0, v));
    }
}

proof fn lemma_sum_vals_update(s: Seq<(u64, u64)>, i: int, v: u64)
    requires
        0 <= i < s.len(),
    ensures
        sum_vals(s.update(i, (s[i].0, v))) == sum_vals(s) - s[i].1 + v,
    decreases s.len(),
{
    let s2 = s.update(i, (s[i].0, v));
    if i == s.len() - 1 {
        assert(s2.drop_last() =~= s.drop_last());
        assert(s2.last() == (s[i].0, v));
    } else {
        assert(s2.drop_last() =~= s.drop_last().update(i, (s[i].0, v)));
        assert(s.drop_last()[i] == s[i]);
        lemma_sum_vals_update(s.drop_last(), i, v);
        assert(s2.last() == s.last());
    }
}

proof fn lemma_sum_vals_push(s: Seq<(u64, u64)>, k: u64, v: u64)
    ensures
        sum_vals(s.push((k, v))) == sum_vals(s) + v,
{
    assert(s.push((k, v)).drop_last() =~= s);
}

proof fn lemma_sum_vals_nonneg(s: Seq<(u64, u64)>)
    ensures
        sum_vals(s) >= 0,
    decreases s.len(),
{
    if s.len() > 0 {
        lemma_sum_vals_nonneg(s.drop_last());
    }
}

proof fn lemma_sum_vals_prefix(s: Seq<(u64, u64)>, k: int)
    requires
        0 <= k <= s.len(),
    ensures
        0 <= sum_vals(s.take(k)) <= sum_vals(s),
    decreases s.len() - k,
{
    if k == s.len() {
        assert(s.take(k) =~= s);
        lemma_sum_vals_nonneg(s);
    } else {
        lemma_sum_vals_prefix(s, k + 1);
        assert(s.take(k + 1).drop_last() =~= s.take(k));
        assert(sum_vals(s.take(k + 1)) == sum_vals(s.take(k)) + s[k].1);
        lemma_sum_vals_nonneg(s.take(k));
    }
}

proof fn lemma_sum_vals_entry(s: Seq<(u64, u64)>, i: int)
    requires
        0 <= i < s.len(),
    ensures
        s[i].1 <= sum_vals(s),
    decreases s.len(),
{
    lemma_sum_vals_nonneg(s.drop_last());
    if i < s.len() - 1 {
        assert(s.drop_last()[i] == s[i]);
        lemma_sum_vals_entry(s.drop_last(), i);
    }
}

/// Escrow balances with a provable total.  Identities absent from the book
/// hold a zero balance.
pub struct BalanceBook {
    entries: Vec<(u64, u64)>,
}

impl BalanceBook {
    /// Keys are unique, so each identity has one balance.
    pub closed spec fn wf(&self) -> bool {
        unique_keys(self.entries@)
    }

    /// The balances as a map.
    pub closed spec fn view_map(&self) -> Map<u64, u64> {
        map_of(self.entries@)
    }

    /// The balance held for an identity; zero when none is recorded.
    pub open spec fn balance_of(&self, id: u64) -> u64 {
        if self.view_map().contains_key(id) {
            self.view_map()[id]
        } else {
            0
        }
    }

    /// The sum of all balances.
    pub closed spec fn total(&self) -> int {
        sum_vals(self.entries@)
    }

    /// An empty book.
    pub fn new() -> (r: BalanceBook)
        ensures
            r.wf(),
            r.total() == 0,
            forall|id: u64| r.balance_of(id) == 0,
    {
        let r = BalanceBook { entries: Vec::new() };
        proof {
            assert forall|id: u64| r.balance_of(id) == 0 by {
                lemma_map_of_contains(r.entries@, id);
            }
        }
        r
    }

    /// Each balance stays below the total.
    pub proof fn lemma_balance_le_total(&self, id: u64)
        requires
            self.wf(),
        ensures
            self.balance_of(id) <= self.total(),
            self.total() >= 0,
    {
        lemma_sum_vals_nonneg(self.entries@);
        lemma_map_of_contains(self.entries@, id);
        if self.view_map().contains_key(id) {
            let i = choose|i: int|
                0 <= i < self.entries@.len() && (#[trigger] self.entries@[i]).0 == id;
            lemma_map_of_get(self.entries@, i);
            lemma_sum_vals_entry(self.entries@, i);
        }
    }

    /// Finds the entry index of an identity.
    fn find(&self, id: u64) -> (r: Option<usize>)
        requires
            self.wf(),
        ensures
            match r {
                Some(i) => i < self.entries@.len() && self.entries@[i as int].0 == id,
                None => forall|i: int|
                    0 <= i < self.entries@.len() ==> (#[trigger] self.entries@[i]).0 != id,
            },
    {
        let mut i: usize = 0;
        while i < self.entries.len()
            invariant
                i <= self.entries@.len(),
                forall|m: int| 0 <= m < i ==> (#[trigger] self.entries@[m]).0 != id,
            decreases self.entries@.len() - i,
        {
            if self.entries[i].0 == id {
                return Some(i);
            }
            i = i + 1;
        }
        None
    }

    /// Reads a balance.
    pub fn get(&self, id: u64) -> (r: u64)
        requires
            self.wf(),
        ensures
            r == self.balance_of(id),
    {
        proof {
            lemma_map_of_contains(self.entries@, id);
        }
        match self.find(id) {
            Some(i) => {
                proof {
                    lemma_map_of_get(self.entries@, i as int);
                }
                self.entries[i].1
            },
            None => 0,
        }
    }

    /// The sum of every balance in the book.
    pub fn total_value(&self) -> (r: u64)
        requires
            self.wf(),
            self.total() <= u64::MAX,
        ensures
            r as int == self.total(),
    {
        let mut total: u64 = 0;
        let mut i: usize = 0;
        proof {
            assert(self.entries@.take(0) =~= Seq::<(u64, u64)>::empty());
        }
        while i < self.entries.len()
            invariant
                i <= self.entries@.len(),
                total as int == sum_vals(self.entries@.take(i as int)),
                sum_vals(self.entries@) <= u64::MAX,
            decreases self.entries@.len() - i,
        {
            proof {
                assert(self.entries@.take(i + 1).drop_last() =~= self.entries@.take(i as int));
                assert(self.entries@.take(i + 1).last() == self.entries@[i as int]);
                lemma_sum_vals_prefix(self.entries@, i + 1);
                lemma_sum_vals_nonneg(self.entries@.take(i as int));
            }
            total = total + self.entries[i].1;
            i = i + 1;
        }
        proof {
            assert(self.entries@.take(self.entries@.len() as int) =~= self.entries@);
        }
        total
    }

    /// Adds to a balance.  The caller keeps the grand total within range.
    pub fn credit(&mut self, id: u64, amount: u64)
        requires
            old(self).wf(),
            old(self).total() + amount <= u64::MAX,
        ensures
            final(self).wf(),
            final(self).balance_of(id) == old(self).balance_of(id) + amount,
            forall|o: u64| o != id ==> final(self).balance_of(o) == old(self).balance_of(o),
            final(self).total() == old(self).total() + amount,
    {
        proof {
            lemma_map_of_contains(self.entries@, id);
            lemma_sum_vals_nonneg(self.entries@);
        }
        let ghost before = self.entries@;
        match self.find(id) {
            Some(i) => {
                proof {
                    lemma_map_of_get(before, i as int);
                    lemma_sum_vals_entry(before, i as int);
                }
                let cur = self.entries[i].1;
                self.entries.set(i, (id, cur + amount));
                proof {
                    assert(self.entries@ =~= before.update(i as int, (before[i as int].0, (cur
                        + amount) as u64)));
                    lemma_map_of_update(before, i as int, (cur + amount) as u64);
                    lemma_sum_vals_update(before, i as int, (cur + amount) as u64);
                    assert forall|o: u64| o != id implies final(self).balance_of(o) == old(
                        self,
                    ).balance_of(o) by {
                        lemma_map_of_contains(before, o);
                        lemma_map_of_contains(self.entries@, o);
                    }
                }
            },
            None => {
                self.entries.push((id, amount));
                proof {
                    assert(self.entries@ =~= before.push((id, amount)));
                    assert(self.entries@.drop_last() =~= before);
                    lemma_sum_vals_push(before, id, amount);
                    assert(map_of(self.entries@) == map_of(before).insert(id, amount));
                    assert forall|a: int, b: int|
                        0 <= a < b < self.entries@.len() implies (#[trigger] self.entries@[a]).0
                        != (#[trigger] self.entries@[b]).0 by {
                        if b < self.entries@.len() - 1 {
                            assert(self.entries@[a] == before[a] && self.entries@[b] == before[b]);
                        } else {
                            assert(self.entries@[a] == before[a]);
                        }
                    }
                    assert forall|o: u64| o != id implies final(self).balance_of(o) == old(
                        self,
                    ).balance_of(o) by {
                        lemma_map_of_contains(before, o);
                        lemma_map_of_contains(self.entries@, o);
                    }
                }
            },
        }
    }

    /// Takes from a balance that holds at least the amount.
    pub fn debit(&mut self, id: u64, amount: u64)
        requires
            old(self).wf(),
            amount <= old(self).balance_of(id),
        ensures
            final(self).wf(),
            final(self).balance_of(id) == old(self).balance_of(id) - amount,
            forall|o: u64| o != id ==> final(self).balance_of(o) == old(self).balance_of(o),
            final(self).total() == old(self).total() - amount,
    {
        proof {
            lemma_map_of_contains(self.entries@, id);
        }
        let ghost before = self.entries@;
        match self.find(id) {
            Some(i) => {
                proof {
                    lemma_map_of_get(before, i as int);
                    lemma_sum_vals_entry(before, i as int);
                    lemma_sum_vals_nonneg(before);
                }
                let cur = self.entries[i].1;
                self.entries.set(i, (id, cur - amount));
                proof {
                    assert(self.entries@ =~= before.update(i as int, (before[i as int].0, (cur
                        - amount) as u64)));
                    lemma_map_of_update(before, i as int, (cur - amount) as u64);
                    lemma_sum_vals_update(before, i as int, (cur - amount) as u64);
                    assert forall|o: u64| o != id implies final(self).balance_of(o) == old(
                        self,
                    ).balance_of(o) by {
                        lemma_map_of_contains(before, o);
                        lemma_map_of_contains(self.entries@, o);
                    }
                }
            },
            None => {
                // A zero balance admits only a zero debit, which changes
                // nothing.
                proof {
                    assert(amount == 0);
                }
            },
        }
    }
}

/// A map from numeric identities to copyable values.
pub struct IdMap<V> {
    entries: Vec<(u64, V)>,
}

impl<V: Copy> IdMap<V> {
    pub closed spec fn wf(&self) -> bool {
        unique_keys(self.entries@)
    }

    /// The entries as a map.
    pub closed spec fn view_map(&self) -> Map<u64, V> {
        map_of(self.entries@)
    }

    /// An empty map.
    pub fn new() -> (r: IdMap<V>)
        ensures
            r.wf(),
            r.view_map() == Map::<u64, V>::empty(),
    {
        IdMap { entries: Vec::new() }
    }

    fn find(&self, id: u64) -> (r: Option<usize>)
        requires
            self.wf(),
        ensures
            match r {
                Some(i) => i < self.entries@.len() && self.entries@[i as int].0 == id,
                None => forall|i: int|
                    0 <= i < self.entries@.len() ==> (#[trigger] self.entries@[i]).0 != id,
            },
    {
        let mut i: usize = 0;
        while i < self.entries.len()
            invariant
                i <= self.entries@.len(),
                forall|m: int| 0 <= m < i ==> (#[trigger] self.entries@[m]).0 != id,
            decreases self.entries@.len() - i,
        {
            if self.entries[i].0 == id {
                return Some(i);
            }
            i = i + 1;
        }
        None
    }

    /// Is the identity present?
    /// The entries, key and value pairs with each key once, so a caller
    /// can carry the map across a code upgrade.
    pub fn to_pairs(&self) -> (r: Vec<(u64, V)>)
        requires
            self.wf(),
        ensures
            forall|m: int|
                0 <= m < r@.len() ==> self.view_map().contains_key((#[trigger] r@[m]).0)
                    && self.view_map()[r@[m].0] == r@[m].1,
            forall|k: u64|
                self.view_map().contains_key(k) ==> exists|m: int|
                    0 <= m < r@.len() && (#[trigger] r@[m]).0 == k,
    {
        let mut out: Vec<(u64, V)> = Vec::new();
        let mut i: usize = 0;
        while i < self.entries.len()
            invariant
                i <= self.entries@.len(),
                self.wf(),
                out@.len() == i,
                forall|m: int| 0 <= m < i ==> #[trigger] out@[m] == self.entries@[m],
            decreases self.entries@.len() - i,
        {
            out.push((self.entries[i].0, self.entries[i].1));
            i = i + 1;
        }
        proof {
            assert forall|m: int|
                0 <= m < out@.len() implies self.view_map().contains_key((#[trigger] out@[m]).0)
                && self.view_map()[out@[m].0] == out@[m].1 by {
                lemma_map_of_get(self.entries@, m);
            }
            assert forall|k: u64| self.view_map().contains_key(k) implies exists|m: int|
                0 <= m < out@.len() && (#[trigger] out@[m]).0 == k by {
                lemma_map_of_contains(self.entries@, k);
                let m = choose|m: int|
                    0 <= m < self.entries@.len() && (#[trigger] self.entries@[m]).0 == k;
                assert(out@[m].0 == k);
            }
        }
        out
    }

    pub fn contains(&self, id: u64) -> (r: bool)
        requires
            self.wf(),
        ensures
            r == self.view_map().contains_key(id),
    {
        proof {
            lemma_map_of_contains(self.entries@, id);
        }
        match self.find(id) {
            Some(i) => {
                proof {
                    lemma_map_of_get(self.entries@, i as int);
                }
                true
            },
            None => false,
        }
    }

    /// Reads a value.
    pub fn get(&self, id: u64) -> (r: Option<V>)
        requires
            self.wf(),
        ensures
            match r {
                Some(v) => self.view_map().contains_key(id) && self.view_map()[id] == v,
                None => !self.view_map().contains_key(id),
            },
    {
        proof {
            lemma_map_of_contains(self.entries@, id);
        }
        match self.find(id) {
            Some(i) => {
                proof {
                    lemma_map_of_get(self.entries@, i as int);
                }
                Some(self.entries[i].1)
            },
            None => None,
        }
    }

    /// Writes a value, replacing any previous one.
    pub fn insert(&mut self, id: u64, v: V)
        requires
            old(self).wf(),
        ensures
            final(self).wf(),
            final(self).view_map() == old(self).view_map().insert(id, v),
    {
        proof {
            lemma_map_of_contains(self.entries@, id);
        }
        let ghost before = self.entries@;
        match self.find(id) {
            Some(i) => {
                self.entries.set(i, (id, v));
                proof {
                    assert(self.entries@ =~= before.update(i as int, (before[i as int].0, v)));
                    lemma_map_of_update(before, i as int, v);
                }
            },
            None => {
                self.entries.push((id, v));
                proof {
                    assert(self.entries@.drop_last() =~= before);
                    assert(map_of(self.entries@) == map_of(before).insert(id, v));
                    assert forall|a: int, b: int|
                        0 <= a < b < self.entries@.len() implies (#[trigger] self.entries@[a]).0
                        != (#[trigger] self.entries@[b]).0 by {
                        if b < self.entries@.len() - 1 {
                            assert(self.entries@[a] == before[a] && self.entries@[b] == before[b]);
                        } else {
                            assert(self.entries@[a] == before[a]);
                        }
                    }
                }
            },
        }
    }

    /// Removes an identity, if present.
    pub fn remove(&mut self, id: u64)
        requires
            old(self).wf(),
        ensures
            final(self).wf(),
            final(self).view_map() == old(self).view_map().remove(id),
    {
        proof {
            lemma_map_of_contains(self.entries@, id);
        }
        let ghost before = self.entries@;
        match self.find(id) {
            Some(i) => {
                let _ = self.entries.remove(i);
                proof {
                    assert(self.entries@ =~= before.remove(i as int));
                    lemma_map_of_remove(before, i as int);
                }
            },
            None => {
                proof {
                    assert(map_of(before).remove(id) =~= map_of(before));
                }
            },
        }
    }
}

proof fn lemma_map_of_remove<V>(s: Seq<(u64, V)>, i: int)
    requires
        unique_keys(s),
        0 <= i < s.len(),
    ensures
        map_of(s.remove(i)) == map_of(s).remove(s[i].0),
        unique_keys(s.remove(i)),
    decreases s.len(),
{
    let s2 = s.remove(i);
    assert forall|a: int, b: int| 0 <= a < b < s2.len() implies (#[trigger] s2[a]).0 != (
    #[trigger] s2[b]).0 by {
        let a0: int = if a < i {
            a
        } else {
            a + 1
        };
        let b0: int = if b < i {
            b
        } else {
            b + 1
        };
        assert(s2[a] == s[a0] && s2[b] == s[b0]);
    }
    if i == s.len() - 1 {
        assert(s2 =~= s.drop_last());
        assert(!map_of(s.drop_last()).contains_key(s[i].0)) by {
            lemma_map_of_contains(s.drop_last(), s[i].0);
            if map_of(s.drop_last()).contains_key(s[i].0) {
                let w = choose|w: int|
                    0 <= w < s.drop_last().len() && (#[trigger] s.drop_last()[w]).0 == s[i].0;
                assert(s[w].0 == s[i].0);
            }
        }
        assert(map_of(s.drop_last()) =~= map_of(s).remove(s[i].0));
    } else {
        assert(unique_keys(s.drop_last())) by {
            assert forall|a: int, b: int|
                0 <= a < b < s.drop_last().len() implies (#[trigger] s.drop_last()[a]).0 != (
            #[trigger] s.drop_last()[b]).0 by {
                assert(s.drop_last()[a] == s[a] && s.drop_last()[b] == s[b]);
            }
        }
        assert(s.drop_last()[i] == s[i]);
        lemma_map_of_remove(s.drop_last(), i);
        assert(s2.drop_last() =~= s.drop_last().remove(i));
        assert(s2.last() == s.last());
        assert(map_of(s2) == map_of(s.drop_last()).remove(s[i].0).insert(s.last().0, s.last().1));
        assert(s.last().0 != s[i].0);
        assert(map_of(s.drop_last()).remove(s[i].0).insert(s.last().0, s.last().1) =~= map_of(
            s.drop_last(),
        ).insert(s.last().0, s.last().1).remove(s[i].0));
    }
}

} // verus!
