//! Ordered association containers keyed by [`crate::TypeID`].
//!
//! `AssocVec` is a map from ids to values, kept as a vector of pairs with
//! strictly increasing keys, so that iteration by index is deterministic and
//! follows ascending key order. `IdSet` is the corresponding set of ids.

use vstd::prelude::*;

verus! {

/// The map described by a sequence of key/value pairs; a later pair for the
/// same key overrides an earlier one.
pub open spec fn map_of<V>(s: Seq<(i64, V)>) -> Map<i64, V>
    decreases s.len(),
{
    if s.len() == 0 {
        Map::empty()
    } else {
        map_of(s.drop_last()).insert(s.last().0, s.last().1)
    }
}

/// The keys of `s` are strictly increasing.
pub open spec fn keys_sorted<V>(s: Seq<(i64, V)>) -> bool {
    forall|i: int, j: int| 0 <= i < j < s.len() ==> s[i].0 < s[j].0
}

/// A key is in the map's domain exactly when some pair holds it.
pub proof fn lemma_map_of_domain<V>(s: Seq<(i64, V)>, k: i64)
    ensures
        map_of(s).dom().contains(k) <==> exists|i: int| 0 <= i < s.len() && s[i].0 == k,
    decreases s.len(),
{
    if s.len() > 0 {
        lemma_map_of_domain(s.drop_last(), k);
        if s.last().0 == k {
            assert(s[s.len() - 1].0 == k);
        } else if map_of(s).dom().contains(k) {
            let i = choose|i: int| 0 <= i < s.drop_last().len() && s.drop_last()[i].0 == k;
            assert(s[i].0 == k);
        } else if exists|i: int| 0 <= i < s.len() && s[i].0 == k {
            let i = choose|i: int| 0 <= i < s.len() && s[i].0 == k;
            assert(s.drop_last()[i].0 == k);
        }
    }
}

/// With sorted keys, the pair at index `i` gives the map's value for its key.
pub proof fn lemma_map_of_index<V>(s: Seq<(i64, V)>, i: int)
    requires
        keys_sorted(s),
        0 <= i < s.len(),
    ensures
        map_of(s).dom().contains(s[i].0),
        map_of(s)[s[i].0] == s[i].1,
    decreases s.len(),
{
    if i < s.len() - 1 {
        assert(keys_sorted(s.drop_last()));
        lemma_map_of_index(s.drop_last(), i);
        assert(s[i].0 < s.last().0);
    }
}

/// With sorted keys, the map's domain has exactly one pair per key.
pub proof fn lemma_map_of_len<V>(s: Seq<(i64, V)>)
    requires
        keys_sorted(s),
    ensures
        map_of(s).dom().len() == s.len(),
        map_of(s).dom().finite(),
    decreases s.len(),
{
    if s.len() > 0 {
        assert(keys_sorted(s.drop_last()));
        lemma_map_of_len(s.drop_last());
        lemma_map_of_domain(s.drop_last(), s.last().0);
        assert(forall|i: int| 0 <= i < s.drop_last().len() ==> s[i].0 < s.last().0);
        assert(!map_of(s.drop_last()).dom().contains(s.last().0));
    }
}

/// Splicing a fresh key into its sorted position inserts it into the map.
pub proof fn lemma_map_of_insert<V>(s: Seq<(i64, V)>, i: int, k: i64, v: V)
    requires
        keys_sorted(s),
        0 <= i <= s.len(),
        forall|j: int| 0 <= j < i ==> s[j].0 < k,
        forall|j: int| i <= j < s.len() ==> k < s[j].0,
    ensures
        map_of(s.insert(i, (k, v))) == map_of(s).insert(k, v),
    decreases s.len() - i,
{
    let t = s.insert(i, (k, v));
    if i == s.len() {
        assert(t.drop_last() =~= s);
        assert(t.last() == (k, v));
    } else {
        assert(t.last() == s.last());
        assert(t.drop_last() =~= s.drop_last().insert(i, (k, v)));
        assert(keys_sorted(s.drop_last()));
        lemma_map_of_insert(s.drop_last(), i, k, v);
        assert(k != s.last().0);
        assert(map_of(s.drop_last()).insert(k, v).insert(s.last().0, s.last().1) =~= map_of(
            s.drop_last(),
        ).insert(s.last().0, s.last().1).insert(k, v));
    }
}

/// Replacing the value at index `i` updates the map at that pair's key.
pub proof fn lemma_map_of_update<V>(s: Seq<(i64, V)>, i: int, v: V)
    requires
        keys_sorted(s),
        0 <= i < s.len(),
    ensures
        map_of(s.update(i, (s[i].0, v))) == map_of(s).insert(s[i].0, v),
    decreases s.len(),
{
    let t = s.update(i, (s[i].0, v));
    if i == s.len() - 1 {
        assert(t.drop_last() =~= s.drop_last());
        assert(t.last() == (s[i].0, v));
    } else {
        assert(t.last() == s.last());
        assert(t.drop_last() =~= s.drop_last().update(i, (s[i].0, v)));
        assert(keys_sorted(s.drop_last()));
        lemma_map_of_update(s.drop_last(), i, v);
        assert(s[i].0 != s.last().0);
        assert(map_of(s.drop_last()).insert(s[i].0, v).insert(s.last().0, s.last().1) =~= map_of(
            s.drop_last(),
        ).insert(s.last().0, s.last().1).insert(s[i].0, v));
    }
}

/// When every key of one sorted pair sequence appears in another, the first
/// is no longer than the second.
pub proof fn lemma_pairs_len_le<V, W>(s1: Seq<(i64, V)>, s2: Seq<(i64, W)>)
    requires
        keys_sorted(s1),
        keys_sorted(s2),
        forall|k: i64| map_of(s1).dom().contains(k) ==> #[trigger] map_of(s2).dom().contains(k),
    ensures
        s1.len() <= s2.len(),
{
    lemma_map_of_len(s1);
    lemma_map_of_len(s2);
    vstd::set_lib::lemma_len_subset(map_of(s1).dom(), map_of(s2).dom());
}

/// An ordered map from ids to values, stored as pairs with strictly
/// increasing keys.
pub struct AssocVec<V> {
    pub entries: Vec<(i64, V)>,
}

impl<V> View for AssocVec<V> {
    type V = Map<i64, V>;

    open spec fn view(&self) -> Map<i64, V> {
        map_of(self.entries@)
    }
}

impl<V> AssocVec<V> {
    /// The underlying pair sequence, in ascending key order.
    pub open spec fn pairs(&self) -> Seq<(i64, V)> {
        self.entries@
    }

    /// Well-formed: keys strictly increasing.
    pub open spec fn wf(&self) -> bool {
        keys_sorted(self.entries@)
    }

    pub fn new() -> (r: AssocVec<V>)
        ensures
            r.wf(),
            r.pairs() == Seq::<(i64, V)>::empty(),
            r@ == Map::<i64, V>::empty(),
    {
        AssocVec { entries: Vec::new() }
    }

    pub fn len(&self) -> (r: usize)
        ensures
            r == self.pairs().len(),
    {
        self.entries.len()
    }

    pub fn is_empty(&self) -> (r: bool)
        ensures
            r == (self.pairs().len() == 0),
            r == (self@ == Map::<i64, V>::empty()),
    {
        proof {
            if self.pairs().len() == 0 {
                assert(self@ =~= Map::<i64, V>::empty());
            } else {
                lemma_map_of_domain(self.pairs(), self.pairs()[0].0);
                assert(self@.dom().contains(self.pairs()[0].0));
            }
        }
        self.entries.len() == 0
    }

    pub fn key_at(&self, i: usize) -> (r: i64)
        requires
            i < self.pairs().len(),
        ensures
            r == self.pairs()[i as int].0,
    {
        self.entries[i].0
    }

    pub fn value_at(&self, i: usize) -> (r: &V)
        requires
            i < self.pairs().len(),
        ensures
            *r == self.pairs()[i as int].1,
    {
        &self.entries[i].1
    }

    /// Index of the pair holding `k`, if any.
    pub fn find(&self, k: i64) -> (r: Option<usize>)
        ensures
            match r {
                Some(i) => i < self.pairs().len() && self.pairs()[i as int].0 == k,
                None => forall|i: int| 0 <= i < self.pairs().len() ==> self.pairs()[i].0 != k,
            },
    {
        let n = self.entries.len();
        let mut i: usize = 0;
        while i < n
            invariant
                i <= n,
                n == self.pairs().len(),
                forall|j: int| 0 <= j < i ==> self.pairs()[j].0 != k,
            decreases n - i,
        {
            if self.entries[i].0 == k {
                return Some(i);
            }
            i = i + 1;
        }
        None
    }

    pub fn contains_key(&self, k: i64) -> (r: bool)
        ensures
            r == self@.dom().contains(k),
    {
        proof {
            lemma_map_of_domain(self.pairs(), k);
        }
        self.find(k).is_some()
    }

    pub fn get(&self, k: i64) -> (r: Option<&V>)
        requires
            self.wf(),
        ensures
            match r {
                Some(v) => self@.dom().contains(k) && *v == self@[k],
                None => !self@.dom().contains(k),
            },
    {
        proof {
            lemma_map_of_domain(self.pairs(), k);
        }
        match self.find(k) {
            Some(i) => {
                proof {
                    lemma_map_of_index(self.pairs(), i as int);
                }
                Some(&self.entries[i].1)
            },
            None => None,
        }
    }

    /// Replaces the value at index `i`, keeping its key.
    pub fn set_value_at(&mut self, i: usize, v: V)
        requires
            old(self).wf(),
            i < old(self).pairs().len(),
        ensures
            final(self).wf(),
            final(self).pairs() == old(self).pairs().update(
                i as int,
                (old(self).pairs()[i as int].0, v),
            ),
            final(self)@ == old(self)@.insert(old(self).pairs()[i as int].0, v),
    {
        proof {
            lemma_map_of_update(self.pairs(), i as int, v);
        }
        let k = self.entries[i].0;
        self.entries.set(i, (k, v));
    }

    /// Inserts or replaces the binding for `k`.
    pub fn insert(&mut self, k: i64, v: V)
        requires
            old(self).wf(),
        ensures
            final(self).wf(),
            final(self)@ == old(self)@.insert(k, v),
            final(self).pairs().len() == old(self).pairs().len() + (
            if old(self)@.dom().contains(k) {
                0int
            } else {
                1int
            }),
            old(self)@.dom().contains(k) ==> exists|i: int|
                0 <= i < old(self).pairs().len() && old(self).pairs()[i].0 == k
                    && final(self).pairs() == #[trigger] old(self).pairs().update(i, (k, v)),
            !old(self)@.dom().contains(k) ==> exists|i: int|
                0 <= i <= old(self).pairs().len()
                    && final(self).pairs() == #[trigger] old(self).pairs().insert(i, (k, v)),
    {
        proof {
            lemma_map_of_domain(self.pairs(), k);
        }
        let n = self.entries.len();
        let mut i: usize = 0;
        while i < n && self.entries[i].0 < k
            invariant
                i <= n,
                n == self.pairs().len(),
                self.wf(),
                *self == *old(self),
                forall|j: int| 0 <= j < i ==> self.pairs()[j].0 < k,
            decreases n - i,
        {
            i = i + 1;
        }
        if i < n && self.entries[i].0 == k {
            proof {
                lemma_map_of_index(self.pairs(), i as int);
            }
            self.set_value_at(i, v);
        } else {
            let ghost s = self.pairs();
            let ghost t = s.insert(i as int, (k, v));
            proof {
                assert(forall|j: int| i <= j < n ==> k < #[trigger] s[j].0) by {
                    if i < n {
                        assert(s[i as int].0 > k);
                        assert(forall|j: int| i < j < n ==> s[i as int].0 < #[trigger] s[j].0);
                    }
                }
                lemma_map_of_insert(s, i as int, k, v);
                s.insert_ensures(i as int, (k, v));
                assert forall|a: int, b: int| 0 <= a < b < t.len() implies t[a].0 < t[b].0 by {
                    if b < i {
                        assert(t[a] == s[a] && t[b] == s[b]);
                    } else if b == i {
                        assert(t[a] == s[a] && t[b] == (k, v));
                    } else {
                        assert(t[b] == s[b - 1]);
                        if a < i {
                            assert(t[a] == s[a]);
                        } else if a == i {
                            assert(t[a] == (k, v));
                        } else {
                            assert(t[a] == s[a - 1]);
                        }
                    }
                }
            }
            self.entries.insert(i, (k, v));
        }
    }
}

/// The count a map records for `k`, zero when absent.
pub open spec fn count_of(m: Map<i64, i64>, k: i64) -> int {
    if m.dom().contains(k) {
        m[k] as int
    } else {
        0
    }
}

/// The sum of the counts a pair sequence records.
pub open spec fn sum_counts(s: Seq<(i64, i64)>) -> int
    decreases s.len(),
{
    if s.len() == 0 {
        0
    } else {
        sum_counts(s.drop_last()) + s.last().1
    }
}

/// Splicing in a pair adds its count to the sum.
pub proof fn lemma_sum_counts_insert(s: Seq<(i64, i64)>, i: int, p: (i64, i64))
    requires
        0 <= i <= s.len(),
    ensures
        sum_counts(s.insert(i, p)) == sum_counts(s) + p.1,
    decreases s.len() - i,
{
    let t = s.insert(i, p);
    if i == s.len() {
        assert(t.drop_last() =~= s);
        assert(t.last() == p);
    } else {
        assert(t.last() == s.last());
        assert(t.drop_last() =~= s.drop_last().insert(i, p));
        lemma_sum_counts_insert(s.drop_last(), i, p);
    }
}

/// Replacing a pair shifts the sum by the difference of the counts.
pub proof fn lemma_sum_counts_update(s: Seq<(i64, i64)>, i: int, p: (i64, i64))
    requires
        0 <= i < s.len(),
    ensures
        sum_counts(s.update(i, p)) == sum_counts(s) - s[i].1 + p.1,
    decreases s.len(),
{
    let t = s.update(i, p);
    if i == s.len() - 1 {
        assert(t.drop_last() =~= s.drop_last());
        assert(t.last() == p);
    } else {
        assert(t.last() == s.last());
        assert(t.drop_last() =~= s.drop_last().update(i, p));
        lemma_sum_counts_update(s.drop_last(), i, p);
    }
}

/// A sum of nonnegative counts dominates each entry.
pub proof fn lemma_sum_counts_entry(s: Seq<(i64, i64)>, i: int)
    requires
        0 <= i < s.len(),
        forall|j: int| 0 <= j < s.len() ==> (#[trigger] s[j]).1 >= 0,
    ensures
        sum_counts(s) >= s[i].1,
        sum_counts(s) >= 0,
    decreases s.len(),
{
    if s.len() > 0 {
        if i == s.len() - 1 {
            lemma_sum_counts_nonneg(s.drop_last());
        } else {
            lemma_sum_counts_entry(s.drop_last(), i);
        }
    }
}

/// A sum of nonnegative counts is nonnegative.
pub proof fn lemma_sum_counts_nonneg(s: Seq<(i64, i64)>)
    requires
        forall|j: int| 0 <= j < s.len() ==> (#[trigger] s[j]).1 >= 0,
    ensures
        sum_counts(s) >= 0,
    decreases s.len(),
{
    if s.len() > 0 {
        lemma_sum_counts_nonneg(s.drop_last());
    }
}

impl AssocVec<i64> {
    /// The count at `k`, zero when absent.
    pub fn get_count(&self, k: i64) -> (r: i64)
        requires
            self.wf(),
        ensures
            r == count_of(self@, k),
    {
        match self.get(k) {
            Some(v) => *v,
            None => 0,
        }
    }

    /// Adds `d` to the count at `k`, treating an absent key as zero.
    pub fn add_count(&mut self, k: i64, d: i64)
        requires
            old(self).wf(),
            i64::MIN <= count_of(old(self)@, k) + d <= i64::MAX,
        ensures
            final(self).wf(),
            final(self)@ == old(self)@.insert(k, (count_of(old(self)@, k) + d) as i64),
            sum_counts(final(self).pairs()) == sum_counts(old(self).pairs()) + d,
            final(self).pairs().len() == old(self).pairs().len() + (
            if old(self)@.dom().contains(k) {
                0int
            } else {
                1int
            }),
    {
        let cur = self.get_count(k);
        let ghost before = self.pairs();
        self.insert(k, cur + d);
        proof {
            if map_of(before).dom().contains(k) {
                let i = choose|i: int|
                    0 <= i < before.len() && before[i].0 == k && self.pairs()
                        == #[trigger] before.update(i, (k, (cur + d) as i64));
                lemma_map_of_index(before, i);
                lemma_sum_counts_update(before, i, (k, (cur + d) as i64));
            } else {
                let i = choose|i: int|
                    0 <= i <= before.len() && self.pairs() == #[trigger] before.insert(
                        i,
                        (k, (cur + d) as i64),
                    );
                lemma_sum_counts_insert(before, i, (k, (cur + d) as i64));
            }
        }
    }

    /// An entry-for-entry copy.
    pub fn duplicate(&self) -> (r: AssocVec<i64>)
        ensures
            r.pairs() == self.pairs(),
            r@ == self@,
            r.wf() == self.wf(),
    {
        let n = self.entries.len();
        let mut out: Vec<(i64, i64)> = Vec::new();
        let mut i: usize = 0;
        while i < n
            invariant
                i <= n,
                n == self.pairs().len(),
                out@ == self.pairs().take(i as int),
            decreases n - i,
        {
            out.push(self.entries[i]);
            proof {
                assert(out@ =~= self.pairs().take(i + 1));
            }
            i = i + 1;
        }
        proof {
            assert(out@ =~= self.pairs());
        }
        AssocVec { entries: out }
    }
}

/// The set holding the elements of `s`.
pub open spec fn set_of(s: Seq<i64>) -> Set<i64>
    decreases s.len(),
{
    if s.len() == 0 {
        Set::empty()
    } else {
        set_of(s.drop_last()).insert(s.last())
    }
}

/// An element is in the set exactly when the sequence holds it.
pub proof fn lemma_set_of_contains(s: Seq<i64>, k: i64)
    ensures
        set_of(s).contains(k) <==> exists|i: int| 0 <= i < s.len() && s[i] == k,
    decreases s.len(),
{
    if s.len() > 0 {
        lemma_set_of_contains(s.drop_last(), k);
        if s.last() == k {
            assert(s[s.len() - 1] == k);
        } else if set_of(s).contains(k) {
            let i = choose|i: int| 0 <= i < s.drop_last().len() && s.drop_last()[i] == k;
            assert(s[i] == k);
        } else if exists|i: int| 0 <= i < s.len() && s[i] == k {
            let i = choose|i: int| 0 <= i < s.len() && s[i] == k;
            assert(s.drop_last()[i] == k);
        }
    }
}

/// Splicing a fresh element into its sorted position inserts it into the set.
pub proof fn lemma_set_of_insert(s: Seq<i64>, i: int, k: i64)
    requires
        0 <= i <= s.len(),
    ensures
        set_of(s.insert(i, k)) == set_of(s).insert(k),
    decreases s.len() - i,
{
    let t = s.insert(i, k);
    if i == s.len() {
        assert(t.drop_last() =~= s);
        assert(t.last() == k);
    } else {
        assert(t.last() == s.last());
        assert(t.drop_last() =~= s.drop_last().insert(i, k));
        lemma_set_of_insert(s.drop_last(), i, k);
        assert(set_of(s.drop_last()).insert(k).insert(s.last()) =~= set_of(
            s.drop_last(),
        ).insert(s.last()).insert(k));
    }
}

/// An ordered set of ids, stored with strictly increasing elements.
pub struct IdSet {
    pub items: Vec<i64>,
}

impl View for IdSet {
    type V = Set<i64>;

    open spec fn view(&self) -> Set<i64> {
        set_of(self.items@)
    }
}

impl IdSet {
    /// The underlying element sequence, in ascending order.
    pub open spec fn ids(&self) -> Seq<i64> {
        self.items@
    }

    /// Well-formed: elements strictly increasing.
    pub open spec fn wf(&self) -> bool {
        forall|i: int, j: int| 0 <= i < j < self.items@.len() ==> self.items@[i] < self.items@[j]
    }

    pub fn new() -> (r: IdSet)
        ensures
            r.wf(),
            r.ids() == Seq::<i64>::empty(),
            r@ == Set::<i64>::empty(),
    {
        IdSet { items: Vec::new() }
    }

    pub fn len(&self) -> (r: usize)
        ensures
            r == self.ids().len(),
    {
        self.items.len()
    }

    pub fn id_at(&self, i: usize) -> (r: i64)
        requires
            i < self.ids().len(),
        ensures
            r == self.ids()[i as int],
    {
        self.items[i]
    }

    pub fn contains(&self, k: i64) -> (r: bool)
        ensures
            r == self@.contains(k),
    {
        proof {
            lemma_set_of_contains(self.ids(), k);
        }
        let n = self.items.len();
        let mut i: usize = 0;
        while i < n
            invariant
                i <= n,
                n == self.ids().len(),
                forall|j: int| 0 <= j < i ==> self.ids()[j] != k,
            decreases n - i,
        {
            if self.items[i] == k {
                proof {
                    lemma_set_of_contains(self.ids(), k);
                }
                return true;
            }
            i = i + 1;
        }
        false
    }

    /// Surrenders the ordered element vector.
    pub fn into_items(self) -> (r: Vec<i64>)
        ensures
            r@ == self.ids(),
    {
        self.items
    }

    pub fn insert(&mut self, k: i64)
        requires
            old(self).wf(),
        ensures
            final(self).wf(),
            final(self)@ == old(self)@.insert(k),
    {
        let n = self.items.len();
        let mut i: usize = 0;
        while i < n && self.items[i] < k
            invariant
                i <= n,
                n == self.ids().len(),
                self.wf(),
                *self == *old(self),
                forall|j: int| 0 <= j < i ==> self.ids()[j] < k,
            decreases n - i,
        {
            i = i + 1;
        }
        if i < n && self.items[i] == k {
            proof {
                lemma_set_of_contains(self.ids(), k);
                assert(self@.insert(k) =~= self@);
            }
        } else {
            let ghost s = self.ids();
            let ghost t = s.insert(i as int, k);
            proof {
                assert(forall|j: int| i <= j < n ==> k < #[trigger] s[j]) by {
                    if i < n {
                        assert(s[i as int] > k);
                        assert(forall|j: int| i < j < n ==> s[i as int] < #[trigger] s[j]);
                    }
                }
                lemma_set_of_insert(s, i as int, k);
                s.insert_ensures(i as int, k);
                assert forall|a: int, b: int| 0 <= a < b < t.len() implies t[a] < t[b] by {
                    if b < i {
                        assert(t[a] == s[a] && t[b] == s[b]);
                    } else if b == i {
                        assert(t[a] == s[a] && t[b] == k);
                    } else {
                        assert(t[b] == s[b - 1]);
                        if a < i {
                            assert(t[a] == s[a]);
                        } else if a == i {
                            assert(t[a] == k);
                        } else {
                            assert(t[a] == s[a - 1]);
                        }
                    }
                }
            }
            self.items.insert(i, k);
        }
    }
}

} // verus!
