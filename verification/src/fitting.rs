//! Loadouts: a hull plus multisets of fitted modules and carried cargo, and
//! the named reference loadouts ("doctrine fits") they are compared against.

use vstd::prelude::*;

use crate::TypeID;
use crate::idmap::{AssocVec, count_of, lemma_map_of_index};

verus! {

/// Most distinct item ids a single loadout section may hold.
pub const MAX_DISTINCT_ITEMS: usize = 4096;

/// Largest per-item quantity a loadout section may record.
pub const MAX_ITEM_COUNT: i64 = 1_000_000;

/// A well-formed count table: sorted, bounded in size, and every recorded
/// quantity between one and [`MAX_ITEM_COUNT`]. These bounds keep all derived
/// arithmetic (diff quantities, match scores) inside `i64`.
pub open spec fn counts_wf(m: &AssocVec<i64>) -> bool {
    &&& m.wf()
    &&& m.pairs().len() <= MAX_DISTINCT_ITEMS
    &&& forall|k: i64| m@.dom().contains(k) ==> 1 <= #[trigger] m@[k] <= MAX_ITEM_COUNT
}

/// A submitted or reference loadout.
pub struct Fitting {
    pub hull: TypeID,
    pub modules: AssocVec<i64>,
    pub cargo: AssocVec<i64>,
}

impl Fitting {
    pub open spec fn wf(&self) -> bool {
        &&& counts_wf(&self.modules)
        &&& counts_wf(&self.cargo)
    }

    /// An empty loadout on the given hull.
    pub fn new(hull: TypeID) -> (r: Fitting)
        ensures
            r.wf(),
            r.hull == hull,
            r.modules@ == Map::<i64, i64>::empty(),
            r.cargo@ == Map::<i64, i64>::empty(),
            r.modules.pairs() == Seq::<(i64, i64)>::empty(),
            r.cargo.pairs() == Seq::<(i64, i64)>::empty(),
    {
        Fitting { hull, modules: AssocVec::new(), cargo: AssocVec::new() }
    }

    /// Records `count` fitted copies of module `id`. Rejects a quantity out of
    /// range, and a fresh id once the section is full.
    pub fn set_module(&mut self, id: TypeID, count: i64) -> (r: bool)
        requires
            old(self).wf(),
        ensures
            final(self).wf(),
            final(self).hull == old(self).hull,
            final(self).cargo == old(self).cargo,
            r == (1 <= count <= MAX_ITEM_COUNT && (old(self).modules@.dom().contains(id)
                || old(self).modules.pairs().len() < MAX_DISTINCT_ITEMS)),
            r ==> final(self).modules@ == old(self).modules@.insert(id, count),
            !r ==> final(self).modules == old(self).modules,
    {
        if count < 1 || count > MAX_ITEM_COUNT {
            return false;
        }
        let present = self.modules.contains_key(id);
        if !present && self.modules.len() >= MAX_DISTINCT_ITEMS {
            return false;
        }
        self.modules.insert(id, count);
        true
    }

    /// Records `count` carried copies of cargo item `id`, under the same
    /// bounds as [`Fitting::set_module`].
    pub fn set_cargo(&mut self, id: TypeID, count: i64) -> (r: bool)
        requires
            old(self).wf(),
        ensures
            final(self).wf(),
            final(self).hull == old(self).hull,
            final(self).modules == old(self).modules,
            r == (1 <= count <= MAX_ITEM_COUNT && (old(self).cargo@.dom().contains(id)
                || old(self).cargo.pairs().len() < MAX_DISTINCT_ITEMS)),
            r ==> final(self).cargo@ == old(self).cargo@.insert(id, count),
            !r ==> final(self).cargo == old(self).cargo,
    {
        if count < 1 || count > MAX_ITEM_COUNT {
            return false;
        }
        let present = self.cargo.contains_key(id);
        if !present && self.cargo.len() >= MAX_DISTINCT_ITEMS {
            return false;
        }
        self.cargo.insert(id, count);
        true
    }

    /// An owned copy: equal hull, module table and cargo table.
    pub fn duplicate(&self) -> (r: Fitting)
        ensures
            r.hull == self.hull,
            r.modules.pairs() == self.modules.pairs(),
            r.cargo.pairs() == self.cargo.pairs(),
            r.modules@ == self.modules@,
            r.cargo@ == self.cargo@,
            r.wf() == self.wf(),
    {
        Fitting {
            hull: self.hull,
            modules: self.modules.duplicate(),
            cargo: self.cargo.duplicate(),
        }
    }
}

/// A registered, named reference loadout.
pub struct DoctrineFit {
    pub name: String,
    pub fit: Fitting,
}

impl DoctrineFit {
    pub open spec fn wf(&self) -> bool {
        self.fit.wf()
    }

    /// An owned copy: equal name and loadout.
    pub fn duplicate(&self) -> (r: DoctrineFit)
        ensures
            r.name@ == self.name@,
            r.fit.hull == self.fit.hull,
            r.fit.modules.pairs() == self.fit.modules.pairs(),
            r.fit.cargo.pairs() == self.fit.cargo.pairs(),
            r.fit.modules@ == self.fit.modules@,
            r.fit.cargo@ == self.fit.cargo@,
            r.wf() == self.wf(),
    {
        DoctrineFit { name: self.name.clone(), fit: self.fit.duplicate() }
    }
}

/// The count bound carried by every entry of a well-formed count table.
pub proof fn lemma_counts_wf_entry(m: &AssocVec<i64>, i: int)
    requires
        counts_wf(m),
        0 <= i < m.pairs().len(),
    ensures
        1 <= m.pairs()[i].1 <= MAX_ITEM_COUNT,
        m@.dom().contains(m.pairs()[i].0),
        m@[m.pairs()[i].0] == m.pairs()[i].1,
        count_of(m@, m.pairs()[i].0) == m.pairs()[i].1,
{
    lemma_map_of_index(m.pairs(), i);
    assert(m@.dom().contains(m.pairs()[i].0));
    assert(1 <= m@[m.pairs()[i].0] <= MAX_ITEM_COUNT);
}

} // verus!
