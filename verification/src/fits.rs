//! The registered reference-fit catalog, grouped by hull.

use vstd::prelude::*;

use crate::TypeID;
use crate::fitting::DoctrineFit;
use crate::idmap::{AssocVec, IdSet, lemma_map_of_domain, lemma_map_of_index};

verus! {

/// Two doctrine fits carry the same data: equal name, hull, module table and
/// cargo table.
pub open spec fn fit_like(a: &DoctrineFit, b: &DoctrineFit) -> bool {
    &&& a.name@ == b.name@
    &&& a.fit.hull == b.fit.hull
    &&& a.fit.modules.pairs() == b.fit.modules.pairs()
    &&& a.fit.cargo.pairs() == b.fit.cargo.pairs()
}

/// The immutable catalog snapshot: per hull, the registered reference fits
/// in registration order.
pub struct FitData {
    pub by_hull: AssocVec<Vec<DoctrineFit>>,
}

impl FitData {
    pub open spec fn wf(&self) -> bool {
        &&& self.by_hull.wf()
        &&& forall|h: i64| #[trigger] self.by_hull@.dom().contains(h) ==> (1 <= self.by_hull@[h]@.len()
            && forall|t: int| 0 <= t < self.by_hull@[h]@.len() ==> ((
            #[trigger] self.by_hull@[h]@[t]).fit.hull == h && self.by_hull@[h]@[t].wf()))
    }

    /// An empty catalog.
    pub fn empty() -> (r: FitData)
        ensures
            r.wf(),
            r.by_hull@ == Map::<i64, Vec<DoctrineFit>>::empty(),
    {
        FitData { by_hull: AssocVec::new() }
    }

    /// The fits registered for `hull`, in registration order.
    pub fn get(&self, hull: TypeID) -> (r: Option<&Vec<DoctrineFit>>)
        requires
            self.wf(),
        ensures
            match r {
                Some(l) => self.by_hull@.dom().contains(hull) && l@ == self.by_hull@[hull]@,
                None => !self.by_hull@.dom().contains(hull),
            },
    {
        self.by_hull.get(hull)
    }
}


/// An element-for-element owned copy of a fit list.
fn copy_fits(existing: &Vec<DoctrineFit>) -> (r: Vec<DoctrineFit>)
    requires
        forall|w: int| 0 <= w < existing@.len() ==> (#[trigger] existing@[w]).wf(),
    ensures
        r@.len() == existing@.len(),
        forall|w: int| 0 <= w < r@.len() ==> (fit_like(&(#[trigger] r@[w]), &existing@[w])
            && r@[w].wf() && r@[w].fit.hull == existing@[w].fit.hull),
{
    let m = existing.len();
    let mut copy: Vec<DoctrineFit> = Vec::new();
    let mut t: usize = 0;
    while t < m
        invariant
            t <= m,
            m == existing@.len(),
            copy@.len() == t,
            forall|w: int| 0 <= w < t ==> (fit_like(&(#[trigger] copy@[w]), &existing@[w])
                && copy@[w].wf() && copy@[w].fit.hull == existing@[w].fit.hull),
            forall|w: int| 0 <= w < m ==> (#[trigger] existing@[w]).wf(),
        decreases m - t,
    {
        copy.push(existing[t].duplicate());
        t = t + 1;
    }
    copy
}

/// Appends one fit to its hull's list, creating the list when absent. Other
/// hulls are untouched; the hull's previous entries keep their data in
/// place, and the new fit's data lands at the end.
fn insert_doctrine(by_hull: &mut AssocVec<Vec<DoctrineFit>>, fit: &DoctrineFit)
    requires
        old(by_hull).wf(),
        fit.wf(),
        forall|h: i64| #[trigger] old(by_hull)@.dom().contains(h) ==> forall|t: int|
            0 <= t < old(by_hull)@[h]@.len() ==> ((#[trigger] old(by_hull)@[h]@[t]).wf() && old(
                by_hull,
            )@[h]@[t].fit.hull == h),
    ensures
        final(by_hull).wf(),
        forall|h: i64| #[trigger] final(by_hull)@.dom().contains(h) <==> (
        old(by_hull)@.dom().contains(h) || h == fit.fit.hull),
        forall|h: i64|
            h != fit.fit.hull && old(by_hull)@.dom().contains(h)
                ==> #[trigger] final(by_hull)@[h] == old(by_hull)@[h],
        final(by_hull)@[fit.fit.hull]@.len() == (if old(by_hull)@.dom().contains(fit.fit.hull) {
            old(by_hull)@[fit.fit.hull]@.len() as int + 1
        } else {
            1int
        }),
        forall|t: int|
            old(by_hull)@.dom().contains(fit.fit.hull) && 0 <= t
                < old(by_hull)@[fit.fit.hull]@.len() ==> fit_like(
                &(#[trigger] final(by_hull)@[fit.fit.hull]@[t]),
                &old(by_hull)@[fit.fit.hull]@[t],
            ),
        fit_like(
            &final(by_hull)@[fit.fit.hull]@[final(by_hull)@[fit.fit.hull]@.len() - 1],
            fit,
        ),
        forall|t: int|
            0 <= t < final(by_hull)@[fit.fit.hull]@.len() ==> ((
            #[trigger] final(by_hull)@[fit.fit.hull]@[t]).wf()
                && final(by_hull)@[fit.fit.hull]@[t].fit.hull == fit.fit.hull),
{
    let hull = fit.fit.hull;
    let ghost had = by_hull@.dom().contains(hull);
    let ghost old_list = if had {
        by_hull@[hull]@
    } else {
        Seq::<DoctrineFit>::empty()
    };
    let mut list = match by_hull.get(hull) {
        Some(existing) => copy_fits(existing),
        None => Vec::new(),
    };
    list.push(fit.duplicate());
    let ghost glist = list@;
    by_hull.insert(hull, list);
    proof {
        assert(by_hull@[hull]@ == glist);
        assert(glist.len() == old_list.len() + 1);
        assert forall|t: int| had && 0 <= t < old_list.len() implies fit_like(
            &(#[trigger] by_hull@[hull]@[t]),
            &old_list[t],
        ) by {
            assert(glist[t] == glist[t]);
        }
        assert(fit_like(&glist[glist.len() - 1], fit));
    }
}

/// Groups a list of reference fits by hull, preserving their order within
/// each hull. Every listed fit carries the data of some input fit of that
/// hull, and every input fit's data appears in its hull's list.
#[verifier::rlimit(100)]
pub fn build_fit_data(fits: &Vec<DoctrineFit>) -> (r: FitData)
    requires
        forall|i: int| 0 <= i < fits@.len() ==> (#[trigger] fits@[i]).wf(),
    ensures
        r.wf(),
        forall|h: i64| #[trigger] r.by_hull@.dom().contains(h) <==> exists|i: int|
            0 <= i < fits@.len() && (#[trigger] fits@[i]).fit.hull == h,
        forall|h: i64, t: int|
            #![trigger r.by_hull@[h]@[t]]
            r.by_hull@.dom().contains(h) && 0 <= t < r.by_hull@[h]@.len() ==> exists|i: int|
                0 <= i < fits@.len() && fit_like(&r.by_hull@[h]@[t], &fits@[i]),
{
    let n = fits.len();
    let mut by_hull: AssocVec<Vec<DoctrineFit>> = AssocVec::new();
    let mut i: usize = 0;
    while i < n
        invariant
            i <= n,
            n == fits@.len(),
            by_hull.wf(),
            forall|j: int| 0 <= j < n ==> (#[trigger] fits@[j]).wf(),
            forall|h: i64| #[trigger] by_hull@.dom().contains(h) <==> exists|j: int|
                0 <= j < i && (#[trigger] fits@[j]).fit.hull == h,
            forall|h: i64| #[trigger] by_hull@.dom().contains(h) ==> (1 <= by_hull@[h]@.len()
                && forall|t: int| 0 <= t < by_hull@[h]@.len() ==> ((
                #[trigger] by_hull@[h]@[t]).fit.hull == h && by_hull@[h]@[t].wf())),
            forall|h: i64, t: int|
                #![trigger by_hull@[h]@[t]]
                by_hull@.dom().contains(h) && 0 <= t < by_hull@[h]@.len() ==> exists|j: int|
                    0 <= j < i && fit_like(&by_hull@[h]@[t], &fits@[j]),
        decreases n - i,
    {
        let fit = &fits[i];
        let hull = fit.fit.hull;
        let ghost before = by_hull@;
        insert_doctrine(&mut by_hull, fit);
        proof {
            assert forall|h: i64, t: int|
                #![trigger by_hull@[h]@[t]]
                by_hull@.dom().contains(h) && 0 <= t < by_hull@[h]@.len() implies exists|j: int|
                    0 <= j < i + 1 && fit_like(&by_hull@[h]@[t], &fits@[j]) by {
                if h == hull {
                    if t == by_hull@[h]@.len() - 1 {
                        assert(fit_like(&by_hull@[h]@[t], &fits@[i as int]));
                    } else {
                        assert(before.dom().contains(h));
                        assert(fit_like(&by_hull@[h]@[t], &before[h]@[t]));
                        let j = choose|j: int|
                            0 <= j < i && fit_like(&(#[trigger] before[h]@[t]), &fits@[j]);
                        assert(fit_like(&by_hull@[h]@[t], &fits@[j]));
                    }
                } else {
                    assert(by_hull@[h] == before[h]);
                }
            }
        }
        i = i + 1;
    }
    FitData { by_hull }
}

/// Replaces the active catalog snapshot with one built from `fits`: the
/// previous snapshot is swapped out whole, never mutated in place.
pub fn reload_fits(current: &mut FitData, fits: &Vec<DoctrineFit>)
    requires
        forall|i: int| 0 <= i < fits@.len() ==> (#[trigger] fits@[i]).wf(),
    ensures
        final(current).wf(),
        forall|h: i64| #[trigger] final(current).by_hull@.dom().contains(h) <==> exists|i: int|
            0 <= i < fits@.len() && (#[trigger] fits@[i]).fit.hull == h,
{
    let new_data = build_fit_data(fits);
    *current = new_data;
}

/// Whether `id` occurs anywhere in the catalog: as a hull, a fitted module,
/// or a cargo item of some registered fit.
pub open spec fn catalog_uses_id(data: &FitData, id: i64) -> bool {
    exists|h: i64, t: int|
        #![trigger data.by_hull@[h]@[t]]
        data.by_hull@.dom().contains(h) && 0 <= t < data.by_hull@[h]@.len() && (h == id
            || data.by_hull@[h]@[t].fit.modules@.dom().contains(id)
            || data.by_hull@[h]@[t].fit.cargo@.dom().contains(id))
}

/// Type ids the catalog uses: hulls, fitted modules and cargo items, in
/// ascending order without repetition.
pub fn used_module_ids(data: &FitData) -> (r: Vec<TypeID>)
    requires
        data.wf(),
    ensures
        forall|i: int, j: int| 0 <= i < j < r@.len() ==> r@[i] < r@[j],
        forall|i: int| 0 <= i < r@.len() ==> catalog_uses_id(data, #[trigger] r@[i]),
{
    let n = data.by_hull.len();
    let mut ids = IdSet::new();
    let mut hi: usize = 0;
    while hi < n
        invariant
            hi <= n,
            n == data.by_hull.pairs().len(),
            data.wf(),
            ids.wf(),
            forall|id: i64| #[trigger] ids@.contains(id) ==> catalog_uses_id(data, id),
        decreases n - hi,
    {
        let hull = data.by_hull.key_at(hi);
        proof {
            lemma_map_of_index(data.by_hull.pairs(), hi as int);
            assert(data.by_hull@.dom().contains(hull));
            assert(data.by_hull@[hull]@.len() >= 1);
            let ghost t0: int = 0;
            assert(data.by_hull@[hull]@[t0].fit.hull == hull);
            assert(catalog_uses_id(data, hull));
        }
        ids.insert(hull);
        let fits_list = data.by_hull.value_at(hi);
        let m = fits_list.len();
        let mut t: usize = 0;
        while t < m
            invariant
                t <= m,
                hi < n,
                n == data.by_hull.pairs().len(),
                m == fits_list@.len(),
                data.wf(),
                ids.wf(),
                hull == data.by_hull.pairs()[hi as int].0,
                data.by_hull@.dom().contains(hull),
                fits_list@ == data.by_hull@[hull]@,
                forall|id: i64| #[trigger] ids@.contains(id) ==> catalog_uses_id(data, id),
            decreases m - t,
        {
            let fit = &fits_list[t];
            let mk = fit.fit.modules.len();
            let mut w: usize = 0;
            while w < mk
                invariant
                    w <= mk,
                    t < m,
                    m == fits_list@.len(),
                    mk == fit.fit.modules.pairs().len(),
                    data.wf(),
                    ids.wf(),
                    data.by_hull@.dom().contains(hull),
                    fits_list@ == data.by_hull@[hull]@,
                    fit == &data.by_hull@[hull]@[t as int],
                    forall|id: i64| #[trigger] ids@.contains(id) ==> catalog_uses_id(data, id),
                decreases mk - w,
            {
                let id = fit.fit.modules.key_at(w);
                proof {
                    lemma_map_of_index(fit.fit.modules.pairs(), w as int);
                    assert(data.by_hull@.dom().contains(hull) && 0 <= t < data.by_hull@[hull]@.len()
                        && data.by_hull@[hull]@[t as int].fit.modules@.dom().contains(id));
                    assert(catalog_uses_id(data, id));
                }
                ids.insert(id);
                w = w + 1;
            }
            let ck = fit.fit.cargo.len();
            let mut w2: usize = 0;
            while w2 < ck
                invariant
                    w2 <= ck,
                    t < m,
                    m == fits_list@.len(),
                    ck == fit.fit.cargo.pairs().len(),
                    data.wf(),
                    ids.wf(),
                    data.by_hull@.dom().contains(hull),
                    fits_list@ == data.by_hull@[hull]@,
                    fit == &data.by_hull@[hull]@[t as int],
                    forall|id: i64| #[trigger] ids@.contains(id) ==> catalog_uses_id(data, id),
                decreases ck - w2,
            {
                let id = fit.fit.cargo.key_at(w2);
                proof {
                    lemma_map_of_index(fit.fit.cargo.pairs(), w2 as int);
                    assert(data.by_hull@.dom().contains(hull) && 0 <= t < data.by_hull@[hull]@.len()
                        && data.by_hull@[hull]@[t as int].fit.cargo@.dom().contains(id));
                    assert(catalog_uses_id(data, id));
                }
                ids.insert(id);
                w2 = w2 + 1;
            }
            t = t + 1;
        }
        hi = hi + 1;
    }
    proof {
        assert forall|i: int| 0 <= i < ids.ids().len() implies catalog_uses_id(
            data,
            #[trigger] ids.ids()[i],
        ) by {
            crate::idmap::lemma_set_of_contains(ids.ids(), ids.ids()[i]);
            assert(ids@.contains(ids.ids()[i]));
        }
    }
    ids.into_items()
}

} // verus!
