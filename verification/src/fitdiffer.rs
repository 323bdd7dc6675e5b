//! The structural differ: compares a submitted loadout against a reference
//! loadout over the variation graph.
//!
//! For each reference module, identical candidate modules satisfy the slot
//! first; any unmatched reference quantity is then matched against candidate
//! modules that the graph connects to it, walking the node's ordered edge
//! list (equivalents, then upgrades, then downgrades). What the edges cannot
//! satisfy is missing; candidate quantity that nothing consumed is extra.
//! Cargo is compared by exact id only, skipping the configured ignore set.

use vstd::prelude::*;

use crate::TypeID;
use crate::fitting::{Fitting, MAX_DISTINCT_ITEMS, MAX_ITEM_COUNT, counts_wf, lemma_counts_wf_entry};
use crate::idmap::{
    AssocVec, IdSet, count_of, lemma_map_of_domain, lemma_map_of_index, lemma_pairs_len_le,
    lemma_sum_counts_entry, lemma_sum_counts_nonneg, map_of, sum_counts,
};
use crate::variations::{Variation, Variator, has_edge};

verus! {

/// How many instances of reference module `k` are satisfied by identical
/// candidate modules: the smaller of the two counts.
pub open spec fn exact_used(refm: Map<i64, i64>, candm: Map<i64, i64>, k: i64) -> int {
    if count_of(refm, k) <= count_of(candm, k) {
        count_of(refm, k)
    } else {
        count_of(candm, k)
    }
}

/// Reference quantity of `k` left over after identical matching.
pub open spec fn exact_left(refm: Map<i64, i64>, candm: Map<i64, i64>, k: i64) -> int {
    count_of(refm, k) - exact_used(refm, candm, k)
}

/// Candidate quantity of `k` left over after identical matching.
pub open spec fn exact_remaining(refm: Map<i64, i64>, candm: Map<i64, i64>, k: i64) -> int {
    count_of(candm, k) - exact_used(refm, candm, k)
}

/// Sum, over an edge list, of the candidate quantity its targets could still
/// offer after identical matching. Bounds what variation matching can consume.
pub open spec fn sum_target_remaining(
    edges: Seq<Variation>,
    refm: Map<i64, i64>,
    candm: Map<i64, i64>,
) -> int
    decreases edges.len(),
{
    if edges.len() == 0 {
        0
    } else {
        sum_target_remaining(edges.drop_last(), refm, candm) + exact_remaining(
            refm,
            candm,
            edges.last().to,
        )
    }
}

/// The recorded substitutions under outer key `k`, zero when none.
pub open spec fn nested_sum_at(m: &AssocVec<AssocVec<i64>>, k: i64) -> int {
    if m@.dom().contains(k) {
        sum_counts(m@[k].pairs())
    } else {
        0
    }
}

/// First stage of the diff: identical matching. Returns the candidate
/// quantities left over, and per reference entry the reference quantity left
/// over, in reference entry order.
fn consume_exact(refm: &AssocVec<i64>, candm: &AssocVec<i64>) -> (r: (AssocVec<i64>, Vec<i64>))
    requires
        counts_wf(refm),
        counts_wf(candm),
    ensures
        r.0.wf(),
        r.0.pairs().len() == candm.pairs().len(),
        forall|k: i64| count_of(r.0@, k) == exact_remaining(refm@, candm@, k),
        r.1@.len() == refm.pairs().len(),
        forall|j: int| 0 <= j < r.1@.len() ==> r.1@[j] as int == exact_left(
            refm@,
            candm@,
            (#[trigger] refm.pairs()[j]).0,
        ),
{
    let n = refm.len();
    let mut remaining = candm.duplicate();
    let mut lefts: Vec<i64> = Vec::new();
    proof {
        assert forall|k: i64| count_of(remaining@, k) == count_of(candm@, k) by {}
    }
    let mut i: usize = 0;
    while i < n
        invariant
            i <= n,
            n == refm.pairs().len(),
            counts_wf(refm),
            counts_wf(candm),
            remaining.wf(),
            remaining.pairs().len() == candm.pairs().len(),
            lefts@.len() == i,
            forall|j: int| 0 <= j < i ==> lefts@[j] as int == exact_left(
                refm@,
                candm@,
                (#[trigger] refm.pairs()[j]).0,
            ),
            forall|k: i64| #[trigger] count_of(remaining@, k) == (if exists|j: int|
                0 <= j < i && (#[trigger] refm.pairs()[j]).0 == k {
                exact_remaining(refm@, candm@, k)
            } else {
                count_of(candm@, k)
            }),
        decreases n - i,
    {
        let r = refm.key_at(i);
        let need = *refm.value_at(i);
        proof {
            lemma_counts_wf_entry(refm, i as int);
            assert forall|j: int| 0 <= j < i implies (#[trigger] refm.pairs()[j]).0 != r by {}
            assert(count_of(remaining@, r) == count_of(candm@, r));
        }
        let avail = remaining.get_count(r);
        let used = if need <= avail {
            need
        } else {
            avail
        };
        proof {
            if candm@.dom().contains(r) {
                lemma_map_of_domain(candm.pairs(), r);
                let j = choose|j: int|
                    0 <= j < candm.pairs().len() && candm.pairs()[j].0 == r;
                lemma_counts_wf_entry(candm, j);
            }
        }
        let ghost before = remaining@;
        if used > 0 {
            remaining.add_count(r, 0 - used);
        }
        lefts.push(need - used);
        proof {
            assert forall|k: i64| #[trigger] count_of(remaining@, k) == (if exists|j: int|
                0 <= j < i + 1 && (#[trigger] refm.pairs()[j]).0 == k {
                exact_remaining(refm@, candm@, k)
            } else {
                count_of(candm@, k)
            }) by {
                if k == r {
                    assert(refm.pairs()[i as int].0 == k);
                    assert(count_of(remaining@, k) == count_of(before, k) - used);
                } else {
                    assert(count_of(remaining@, k) == count_of(before, k));
                    assert((exists|j: int| 0 <= j < i + 1 && (#[trigger] refm.pairs()[j]).0 == k)
                        <==> (exists|j: int| 0 <= j < i && (#[trigger] refm.pairs()[j]).0 == k));
                }
            }
        }
        i = i + 1;
    }
    proof {
        assert forall|k: i64| #[trigger] count_of(remaining@, k) == exact_remaining(
            refm@,
            candm@,
            k,
        ) by {
            lemma_map_of_domain(refm.pairs(), k);
            if exists|j: int| 0 <= j < n && (#[trigger] refm.pairs()[j]).0 == k {
            } else {
                assert(!refm@.dom().contains(k));
                assert(count_of(refm@, k) == 0);
            }
        }
    }
    (remaining, lefts)
}

/// Second stage for one reference module `r` with `left0` unmatched
/// instances: walk its ordered edge list, consuming candidate quantity that
/// remains at each edge's target. Zero-distance targets satisfy silently;
/// upgrades and downgrades are recorded per candidate id.
fn consume_variations(
    remaining: &mut AssocVec<i64>,
    r: TypeID,
    left0: i64,
    edges: &Vec<Variation>,
    Ghost(refm): Ghost<Map<i64, i64>>,
    Ghost(candm): Ghost<Map<i64, i64>>,
    Ghost(graph): Ghost<Map<i64, Seq<Variation>>>,
) -> (res: (AssocVec<i64>, AssocVec<i64>, i64))
    requires
        old(remaining).wf(),
        forall|k: i64| 0 <= #[trigger] count_of(old(remaining)@, k) <= exact_remaining(
            refm,
            candm,
            k,
        ),
        0 <= left0 <= MAX_ITEM_COUNT,
        graph.dom().contains(r),
        graph[r] == edges@,
        forall|i: int| 0 <= i < edges@.len() ==> (#[trigger] edges@[i]).from == r,
        forall|k: i64| 0 <= #[trigger] count_of(refm, k),
        forall|k: i64| 0 <= #[trigger] count_of(candm, k) <= MAX_ITEM_COUNT,
    ensures
        final(remaining).wf(),
        forall|k: i64| 0 <= #[trigger] count_of(final(remaining)@, k) <= count_of(
            old(remaining)@,
            k,
        ),
        forall|k: i64| count_of(final(remaining)@, k) < count_of(old(remaining)@, k)
            ==> exists|d: int| has_edge(graph, r, k, d),
        final(remaining).pairs().len() == old(remaining).pairs().len(),
        ({
            let (down, up, left) = res;
            &&& down.wf()
            &&& up.wf()
            &&& 0 <= left <= left0
            &&& forall|k: i64| #[trigger] down@.dom().contains(k) ==> (candm.dom().contains(k)
                && 1 <= count_of(down@, k) && exists|d: int| d < 0 && has_edge(graph, r, k, d))
            &&& forall|k: i64| #[trigger] up@.dom().contains(k) ==> (candm.dom().contains(k) && 1
                <= count_of(up@, k) && exists|d: int| d > 0 && has_edge(graph, r, k, d))
            &&& forall|j: int| 0 <= j < down.pairs().len() ==> 1 <= (
            #[trigger] down.pairs()[j]).1 <= MAX_ITEM_COUNT
            &&& forall|j: int| 0 <= j < up.pairs().len() ==> 1 <= (#[trigger] up.pairs()[j]).1
                <= MAX_ITEM_COUNT
            &&& left + sum_counts(down.pairs()) + sum_counts(up.pairs()) <= left0
            &&& left + sum_counts(down.pairs()) + sum_counts(up.pairs()) >= left0
                - sum_target_remaining(edges@, refm, candm)
        }),
{
    let m = edges.len();
    let mut down: AssocVec<i64> = AssocVec::new();
    let mut up: AssocVec<i64> = AssocVec::new();
    let mut left = left0;
    let mut w: usize = 0;
    while w < m && left > 0
        invariant
            w <= m,
            m == edges@.len(),
            remaining.wf(),
            remaining.pairs().len() == old(remaining).pairs().len(),
            forall|k: i64| 0 <= #[trigger] count_of(remaining@, k) <= count_of(
                old(remaining)@,
                k,
            ),
            forall|k: i64| count_of(old(remaining)@, k) <= exact_remaining(refm, candm, k),
            forall|k: i64| count_of(remaining@, k) < count_of(old(remaining)@, k)
                ==> exists|d: int| has_edge(graph, r, k, d),
            graph.dom().contains(r),
            graph[r] == edges@,
            forall|i: int| 0 <= i < edges@.len() ==> (#[trigger] edges@[i]).from == r,
            forall|k: i64| 0 <= #[trigger] count_of(refm, k),
            forall|k: i64| 0 <= #[trigger] count_of(candm, k) <= MAX_ITEM_COUNT,
            down.wf(),
            up.wf(),
            0 <= left <= left0 <= MAX_ITEM_COUNT,
            forall|k: i64| #[trigger] down@.dom().contains(k) ==> (candm.dom().contains(k) && 1
                <= count_of(down@, k) && exists|d: int| d < 0 && has_edge(graph, r, k, d)),
            forall|k: i64| #[trigger] up@.dom().contains(k) ==> (candm.dom().contains(k) && 1
                <= count_of(up@, k) && exists|d: int| d > 0 && has_edge(graph, r, k, d)),
            forall|j: int| 0 <= j < down.pairs().len() ==> 1 <= (#[trigger] down.pairs()[j]).1
                <= MAX_ITEM_COUNT,
            forall|j: int| 0 <= j < up.pairs().len() ==> 1 <= (#[trigger] up.pairs()[j]).1
                <= MAX_ITEM_COUNT,
            left + sum_counts(down.pairs()) + sum_counts(up.pairs()) <= left0,
            left + sum_counts(down.pairs()) + sum_counts(up.pairs()) >= left0
                - sum_target_remaining(edges@.take(w as int), refm, candm),
        decreases m - w,
    {
        let e = edges[w];
        proof {
            assert(edges@.take(w + 1).drop_last() =~= edges@.take(w as int));
            assert(edges@.take(w + 1).last() == e);
        }
        let avail = remaining.get_count(e.to);
        let used = if left <= avail {
            left
        } else {
            avail
        };
        if used > 0 {
            proof {
                assert(has_edge(graph, r, e.to, e.meta_diff as int)) by {
                    assert(graph[r][w as int] == e);
                }
                assert(count_of(remaining@, e.to) > 0);
                assert(count_of(remaining@, e.to) <= count_of(old(remaining)@, e.to));
                assert(count_of(old(remaining)@, e.to) <= exact_remaining(refm, candm, e.to));
                assert(count_of(candm, e.to) > 0);
                assert(candm.dom().contains(e.to));
            }
            let ghost rem_before = remaining@;
            remaining.add_count(e.to, 0 - used);
            proof {
                assert(rem_before.dom().contains(e.to));
                assert forall|k: i64|
                    0 <= #[trigger] count_of(remaining@, k) <= count_of(
                        old(remaining)@,
                        k,
                    ) by {
                    if k == e.to {
                        assert(count_of(remaining@, k) == count_of(rem_before, k) - used);
                    } else {
                        assert(count_of(remaining@, k) == count_of(rem_before, k));
                    }
                }
                assert forall|k: i64|
                    count_of(remaining@, k) < count_of(old(remaining)@, k) implies exists|d: int|
                    has_edge(graph, r, k, d) by {
                    if k == e.to {
                        assert(has_edge(graph, r, k, e.meta_diff as int));
                    } else {
                        assert(count_of(remaining@, k) == count_of(rem_before, k));
                    }
                }
            }
            left = left - used;
            if e.meta_diff > 0 {
                let ghost old_up = up@;
                proof {
                    if up@.dom().contains(e.to) {
                        lemma_map_of_domain(up.pairs(), e.to);
                        let j = choose|j: int|
                            0 <= j < up.pairs().len() && up.pairs()[j].0 == e.to;
                        lemma_map_of_index(up.pairs(), j);
                    }
                }
                up.add_count(e.to, used);
                proof {
                    assert forall|k: i64| #[trigger] up@.dom().contains(k) implies (
                    candm.dom().contains(k) && 1 <= count_of(up@, k) && exists|d: int|
                        d > 0 && has_edge(graph, r, k, d)) by {
                        if k != e.to {
                            assert(old_up.dom().contains(k));
                            assert(count_of(up@, k) == count_of(old_up, k));
                        } else {
                            assert(count_of(up@, k) == count_of(old_up, k) + used);
                            assert(count_of(old_up, k) >= 0);
                            assert(has_edge(graph, r, k, e.meta_diff as int));
                        }
                    }
                    assert forall|t: int| 0 <= t < up.pairs().len() implies (
                    #[trigger] up.pairs()[t]).1 >= 1 by {
                        lemma_map_of_index(up.pairs(), t);
                        assert(up@.dom().contains(up.pairs()[t].0));
                        assert(1 <= count_of(up@, up.pairs()[t].0));
                    }
                    assert(left + sum_counts(down.pairs()) + sum_counts(up.pairs()) <= left0);
                    assert forall|t: int| 0 <= t < up.pairs().len() implies 1 <= (
                    #[trigger] up.pairs()[t]).1 <= MAX_ITEM_COUNT by {
                        lemma_sum_counts_nonneg(down.pairs());
                        lemma_sum_counts_entry(up.pairs(), t);
                    }
                }
            } else if e.meta_diff < 0 {
                let ghost old_down = down@;
                proof {
                    if down@.dom().contains(e.to) {
                        lemma_map_of_domain(down.pairs(), e.to);
                        let j = choose|j: int|
                            0 <= j < down.pairs().len() && down.pairs()[j].0 == e.to;
                        lemma_map_of_index(down.pairs(), j);
                    }
                }
                down.add_count(e.to, used);
                proof {
                    assert forall|k: i64| #[trigger] down@.dom().contains(k) implies (
                    candm.dom().contains(k) && 1 <= count_of(down@, k) && exists|d: int|
                        d < 0 && has_edge(graph, r, k, d)) by {
                        if k != e.to {
                            assert(old_down.dom().contains(k));
                            assert(count_of(down@, k) == count_of(old_down, k));
                        } else {
                            assert(count_of(down@, k) == count_of(old_down, k) + used);
                            assert(count_of(old_down, k) >= 0);
                            assert(has_edge(graph, r, k, e.meta_diff as int));
                        }
                    }
                    assert forall|t: int| 0 <= t < down.pairs().len() implies (
                    #[trigger] down.pairs()[t]).1 >= 1 by {
                        lemma_map_of_index(down.pairs(), t);
                        assert(down@.dom().contains(down.pairs()[t].0));
                        assert(1 <= count_of(down@, down.pairs()[t].0));
                    }
                    assert(left + sum_counts(down.pairs()) + sum_counts(up.pairs()) <= left0);
                    assert forall|t: int| 0 <= t < down.pairs().len() implies 1 <= (
                    #[trigger] down.pairs()[t]).1 <= MAX_ITEM_COUNT by {
                        lemma_sum_counts_nonneg(up.pairs());
                        lemma_sum_counts_entry(down.pairs(), t);
                    }
                }
            }
        }
        w = w + 1;
    }
    proof {
        if w < m {
            assert(left == 0);
            lemma_sum_target_prefix(edges@, refm, candm, w as int);
        } else {
            assert(edges@.take(m as int) =~= edges@);
        }
    }
    (down, up, left)
}

/// The categorized difference between a reference loadout and a candidate.
/// Keys of `module_downgraded` and `module_upgraded` are the reference
/// module; inner keys are the candidate module fitted in its place. A
/// reference module instance is attributed to exactly one of missing,
/// downgraded, upgraded or satisfied; `module_missing` and `module_extra`
/// never share an id.
pub struct DiffResult {
    pub module_missing: AssocVec<i64>,
    pub module_extra: AssocVec<i64>,
    pub module_downgraded: AssocVec<AssocVec<i64>>,
    pub module_upgraded: AssocVec<AssocVec<i64>>,
    pub cargo_missing: AssocVec<i64>,
}

/// Well-formed substitution table: sorted outer and inner maps, no empty
/// inner map, every count in range, and bounded totals per reference module.
pub open spec fn nested_wf(m: &AssocVec<AssocVec<i64>>) -> bool {
    &&& m.wf()
    &&& m.pairs().len() <= MAX_DISTINCT_ITEMS
    &&& forall|k: i64| #[trigger] m@.dom().contains(k) ==> {
        &&& m@[k].wf()
        &&& 1 <= m@[k].pairs().len() <= MAX_DISTINCT_ITEMS
        &&& (forall|j: int| 0 <= j < m@[k].pairs().len() ==> 1 <= (#[trigger] m@[k].pairs()[j]).1
            <= MAX_ITEM_COUNT)
        &&& sum_counts(m@[k].pairs()) <= MAX_ITEM_COUNT
    }
}

impl DiffResult {
    pub open spec fn wf(&self) -> bool {
        &&& counts_wf(&self.module_missing)
        &&& counts_wf(&self.module_extra)
        &&& counts_wf(&self.cargo_missing)
        &&& nested_wf(&self.module_downgraded)
        &&& nested_wf(&self.module_upgraded)
    }

    /// An empty difference: the candidate satisfied the reference entirely.
    pub fn empty() -> (r: DiffResult)
        ensures
            r.wf(),
            r.module_missing@ == Map::<i64, i64>::empty(),
            r.module_extra@ == Map::<i64, i64>::empty(),
            r.module_downgraded@ == Map::<i64, AssocVec<i64>>::empty(),
            r.module_upgraded@ == Map::<i64, AssocVec<i64>>::empty(),
            r.cargo_missing@ == Map::<i64, i64>::empty(),
    {
        DiffResult {
            module_missing: AssocVec::new(),
            module_extra: AssocVec::new(),
            module_downgraded: AssocVec::new(),
            module_upgraded: AssocVec::new(),
            cargo_missing: AssocVec::new(),
        }
    }
}

/// What [`FitDiffer::diff`] guarantees of its result, relative to the
/// reference, the candidate and the variation snapshot.
///
/// Missing quantities never exceed what identical matching left unsatisfied;
/// extra quantities never exceed what identical matching left unconsumed,
/// and are exact for candidate modules no variation edge can reach.
/// Substitution tables only pair a reference module with a candidate module
/// the graph connects to it, with the matching sign. Per reference module,
/// missing plus recorded substitutions stay within the unsatisfied quantity,
/// and cannot undercut it by more than the connected candidate supply. Cargo
/// shortfalls are exact, outside the ignore set.
pub open spec fn diff_conforms(
    reference: &Fitting,
    candidate: &Fitting,
    v: &Variator,
    d: &DiffResult,
) -> bool {
    let refm = reference.modules@;
    let candm = candidate.modules@;
    let refc = reference.cargo@;
    let candc = candidate.cargo@;
    let graph = v.graph();
    let ignore = v.cargo_ignore@;
    &&& forall|k: i64| #[trigger] d.module_missing@.dom().contains(k) ==> (refm.dom().contains(k)
        && 1 <= count_of(d.module_missing@, k) <= exact_left(refm, candm, k))
    &&& forall|k: i64| #[trigger] d.module_extra@.dom().contains(k) ==> (candm.dom().contains(k)
        && 1 <= count_of(d.module_extra@, k) <= exact_remaining(refm, candm, k))
    &&& forall|k: i64|
        candm.dom().contains(k) && (forall|a: i64, dd: int|
            refm.dom().contains(a) ==> !(#[trigger] has_edge(graph, a, k, dd))) ==> (
        #[trigger] count_of(d.module_extra@, k)) == exact_remaining(refm, candm, k)
    &&& forall|k: i64| #[trigger] d.module_downgraded@.dom().contains(k) ==> (refm.dom().contains(
        k,
    ) && forall|t: i64| #[trigger] d.module_downgraded@[k]@.dom().contains(t) ==> (
    candm.dom().contains(t) && exists|dd: int| dd < 0 && has_edge(graph, k, t, dd)))
    &&& forall|k: i64| #[trigger] d.module_upgraded@.dom().contains(k) ==> (refm.dom().contains(k)
        && forall|t: i64| #[trigger] d.module_upgraded@[k]@.dom().contains(t) ==> (
    candm.dom().contains(t) && exists|dd: int| dd > 0 && has_edge(graph, k, t, dd)))
    &&& forall|k: i64| #[trigger] refm.dom().contains(k) ==> count_of(d.module_missing@, k)
        + nested_sum_at(&d.module_downgraded, k) + nested_sum_at(&d.module_upgraded, k)
        <= exact_left(refm, candm, k)
    &&& forall|k: i64| #[trigger] refm.dom().contains(k) ==> count_of(d.module_missing@, k)
        + nested_sum_at(&d.module_downgraded, k) + nested_sum_at(&d.module_upgraded, k)
        >= exact_left(refm, candm, k) - (if graph.dom().contains(k) {
        sum_target_remaining(graph[k], refm, candm)
    } else {
        0
    })
    &&& forall|k: i64| #[trigger] refc.dom().contains(k) ==> (d.cargo_missing@.dom().contains(k)
        <==> (!ignore.contains(k) && count_of(refc, k) > count_of(candc, k)))
    &&& forall|k: i64| #[trigger] d.cargo_missing@.dom().contains(k) ==> (refc.dom().contains(k)
        && count_of(d.cargo_missing@, k) == count_of(refc, k) - count_of(candc, k))
}

/// The target sum over a prefix of the edge list never exceeds the sum over
/// the whole list, since every summand is nonnegative.
proof fn lemma_sum_target_prefix(
    edges: Seq<Variation>,
    refm: Map<i64, i64>,
    candm: Map<i64, i64>,
    w: int,
)
    requires
        0 <= w <= edges.len(),
    ensures
        sum_target_remaining(edges.take(w), refm, candm) <= sum_target_remaining(
            edges,
            refm,
            candm,
        ),
    decreases edges.len() - w,
{
    if w == edges.len() {
        assert(edges.take(w) =~= edges);
    } else {
        lemma_sum_target_prefix(edges, refm, candm, w + 1);
        assert(edges.take(w + 1).drop_last() =~= edges.take(w));
        assert(edges.take(w + 1).last() == edges[w]);
        assert(exact_remaining(refm, candm, edges[w].to) >= 0);
        assert(sum_target_remaining(edges.take(w), refm, candm) <= sum_target_remaining(
            edges.take(w + 1),
            refm,
            candm,
        ));
    }
}

/// Collects the candidate quantities that nothing consumed.
fn collect_extra(remaining: &AssocVec<i64>) -> (r: AssocVec<i64>)
    requires
        remaining.wf(),
    ensures
        r.wf(),
        r.pairs().len() <= remaining.pairs().len(),
        forall|k: i64| #[trigger] count_of(r@, k) == (if count_of(remaining@, k) > 0 {
            count_of(remaining@, k)
        } else {
            0
        }),
        forall|k: i64| #[trigger] r@.dom().contains(k) ==> (remaining@.dom().contains(k)
            && count_of(remaining@, k) > 0),
{
    let n = remaining.len();
    let mut extra: AssocVec<i64> = AssocVec::new();
    let mut j: usize = 0;
    while j < n
        invariant
            j <= n,
            n == remaining.pairs().len(),
            remaining.wf(),
            extra.wf(),
            extra.pairs().len() <= j,
            forall|j2: int| 0 <= j2 < j && (#[trigger] remaining.pairs()[j2]).1 > 0
                ==> count_of(extra@, remaining.pairs()[j2].0) == remaining.pairs()[j2].1,
            forall|k: i64| #[trigger] extra@.dom().contains(k) ==> exists|j2: int|
                0 <= j2 < j && (#[trigger] remaining.pairs()[j2]).0 == k
                    && remaining.pairs()[j2].1 > 0,
        decreases n - j,
    {
        let k = remaining.key_at(j);
        let val = *remaining.value_at(j);
        proof {
            assert forall|j2: int| 0 <= j2 < j implies (#[trigger] remaining.pairs()[j2]).0
                != k by {}
        }
        if val > 0 {
            extra.insert(k, val);
            proof {
                assert forall|j2: int|
                    0 <= j2 < j + 1 && (#[trigger] remaining.pairs()[j2]).1 > 0
                        implies count_of(extra@, remaining.pairs()[j2].0)
                    == remaining.pairs()[j2].1 by {
                    if j2 < j {
                        assert(remaining.pairs()[j2].0 != k);
                    }
                }
            }
        }
        j = j + 1;
    }
    proof {
        assert forall|k: i64| #[trigger] count_of(extra@, k) == (if count_of(remaining@, k) > 0 {
            count_of(remaining@, k)
        } else {
            0
        }) by {
            lemma_map_of_domain(remaining.pairs(), k);
            if remaining@.dom().contains(k) {
                let j2 = choose|j2: int|
                    0 <= j2 < remaining.pairs().len() && remaining.pairs()[j2].0 == k;
                lemma_map_of_index(remaining.pairs(), j2);
                if remaining.pairs()[j2].1 <= 0 {
                    if extra@.dom().contains(k) {
                        let j3 = choose|j3: int|
                            0 <= j3 < n && (#[trigger] remaining.pairs()[j3]).0 == k
                                && remaining.pairs()[j3].1 > 0;
                        assert(j3 == j2);
                    }
                }
            } else {
                if extra@.dom().contains(k) {
                    let j3 = choose|j3: int|
                        0 <= j3 < n && (#[trigger] remaining.pairs()[j3]).0 == k
                            && remaining.pairs()[j3].1 > 0;
                    lemma_map_of_index(remaining.pairs(), j3);
                }
            }
        }
        assert forall|k: i64| #[trigger] extra@.dom().contains(k) implies (
        remaining@.dom().contains(k) && count_of(remaining@, k) > 0) by {
            let j3 = choose|j3: int|
                0 <= j3 < n && (#[trigger] remaining.pairs()[j3]).0 == k
                    && remaining.pairs()[j3].1 > 0;
            lemma_map_of_index(remaining.pairs(), j3);
        }
    }
    extra
}

/// Compares cargo by exact id: reference quantity not met by the candidate
/// is a shortfall, except for ids in the ignore set.
fn cargo_shortfalls(refc: &AssocVec<i64>, candc: &AssocVec<i64>, ignore: &IdSet) -> (r: AssocVec<
    i64,
>)
    requires
        counts_wf(refc),
        counts_wf(candc),
        ignore.wf(),
    ensures
        counts_wf(&r),
        forall|k: i64| #[trigger] refc@.dom().contains(k) ==> (r@.dom().contains(k) <==> (
        !ignore@.contains(k) && count_of(refc@, k) > count_of(candc@, k))),
        forall|k: i64| #[trigger] r@.dom().contains(k) ==> (refc@.dom().contains(k) && count_of(
            r@,
            k,
        ) == count_of(refc@, k) - count_of(candc@, k)),
{
    let n = refc.len();
    let mut out: AssocVec<i64> = AssocVec::new();
    let mut j: usize = 0;
    while j < n
        invariant
            j <= n,
            n == refc.pairs().len(),
            counts_wf(refc),
            counts_wf(candc),
            ignore.wf(),
            out.wf(),
            out.pairs().len() <= j,
            forall|t: int| 0 <= t < out.pairs().len() ==> 1 <= (#[trigger] out.pairs()[t]).1
                <= MAX_ITEM_COUNT,
            forall|j2: int| 0 <= j2 < j ==> ((#[trigger] out@.dom().contains(
                refc.pairs()[j2].0,
            )) <==> (!ignore@.contains(refc.pairs()[j2].0) && refc.pairs()[j2].1 > count_of(
                candc@,
                refc.pairs()[j2].0,
            ))),
            forall|k: i64| #[trigger] out@.dom().contains(k) ==> (exists|j2: int|
                0 <= j2 < j && (#[trigger] refc.pairs()[j2]).0 == k) && count_of(out@, k)
                == count_of(refc@, k) - count_of(candc@, k),
        decreases n - j,
    {
        let k = refc.key_at(j);
        let refct = *refc.value_at(j);
        proof {
            lemma_counts_wf_entry(refc, j as int);
            assert forall|j2: int| 0 <= j2 < j implies (#[trigger] refc.pairs()[j2]).0 != k by {}
            if candc@.dom().contains(k) {
                lemma_map_of_domain(candc.pairs(), k);
                let j3 = choose|j3: int| 0 <= j3 < candc.pairs().len() && candc.pairs()[j3].0 == k;
                lemma_counts_wf_entry(candc, j3);
            }
        }
        if !ignore.contains(k) {
            let candct = candc.get_count(k);
            if refct > candct {
                out.insert(k, refct - candct);
                proof {
                    assert forall|t: int|
                        0 <= t < out.pairs().len() implies 1 <= (#[trigger] out.pairs()[t]).1
                        <= MAX_ITEM_COUNT by {
                        lemma_map_of_index(out.pairs(), t);
                        assert(out@.dom().contains(out.pairs()[t].0));
                        assert(count_of(out@, out.pairs()[t].0) == out.pairs()[t].1);
                    }
                }
            }
        }
        j = j + 1;
    }
    proof {
        assert forall|k: i64| #[trigger] refc@.dom().contains(k) implies (out@.dom().contains(k)
            <==> (!ignore@.contains(k) && count_of(refc@, k) > count_of(candc@, k))) by {
            lemma_map_of_domain(refc.pairs(), k);
            let j2 = choose|j2: int| 0 <= j2 < refc.pairs().len() && refc.pairs()[j2].0 == k;
            lemma_map_of_index(refc.pairs(), j2);
        }
        assert forall|k: i64| #[trigger] out@.dom().contains(k) implies refc@.dom().contains(
            k,
        ) by {
            let j2 = choose|j2: int|
                0 <= j2 < refc.pairs().len() && (#[trigger] refc.pairs()[j2]).0 == k;
            lemma_map_of_index(refc.pairs(), j2);
        }
        assert forall|k: i64| #[trigger] out@.dom().contains(k) implies 1 <= out@[k]
            <= MAX_ITEM_COUNT by {
            lemma_map_of_domain(out.pairs(), k);
            let t = choose|t: int| 0 <= t < out.pairs().len() && out.pairs()[t].0 == k;
            lemma_map_of_index(out.pairs(), t);
        }
    }
    out
}

/// The structural differ.
pub struct FitDiffer;

impl FitDiffer {
    /// Compares `candidate` against `reference` (sharing the same hull, which
    /// is the match key and is not diffed) over the variation snapshot.
    pub fn diff(reference: &Fitting, candidate: &Fitting, v: &Variator) -> (d: DiffResult)
        requires
            reference.wf(),
            candidate.wf(),
            v.wf(),
            reference.hull == candidate.hull,
        ensures
            d.wf(),
            diff_conforms(reference, candidate, v, &d),
    {
        let ghost refp = reference.modules.pairs();
        let ghost refm = reference.modules@;
        let ghost candm = candidate.modules@;
        let ghost graph = v.graph();
        proof {
            assert forall|k: i64| 0 <= #[trigger] count_of(refm, k) <= MAX_ITEM_COUNT by {
                if refm.dom().contains(k) {
                    assert(1 <= refm[k] <= MAX_ITEM_COUNT);
                }
            }
            assert forall|k: i64| 0 <= #[trigger] count_of(candm, k) <= MAX_ITEM_COUNT by {
                if candm.dom().contains(k) {
                    assert(1 <= candm[k] <= MAX_ITEM_COUNT);
                }
            }
        }
        let (mut remaining, lefts) = consume_exact(&reference.modules, &candidate.modules);
        let mut missing: AssocVec<i64> = AssocVec::new();
        let mut down: AssocVec<AssocVec<i64>> = AssocVec::new();
        let mut up: AssocVec<AssocVec<i64>> = AssocVec::new();
        let n = reference.modules.len();
        let mut i: usize = 0;
        while i < n
            invariant
                i <= n,
                n == refp.len(),
                reference.wf(),
                candidate.wf(),
                v.wf(),
                refp == reference.modules.pairs(),
                refm == reference.modules@,
                candm == candidate.modules@,
                graph == v.graph(),
                forall|k: i64| 0 <= #[trigger] count_of(refm, k) <= MAX_ITEM_COUNT,
                forall|k: i64| 0 <= #[trigger] count_of(candm, k) <= MAX_ITEM_COUNT,
                lefts@.len() == n,
                forall|j: int| 0 <= j < n ==> lefts@[j] as int == exact_left(
                    refm,
                    candm,
                    (#[trigger] refp[j]).0,
                ),
                remaining.wf(),
                forall|k: i64| 0 <= #[trigger] count_of(remaining@, k) <= exact_remaining(
                    refm,
                    candm,
                    k,
                ),
                forall|k: i64| count_of(remaining@, k) < exact_remaining(refm, candm, k)
                    ==> exists|a: i64, dd: int|
                    refm.dom().contains(a) && #[trigger] has_edge(graph, a, k, dd),
                missing.wf(),
                missing.pairs().len() <= i,
                forall|k: i64| #[trigger] missing@.dom().contains(k) ==> (refm.dom().contains(k)
                    && 1 <= count_of(missing@, k) <= exact_left(refm, candm, k) && exists|j: int|
                    0 <= j < i && (#[trigger] refp[j]).0 == k),
                down.wf(),
                down.pairs().len() <= i,
                forall|k: i64| #[trigger] down@.dom().contains(k) ==> (refm.dom().contains(k) && (
                exists|j: int| 0 <= j < i && (#[trigger] refp[j]).0 == k) && down@[k].wf() && 1
                    <= down@[k].pairs().len() <= MAX_DISTINCT_ITEMS && (forall|t: int|
                    0 <= t < down@[k].pairs().len() ==> 1 <= (#[trigger] down@[k].pairs()[t]).1
                        <= MAX_ITEM_COUNT) && sum_counts(down@[k].pairs()) <= MAX_ITEM_COUNT && (
                forall|t: i64| #[trigger] down@[k]@.dom().contains(t) ==> (candm.dom().contains(t)
                    && exists|dd: int| dd < 0 && has_edge(graph, k, t, dd)))),
                up.wf(),
                up.pairs().len() <= i,
                forall|k: i64| #[trigger] up@.dom().contains(k) ==> (refm.dom().contains(k) && (
                exists|j: int| 0 <= j < i && (#[trigger] refp[j]).0 == k) && up@[k].wf() && 1
                    <= up@[k].pairs().len() <= MAX_DISTINCT_ITEMS && (forall|t: int|
                    0 <= t < up@[k].pairs().len() ==> 1 <= (#[trigger] up@[k].pairs()[t]).1
                        <= MAX_ITEM_COUNT) && sum_counts(up@[k].pairs()) <= MAX_ITEM_COUNT && (
                forall|t: i64| #[trigger] up@[k]@.dom().contains(t) ==> (candm.dom().contains(t)
                    && exists|dd: int| dd > 0 && has_edge(graph, k, t, dd)))),
                forall|j: int| 0 <= j < i ==> (count_of(missing@, (#[trigger] refp[j]).0)
                    + nested_sum_at(&down, refp[j].0) + nested_sum_at(&up, refp[j].0)
                    <= exact_left(refm, candm, refp[j].0)),
                forall|j: int| 0 <= j < i ==> (count_of(missing@, (#[trigger] refp[j]).0)
                    + nested_sum_at(&down, refp[j].0) + nested_sum_at(&up, refp[j].0)
                    >= exact_left(refm, candm, refp[j].0) - (if graph.dom().contains(refp[j].0) {
                    sum_target_remaining(graph[refp[j].0], refm, candm)
                } else {
                    0
                })),
            decreases n - i,
        {
            let ki = reference.modules.key_at(i);
            let left0 = lefts[i];
            proof {
                lemma_counts_wf_entry(&reference.modules, i as int);
                assert(lefts@[i as int] as int == exact_left(refm, candm, ki));
                assert(0 <= left0 <= MAX_ITEM_COUNT);
                assert forall|j: int| 0 <= j < i implies (#[trigger] refp[j]).0 != ki by {}
                assert(!missing@.dom().contains(ki));
                assert(!down@.dom().contains(ki));
                assert(!up@.dom().contains(ki));
            }
            let ghost miss_before = missing@;
            let ghost down_before = down@;
            let ghost up_before = up@;
            let edge_result = match v.get(ki) {
                Some(edges) => {
                    proof {
                        assert forall|t: int|
                            0 <= t < edges@.len() implies (#[trigger] edges@[t]).from == ki by {
                            assert(graph[ki][t].from == ki);
                        }
                    }
                    let (d_i, u_i, new_left) = consume_variations(
                        &mut remaining,
                        ki,
                        left0,
                        edges,
                        Ghost(refm),
                        Ghost(candm),
                        Ghost(graph),
                    );
                    proof {
                        lemma_sum_counts_nonneg(d_i.pairs());
                        lemma_sum_counts_nonneg(u_i.pairs());
                        assert forall|k: i64| map_of(d_i.pairs()).dom().contains(k)
                            implies #[trigger] map_of(
                            candidate.modules.pairs(),
                        ).dom().contains(k) by {
                            assert(d_i@.dom().contains(k));
                            assert(candm.dom().contains(k));
                        }
                        assert forall|k: i64| map_of(u_i.pairs()).dom().contains(k)
                            implies #[trigger] map_of(
                            candidate.modules.pairs(),
                        ).dom().contains(k) by {
                            assert(u_i@.dom().contains(k));
                            assert(candm.dom().contains(k));
                        }
                        lemma_pairs_len_le(d_i.pairs(), candidate.modules.pairs());
                        lemma_pairs_len_le(u_i.pairs(), candidate.modules.pairs());
                    }
                    (d_i, u_i, new_left)
                },
                None => {
                    proof {
                        assert(!graph.dom().contains(ki));
                    }
                    (AssocVec::new(), AssocVec::new(), left0)
                },
            };
            let (d_i, u_i, new_left) = edge_result;
            if d_i.len() > 0 {
                down.insert(ki, d_i);
            }
            if u_i.len() > 0 {
                up.insert(ki, u_i);
            }
            if new_left > 0 {
                missing.insert(ki, new_left);
            }
            proof {
                assert forall|k: i64| #[trigger] missing@.dom().contains(k) implies (
                refm.dom().contains(k) && 1 <= count_of(missing@, k) <= exact_left(refm, candm, k)
                    && exists|j: int| 0 <= j < i + 1 && (#[trigger] refp[j]).0 == k) by {
                    if k == ki {
                        assert(refp[i as int].0 == k);
                        assert(count_of(missing@, k) == new_left);
                    } else {
                        assert(miss_before.dom().contains(k));
                        assert(count_of(missing@, k) == count_of(miss_before, k));
                    }
                }
                assert forall|k: i64| #[trigger] down@.dom().contains(k) implies (
                refm.dom().contains(k) && (exists|j: int|
                    0 <= j < i + 1 && (#[trigger] refp[j]).0 == k) && down@[k].wf() && 1
                    <= down@[k].pairs().len() <= MAX_DISTINCT_ITEMS && (forall|t: int|
                    0 <= t < down@[k].pairs().len() ==> 1 <= (#[trigger] down@[k].pairs()[t]).1
                        <= MAX_ITEM_COUNT) && sum_counts(down@[k].pairs()) <= MAX_ITEM_COUNT && (
                forall|t: i64| #[trigger] down@[k]@.dom().contains(t) ==> (candm.dom().contains(t)
                    && exists|dd: int| dd < 0 && has_edge(graph, k, t, dd)))) by {
                    if k == ki {
                        assert(refp[i as int].0 == k);
                        assert(down@[k] == d_i);
                    } else {
                        assert(down_before.dom().contains(k));
                        assert(down@[k] == down_before[k]);
                    }
                }
                assert forall|k: i64| #[trigger] up@.dom().contains(k) implies (
                refm.dom().contains(k) && (exists|j: int|
                    0 <= j < i + 1 && (#[trigger] refp[j]).0 == k) && up@[k].wf() && 1
                    <= up@[k].pairs().len() <= MAX_DISTINCT_ITEMS && (forall|t: int|
                    0 <= t < up@[k].pairs().len() ==> 1 <= (#[trigger] up@[k].pairs()[t]).1
                        <= MAX_ITEM_COUNT) && sum_counts(up@[k].pairs()) <= MAX_ITEM_COUNT && (
                forall|t: i64| #[trigger] up@[k]@.dom().contains(t) ==> (candm.dom().contains(t)
                    && exists|dd: int| dd > 0 && has_edge(graph, k, t, dd)))) by {
                    if k == ki {
                        assert(refp[i as int].0 == k);
                        assert(up@[k] == u_i);
                    } else {
                        assert(up_before.dom().contains(k));
                        assert(up@[k] == up_before[k]);
                    }
                }
                assert forall|j: int| 0 <= j < i + 1 implies (count_of(
                    missing@,
                    (#[trigger] refp[j]).0,
                ) + nested_sum_at(&down, refp[j].0) + nested_sum_at(&up, refp[j].0) <= exact_left(
                    refm,
                    candm,
                    refp[j].0,
                ) && count_of(missing@, refp[j].0) + nested_sum_at(&down, refp[j].0)
                    + nested_sum_at(&up, refp[j].0) >= exact_left(refm, candm, refp[j].0) - (
                if graph.dom().contains(refp[j].0) {
                    sum_target_remaining(graph[refp[j].0], refm, candm)
                } else {
                    0
                })) by {
                    let k = refp[j].0;
                    if j < i {
                        assert(k != ki);
                        assert(count_of(missing@, k) == count_of(miss_before, k));
                        assert(nested_sum_at(&down, k) == (if down_before.dom().contains(k) {
                            sum_counts(down_before[k].pairs())
                        } else {
                            0
                        }));
                        assert(nested_sum_at(&up, k) == (if up_before.dom().contains(k) {
                            sum_counts(up_before[k].pairs())
                        } else {
                            0
                        }));
                    } else {
                        assert(k == ki);
                        assert(count_of(missing@, k) == new_left);
                        assert(nested_sum_at(&down, k) == sum_counts(d_i.pairs()));
                        assert(nested_sum_at(&up, k) == sum_counts(u_i.pairs()));
                    }
                }
            }
            i = i + 1;
        }
        let extra = collect_extra(&remaining);
        let cargo_missing = cargo_shortfalls(
            &reference.cargo,
            &candidate.cargo,
            &v.cargo_ignore,
        );
        let result = DiffResult {
            module_missing: missing,
            module_extra: extra,
            module_downgraded: down,
            module_upgraded: up,
            cargo_missing,
        };
        proof {
            assert forall|k: i64| #[trigger] refm.dom().contains(k) implies (count_of(
                result.module_missing@,
                k,
            ) + nested_sum_at(&result.module_downgraded, k) + nested_sum_at(
                &result.module_upgraded,
                k,
            ) <= exact_left(refm, candm, k) && count_of(result.module_missing@, k)
                + nested_sum_at(&result.module_downgraded, k) + nested_sum_at(
                &result.module_upgraded,
                k,
            ) >= exact_left(refm, candm, k) - (if graph.dom().contains(k) {
                sum_target_remaining(graph[k], refm, candm)
            } else {
                0
            })) by {
                lemma_map_of_domain(refp, k);
                let j = choose|j: int| 0 <= j < refp.len() && (#[trigger] refp[j]).0 == k;
            }
            assert forall|k: i64| #[trigger] result.module_extra@.dom().contains(k) implies (
            candm.dom().contains(k) && 1 <= count_of(result.module_extra@, k) <= exact_remaining(
                refm,
                candm,
                k,
            )) by {
                assert(count_of(result.module_extra@, k) > 0);
            }
            assert forall|k: i64|
                candm.dom().contains(k) && (forall|a: i64, dd: int|
                    refm.dom().contains(a) ==> !(#[trigger] has_edge(graph, a, k, dd)))
                    implies (#[trigger] count_of(result.module_extra@, k)) == exact_remaining(
                refm,
                candm,
                k,
            ) by {
                assert(count_of(remaining@, k) == exact_remaining(refm, candm, k));
            }
            assert forall|k: i64| #[trigger] result.module_missing@.dom().contains(k) implies 1
                <= result.module_missing@[k] <= MAX_ITEM_COUNT by {
                assert(1 <= count_of(result.module_missing@, k));
                assert(count_of(result.module_missing@, k) <= exact_left(refm, candm, k));
            }
            assert forall|k: i64| #[trigger] result.module_extra@.dom().contains(k) implies 1
                <= result.module_extra@[k] <= MAX_ITEM_COUNT by {
                assert(1 <= count_of(result.module_extra@, k));
                assert(count_of(result.module_extra@, k) <= exact_remaining(refm, candm, k));
            }
            assert forall|k: i64| map_of(result.module_extra.pairs()).dom().contains(k)
                implies #[trigger] map_of(candidate.modules.pairs()).dom().contains(k) by {
                assert(result.module_extra@.dom().contains(k));
                assert(count_of(remaining@, k) > 0);
                assert(count_of(candm, k) > 0);
            }
            lemma_pairs_len_le(result.module_extra.pairs(), candidate.modules.pairs());
        }
        result
    }
}

/// No double counting: no item id is reported both missing and extra. An
/// exact quantity shortfall nets against surplus before either is reported.
pub proof fn lemma_no_double_counting(
    reference: &Fitting,
    candidate: &Fitting,
    v: &Variator,
    d: &DiffResult,
)
    requires
        diff_conforms(reference, candidate, v, d),
    ensures
        forall|k: i64| !(#[trigger] d.module_missing@.dom().contains(k)
            && d.module_extra@.dom().contains(k)),
{
    let refm = reference.modules@;
    let candm = candidate.modules@;
    assert forall|k: i64| !(#[trigger] d.module_missing@.dom().contains(k)
        && d.module_extra@.dom().contains(k)) by {
        if d.module_missing@.dom().contains(k) && d.module_extra@.dom().contains(k) {
            assert(1 <= count_of(d.module_missing@, k) <= exact_left(refm, candm, k));
            assert(1 <= count_of(d.module_extra@, k) <= exact_remaining(refm, candm, k));
            assert(exact_left(refm, candm, k) > 0 && exact_remaining(refm, candm, k) > 0);
        }
    }
}

/// A candidate whose modules equal the reference's, and whose cargo covers
/// the reference's cargo, produces an entirely empty module and cargo diff.
pub proof fn lemma_exact_match_clean(
    reference: &Fitting,
    candidate: &Fitting,
    v: &Variator,
    d: &DiffResult,
)
    requires
        d.wf(),
        diff_conforms(reference, candidate, v, d),
        reference.modules@ == candidate.modules@,
        forall|k: i64| #[trigger] count_of(reference.cargo@, k) <= count_of(candidate.cargo@, k),
    ensures
        d.module_missing@ =~= Map::<i64, i64>::empty(),
        d.module_extra@ =~= Map::<i64, i64>::empty(),
        d.module_downgraded@ =~= Map::<i64, AssocVec<i64>>::empty(),
        d.module_upgraded@ =~= Map::<i64, AssocVec<i64>>::empty(),
        d.cargo_missing@ =~= Map::<i64, i64>::empty(),
{
    let refm = reference.modules@;
    let candm = candidate.modules@;
    assert forall|k: i64| !(#[trigger] d.module_missing@.dom().contains(k)) by {
        if d.module_missing@.dom().contains(k) {
            assert(1 <= count_of(d.module_missing@, k) <= exact_left(refm, candm, k));
        }
    }
    assert forall|k: i64| !(#[trigger] d.module_extra@.dom().contains(k)) by {
        if d.module_extra@.dom().contains(k) {
            assert(1 <= count_of(d.module_extra@, k) <= exact_remaining(refm, candm, k));
        }
    }
    assert forall|k: i64| !(#[trigger] d.module_downgraded@.dom().contains(k)) by {
        if d.module_downgraded@.dom().contains(k) {
            assert(refm.dom().contains(k));
            assert(1 <= d.module_downgraded@[k].pairs().len());
            lemma_sum_counts_entry(d.module_downgraded@[k].pairs(), 0);
            assert(nested_sum_at(&d.module_downgraded, k) >= 1);
            assert(count_of(d.module_missing@, k) >= 0);
            if d.module_upgraded@.dom().contains(k) {
                lemma_sum_counts_entry(d.module_upgraded@[k].pairs(), 0);
            }
            assert(nested_sum_at(&d.module_upgraded, k) >= 0);
            assert(exact_left(refm, candm, k) == 0);
        }
    }
    assert forall|k: i64| !(#[trigger] d.module_upgraded@.dom().contains(k)) by {
        if d.module_upgraded@.dom().contains(k) {
            assert(refm.dom().contains(k));
            assert(1 <= d.module_upgraded@[k].pairs().len());
            lemma_sum_counts_entry(d.module_upgraded@[k].pairs(), 0);
            assert(nested_sum_at(&d.module_upgraded, k) >= 1);
            assert(count_of(d.module_missing@, k) >= 0);
            if d.module_downgraded@.dom().contains(k) {
                lemma_sum_counts_entry(d.module_downgraded@[k].pairs(), 0);
            }
            assert(nested_sum_at(&d.module_downgraded, k) >= 0);
            assert(exact_left(refm, candm, k) == 0);
        }
    }
    assert forall|k: i64| !(#[trigger] d.cargo_missing@.dom().contains(k)) by {
        if d.cargo_missing@.dom().contains(k) {
            assert(reference.cargo@.dom().contains(k));
            assert(count_of(reference.cargo@, k) > count_of(candidate.cargo@, k));
        }
    }
}

} // verus!
