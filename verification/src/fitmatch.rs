//! Best-match selection: scores a candidate loadout against every reference
//! fit registered for its hull and picks the closest one.

use vstd::prelude::*;

use crate::TypeID;
use crate::fitdiffer::{DiffResult, FitDiffer, diff_conforms, nested_wf};
use crate::fits::{FitData, fit_like};
use crate::fitting::{DoctrineFit, Fitting, MAX_DISTINCT_ITEMS, MAX_ITEM_COUNT, counts_wf};
use crate::idmap::{AssocVec, IdSet, lemma_map_of_index, sum_counts};
use crate::variations::Variator;

verus! {

/// Largest weight the scoring table may carry; keeps every score in `i64`.
pub const MAX_WEIGHT: i64 = 1000;

/// The scoring weights: one factor per diff category, and the multiplier for
/// modules in the identification set. A named table rather than inline
/// constants, so the heuristic can be tuned and tested in isolation.
pub struct ScoreWeights {
    pub missing: i64,
    pub extra: i64,
    pub downgraded: i64,
    pub upgraded: i64,
    pub identification: i64,
}

impl ScoreWeights {
    pub open spec fn wf(&self) -> bool {
        &&& 1 <= self.missing <= MAX_WEIGHT
        &&& 1 <= self.extra <= MAX_WEIGHT
        &&& 1 <= self.downgraded <= MAX_WEIGHT
        &&& 1 <= self.upgraded <= MAX_WEIGHT
        &&& 1 <= self.identification <= MAX_WEIGHT
    }
}

impl Default for ScoreWeights {
    /// The standard table: missing weighs 12, extra 8, downgraded 5,
    /// upgraded 1; identification items count a hundredfold.
    fn default() -> (r: ScoreWeights)
        ensures
            r.wf(),
            r.missing == 12,
            r.extra == 8,
            r.downgraded == 5,
            r.upgraded == 1,
            r.identification == 100,
    {
        ScoreWeights { missing: 12, extra: 8, downgraded: 5, upgraded: 1, identification: 100 }
    }
}

/// The weight factor of one module id: the identification multiplier for
/// members of the identification set, one otherwise.
pub open spec fn spec_multiplier(ident: Set<i64>, mult: int, k: i64) -> int {
    if ident.contains(k) {
        mult
    } else {
        1
    }
}

/// Score contributed by a flat count table.
pub open spec fn flat_score(s: Seq<(i64, i64)>, ident: Set<i64>, weight: int, mult: int) -> int
    decreases s.len(),
{
    if s.len() == 0 {
        0
    } else {
        flat_score(s.drop_last(), ident, weight, mult) + weight * s.last().1 * spec_multiplier(
            ident,
            mult,
            s.last().0,
        )
    }
}

/// Score contributed by a substitution table: each substitution counts by
/// quantity, weighted by the reference module's factor.
pub open spec fn nested_score(
    s: Seq<(i64, AssocVec<i64>)>,
    ident: Set<i64>,
    weight: int,
    mult: int,
) -> int
    decreases s.len(),
{
    if s.len() == 0 {
        0
    } else {
        nested_score(s.drop_last(), ident, weight, mult) + weight * sum_counts(s.last().1.pairs())
            * spec_multiplier(ident, mult, s.last().0)
    }
}

/// The match score of a diff: lower is better.
pub open spec fn score_spec(d: &DiffResult, ident: Set<i64>, w: &ScoreWeights) -> int {
    flat_score(d.module_missing.pairs(), ident, w.missing as int, w.identification as int)
        + flat_score(d.module_extra.pairs(), ident, w.extra as int, w.identification as int)
        + nested_score(
        d.module_downgraded.pairs(),
        ident,
        w.downgraded as int,
        w.identification as int,
    ) + nested_score(d.module_upgraded.pairs(), ident, w.upgraded as int, w.identification as int)
}

/// The set of module ids considered definitional for telling doctrine fits
/// apart, expanded over the variation graph.
pub struct Identifier {
    pub rules: IdSet,
}

/// Whether `k` belongs to the expanded identification set of `input`: either
/// a named id with no tier group, or any variation of a named id that has
/// one.
pub open spec fn ident_member(input: Seq<i64>, v: &Variator, k: i64) -> bool {
    exists|i: int|
        0 <= i < input.len() && (if v.graph().dom().contains(#[trigger] input[i]) {
            exists|t: int| 0 <= t < v.graph()[input[i]].len() && v.graph()[input[i]][t].to == k
        } else {
            input[i] == k
        })
}

/// Expands the configured identification module ids over the variation
/// graph: an id with a tier group contributes all its variations, one
/// without contributes itself.
pub fn build_identifier(input: &Vec<TypeID>, v: &Variator) -> (r: Identifier)
    requires
        v.wf(),
    ensures
        r.rules.wf(),
        forall|k: i64| #[trigger] r.rules@.contains(k) <==> ident_member(input@, v, k),
{
    let n = input.len();
    let mut rules = IdSet::new();
    let mut i: usize = 0;
    while i < n
        invariant
            i <= n,
            n == input@.len(),
            v.wf(),
            rules.wf(),
            forall|k: i64| #[trigger] rules@.contains(k) <==> ident_member(input@.take(i as int), v, k),
        decreases n - i,
    {
        let id = input[i];
        let ghost prefix = input@.take(i as int);
        let ghost prefix1 = input@.take(i + 1);
        proof {
            assert(prefix1.drop_last() =~= prefix);
            assert(prefix1.last() == id);
            assert(prefix1[i as int] == id);
            assert(forall|j: int| 0 <= j < i ==> prefix1[j] == #[trigger] prefix[j]);
        }
        match v.get(id) {
            Some(vars) => {
                let m = vars.len();
                let mut t: usize = 0;
                while t < m
                    invariant
                        t <= m,
                        i < n,
                        n == input@.len(),
                        m == vars@.len(),
                        v.wf(),
                        rules.wf(),
                        v.graph().dom().contains(id),
                        vars@ == v.graph()[id],
                        id == input@[i as int],
                        prefix == input@.take(i as int),
                        prefix1 == input@.take(i + 1),
                        forall|k: i64| #[trigger] rules@.contains(k) <==> (ident_member(
                            prefix,
                            v,
                            k,
                        ) || exists|t2: int| 0 <= t2 < t && (#[trigger] vars@[t2]).to == k),
                    decreases m - t,
                {
                    let ghost rules_before = rules@;
                    rules.insert(vars[t].to);
                    proof {
                        assert forall|k: i64| #[trigger] rules@.contains(k) <==> (ident_member(
                            prefix,
                            v,
                            k,
                        ) || exists|t2: int| 0 <= t2 < t + 1 && (#[trigger] vars@[t2]).to
                            == k) by {
                            if k == vars@[t as int].to {
                                assert(vars@[t as int].to == k);
                            } else {
                                assert(rules@.contains(k) == rules_before.contains(k));
                            }
                        }
                    }
                    t = t + 1;
                }
                proof {
                    assert forall|k: i64| #[trigger] rules@.contains(k) <==> ident_member(
                        prefix1,
                        v,
                        k,
                    ) by {
                        if rules@.contains(k) {
                            if ident_member(prefix, v, k) {
                                let j = choose|j: int|
                                    0 <= j < prefix.len() && (if v.graph().dom().contains(
                                        #[trigger] prefix[j],
                                    ) {
                                        exists|t2: int|
                                            0 <= t2 < v.graph()[prefix[j]].len()
                                                && v.graph()[prefix[j]][t2].to == k
                                    } else {
                                        prefix[j] == k
                                    });
                                assert(prefix1[j] == prefix[j]);
                            } else {
                                assert(prefix1[i as int] == id);
                            }
                        }
                        if ident_member(prefix1, v, k) {
                            let j = choose|j: int|
                                0 <= j < prefix1.len() && (if v.graph().dom().contains(
                                    #[trigger] prefix1[j],
                                ) {
                                    exists|t2: int|
                                        0 <= t2 < v.graph()[prefix1[j]].len()
                                            && v.graph()[prefix1[j]][t2].to == k
                                } else {
                                    prefix1[j] == k
                                });
                            if j < i {
                                assert(prefix[j] == prefix1[j]);
                                assert(ident_member(prefix, v, k));
                            }
                        }
                    }
                }
            },
            None => {
                let ghost rules_before = rules@;
                rules.insert(id);
                proof {
                    assert forall|k: i64| #[trigger] rules@.contains(k) <==> ident_member(
                        prefix1,
                        v,
                        k,
                    ) by {
                        if rules@.contains(k) {
                            if k == id {
                                assert(prefix1[i as int] == k);
                            } else {
                                assert(rules_before.contains(k));
                                let j = choose|j: int|
                                    0 <= j < prefix.len() && (if v.graph().dom().contains(
                                        #[trigger] prefix[j],
                                    ) {
                                        exists|t2: int|
                                            0 <= t2 < v.graph()[prefix[j]].len()
                                                && v.graph()[prefix[j]][t2].to == k
                                    } else {
                                        prefix[j] == k
                                    });
                                assert(prefix1[j] == prefix[j]);
                            }
                        }
                        if ident_member(prefix1, v, k) {
                            let j = choose|j: int|
                                0 <= j < prefix1.len() && (if v.graph().dom().contains(
                                    #[trigger] prefix1[j],
                                ) {
                                    exists|t2: int|
                                        0 <= t2 < v.graph()[prefix1[j]].len()
                                            && v.graph()[prefix1[j]][t2].to == k
                                } else {
                                    prefix1[j] == k
                                });
                            if j < i {
                                assert(prefix[j] == prefix1[j]);
                                assert(ident_member(prefix, v, k));
                            }
                        }
                    }
                }
            },
        }
        i = i + 1;
    }
    proof {
        assert(input@.take(n as int) =~= input@);
    }
    Identifier { rules }
}

/// Replaces the active identification set with one freshly expanded over the
/// given variation snapshot: swapped whole, never mutated in place.
pub fn reload_identifier(current: &mut Identifier, input: &Vec<TypeID>, v: &Variator)
    requires
        v.wf(),
    ensures
        final(current).rules.wf(),
        forall|k: i64| #[trigger] final(current).rules@.contains(k) <==> ident_member(
            input@,
            v,
            k,
        ),
{
    let new_identifier = build_identifier(input, v);
    *current = new_identifier;
}


/// What selection guarantees of a returned match: the fit carries the data
/// of a registered fit for the candidate's hull; the diff conforms to the
/// differ's contract against it; and some family of conforming diffs, one
/// per registered fit, scores no lower anywhere, strictly higher before the
/// selected index — ties keep the earliest registered fit.
pub open spec fn selected_best(
    f: &DoctrineFit,
    d: &DiffResult,
    fit: &Fitting,
    data: &FitData,
    rules: Set<i64>,
    v: &Variator,
    w: &ScoreWeights,
) -> bool {
    &&& f.fit.hull == fit.hull
    &&& f.wf()
    &&& d.wf()
    &&& diff_conforms(&f.fit, fit, v, d)
    &&& exists|ds: Seq<DiffResult>, bi: int|
        #![trigger ds[bi]]
        {
            let list = data.by_hull@[fit.hull]@;
            &&& ds.len() == list.len()
            &&& 0 <= bi < list.len()
            &&& fit_like(f, &list[bi])
            &&& ds[bi] == *d
            &&& forall|j: int| 0 <= j < list.len() ==> diff_conforms(
                &list[j].fit,
                fit,
                v,
                &(#[trigger] ds[j]),
            )
            &&& forall|j: int| 0 <= j < list.len() ==> score_spec(&(#[trigger] ds[j]), rules, w)
                >= score_spec(d, rules, w)
            &&& forall|j: int| 0 <= j < bi ==> score_spec(&(#[trigger] ds[j]), rules, w)
                > score_spec(d, rules, w)
        }
}

/// A prefix sum of nonnegative counts never exceeds the whole sum.
proof fn lemma_sum_counts_prefix(s: Seq<(i64, i64)>, j: int)
    requires
        0 <= j <= s.len(),
        forall|t: int| 0 <= t < s.len() ==> (#[trigger] s[t]).1 >= 0,
    ensures
        sum_counts(s.take(j)) <= sum_counts(s),
    decreases s.len() - j,
{
    if j == s.len() {
        assert(s.take(j) =~= s);
    } else {
        lemma_sum_counts_prefix(s, j + 1);
        assert(s.take(j + 1).drop_last() =~= s.take(j));
        assert(s.take(j + 1).last() == s[j]);
    }
}

/// Adds up a substitution table's quantities.
fn sum_inner(inner: &AssocVec<i64>) -> (r: i64)
    requires
        inner.wf(),
        forall|t: int| 0 <= t < inner.pairs().len() ==> 0 <= (#[trigger] inner.pairs()[t]).1,
        sum_counts(inner.pairs()) <= MAX_ITEM_COUNT,
    ensures
        r as int == sum_counts(inner.pairs()),
        0 <= r <= MAX_ITEM_COUNT,
{
    let m = inner.len();
    let mut acc: i64 = 0;
    let mut j: usize = 0;
    proof {
        assert(inner.pairs().take(0) =~= Seq::<(i64, i64)>::empty());
    }
    while j < m
        invariant
            j <= m,
            m == inner.pairs().len(),
            inner.wf(),
            forall|t: int| 0 <= t < m ==> 0 <= (#[trigger] inner.pairs()[t]).1,
            sum_counts(inner.pairs()) <= MAX_ITEM_COUNT,
            acc as int == sum_counts(inner.pairs().take(j as int)),
            0 <= acc,
        decreases m - j,
    {
        proof {
            assert(inner.pairs().take(j + 1).drop_last() =~= inner.pairs().take(j as int));
            assert(inner.pairs().take(j + 1).last() == inner.pairs()[j as int]);
            lemma_sum_counts_prefix(inner.pairs(), j + 1);
        }
        acc = acc + *inner.value_at(j);
        j = j + 1;
    }
    proof {
        assert(inner.pairs().take(m as int) =~= inner.pairs());
        lemma_sum_counts_prefix(inner.pairs(), m as int);
    }
    acc
}

impl Identifier {
    /// The weight factor of one module id.
    pub fn multiplier(&self, type_id: TypeID, w: &ScoreWeights) -> (r: i64)
        requires
            w.wf(),
        ensures
            r as int == spec_multiplier(self.rules@, w.identification as int, type_id),
            1 <= r <= MAX_WEIGHT,
    {
        if self.rules.contains(type_id) {
            w.identification
        } else {
            1
        }
    }

    /// The match score of a diff under the given weights: lower is better.
    pub fn fit_score(&self, diff: &DiffResult, w: &ScoreWeights) -> (r: i64)
        requires
            diff.wf(),
            w.wf(),
        ensures
            r as int == score_spec(diff, self.rules@, w),
    {
        let mut score: i64 = 0;
        score = score + self.flat_part(&diff.module_missing, w.missing, w);
        score = score + self.flat_part(&diff.module_extra, w.extra, w);
        score = score + self.nested_part(&diff.module_downgraded, w.downgraded, w);
        score = score + self.nested_part(&diff.module_upgraded, w.upgraded, w);
        score
    }

    /// Score contribution of one flat count table.
    fn flat_part(&self, m: &AssocVec<i64>, weight: i64, w: &ScoreWeights) -> (r: i64)
        requires
            counts_wf(m),
            1 <= weight <= MAX_WEIGHT,
            w.wf(),
        ensures
            r as int == flat_score(m.pairs(), self.rules@, weight as int, w.identification as int),
            0 <= r <= m.pairs().len() * MAX_WEIGHT * MAX_ITEM_COUNT * MAX_WEIGHT,
    {
        let n = m.len();
        let mut acc: i64 = 0;
        let mut j: usize = 0;
        proof {
            assert(m.pairs().take(0) =~= Seq::<(i64, i64)>::empty());
        }
        while j < n
            invariant
                j <= n,
                n == m.pairs().len(),
                counts_wf(m),
                1 <= weight <= MAX_WEIGHT,
                w.wf(),
                acc as int == flat_score(
                    m.pairs().take(j as int),
                    self.rules@,
                    weight as int,
                    w.identification as int,
                ),
                0 <= acc <= j * MAX_WEIGHT * MAX_ITEM_COUNT * MAX_WEIGHT,
            decreases n - j,
        {
            let count = *m.value_at(j);
            let mult = self.multiplier(m.key_at(j), w);
            proof {
                crate::fitting::lemma_counts_wf_entry(m, j as int);
                assert(1 <= count <= MAX_ITEM_COUNT);
                assert(weight * count * mult <= MAX_WEIGHT * MAX_ITEM_COUNT * MAX_WEIGHT && 0
                    <= weight * count * mult && 0 <= weight * count <= MAX_WEIGHT
                    * MAX_ITEM_COUNT) by (nonlinear_arith)
                    requires
                        1 <= weight <= MAX_WEIGHT,
                        1 <= count <= MAX_ITEM_COUNT,
                        1 <= mult <= MAX_WEIGHT,
                {}
                assert((j + 1) * MAX_WEIGHT * MAX_ITEM_COUNT * MAX_WEIGHT == j * MAX_WEIGHT
                    * MAX_ITEM_COUNT * MAX_WEIGHT + MAX_WEIGHT * MAX_ITEM_COUNT * MAX_WEIGHT)
                    by (nonlinear_arith);
                assert(j * MAX_WEIGHT * MAX_ITEM_COUNT * MAX_WEIGHT <= MAX_DISTINCT_ITEMS
                    * MAX_WEIGHT * MAX_ITEM_COUNT * MAX_WEIGHT) by (nonlinear_arith)
                    requires
                        0 <= j <= MAX_DISTINCT_ITEMS,
                {}
                assert(m.pairs().take(j + 1).drop_last() =~= m.pairs().take(j as int));
                assert(m.pairs().take(j + 1).last() == m.pairs()[j as int]);
            }
            acc = acc + weight * count * mult;
            j = j + 1;
        }
        proof {
            assert(m.pairs().take(n as int) =~= m.pairs());
        }
        acc
    }

    /// Score contribution of one substitution table.
    fn nested_part(&self, m: &AssocVec<AssocVec<i64>>, weight: i64, w: &ScoreWeights) -> (r: i64)
        requires
            nested_wf(m),
            1 <= weight <= MAX_WEIGHT,
            w.wf(),
        ensures
            r as int == nested_score(
                m.pairs(),
                self.rules@,
                weight as int,
                w.identification as int,
            ),
            0 <= r <= m.pairs().len() * MAX_WEIGHT * MAX_ITEM_COUNT * MAX_WEIGHT,
    {
        let n = m.len();
        let mut acc: i64 = 0;
        let mut j: usize = 0;
        proof {
            assert(m.pairs().take(0) =~= Seq::<(i64, AssocVec<i64>)>::empty());
        }
        while j < n
            invariant
                j <= n,
                n == m.pairs().len(),
                nested_wf(m),
                1 <= weight <= MAX_WEIGHT,
                w.wf(),
                acc as int == nested_score(
                    m.pairs().take(j as int),
                    self.rules@,
                    weight as int,
                    w.identification as int,
                ),
                0 <= acc <= j * MAX_WEIGHT * MAX_ITEM_COUNT * MAX_WEIGHT,
            decreases n - j,
        {
            proof {
                lemma_map_of_index(m.pairs(), j as int);
                assert(m@.dom().contains(m.pairs()[j as int].0));
            }
            let inner_total = sum_inner(m.value_at(j));
            let mult = self.multiplier(m.key_at(j), w);
            proof {
                assert(0 <= inner_total <= MAX_ITEM_COUNT);
                assert(weight * inner_total * mult <= MAX_WEIGHT * MAX_ITEM_COUNT * MAX_WEIGHT
                    && 0 <= weight * inner_total * mult && 0 <= weight * inner_total <= MAX_WEIGHT
                    * MAX_ITEM_COUNT) by (nonlinear_arith)
                    requires
                        1 <= weight <= MAX_WEIGHT,
                        0 <= inner_total <= MAX_ITEM_COUNT,
                        1 <= mult <= MAX_WEIGHT,
                {}
                assert((j + 1) * MAX_WEIGHT * MAX_ITEM_COUNT * MAX_WEIGHT == j * MAX_WEIGHT
                    * MAX_ITEM_COUNT * MAX_WEIGHT + MAX_WEIGHT * MAX_ITEM_COUNT * MAX_WEIGHT)
                    by (nonlinear_arith);
                assert(j * MAX_WEIGHT * MAX_ITEM_COUNT * MAX_WEIGHT <= MAX_DISTINCT_ITEMS
                    * MAX_WEIGHT * MAX_ITEM_COUNT * MAX_WEIGHT) by (nonlinear_arith)
                    requires
                        0 <= j <= MAX_DISTINCT_ITEMS,
                {}
                assert(m.pairs().take(j + 1).drop_last() =~= m.pairs().take(j as int));
                assert(m.pairs().take(j + 1).last() == m.pairs()[j as int]);
            }
            acc = acc + weight * inner_total * mult;
            j = j + 1;
        }
        proof {
            assert(m.pairs().take(n as int) =~= m.pairs());
        }
        acc
    }

    /// Diffs the candidate against every reference fit registered for its
    /// hull and returns an owned copy of the best match with its diff; none
    /// when the hull has no registered fits. Ties keep the earliest
    /// registered fit, so selection is stable for a fixed catalog order.
    pub fn find_fit(
        &self,
        fit: &Fitting,
        data: &FitData,
        v: &Variator,
        w: &ScoreWeights,
    ) -> (r: Option<(DoctrineFit, DiffResult)>)
        requires
            fit.wf(),
            data.wf(),
            self.rules.wf(),
            v.wf(),
            w.wf(),
        ensures
            r is Some <==> (data.by_hull@.dom().contains(fit.hull)
                && data.by_hull@[fit.hull]@.len() > 0),
            r matches Some((f, d)) ==> selected_best(&f, &d, fit, data, self.rules@, v, w),
    {
        match data.get(fit.hull) {
            Some(ship_fits) => {
                let len = ship_fits.len();
                if len == 0 {
                    return None;
                }
                let ghost list = data.by_hull@[fit.hull]@;
                let first_diff = FitDiffer::diff(&ship_fits[0].fit, fit, v);
                let ghost ds0 = seq![first_diff];
                let mut ds: Ghost<Seq<DiffResult>> = Ghost(ds0);
                let mut best_score = self.fit_score(&first_diff, w);
                let mut best_idx: usize = 0;
                let mut best_diff = first_diff;
                let mut j: usize = 1;
                while j < len
                    invariant
                        1 <= j <= len,
                        len == list.len(),
                        list == data.by_hull@[fit.hull]@,
                        ship_fits@ == list,
                        data.by_hull@.dom().contains(fit.hull),
                        fit.wf(),
                        data.wf(),
                        self.rules.wf(),
                        v.wf(),
                        w.wf(),
                        best_idx < j,
                        best_diff.wf(),
                        diff_conforms(&list[best_idx as int].fit, fit, v, &best_diff),
                        ds@.len() == j,
                        ds@[best_idx as int] == best_diff,
                        best_score as int == score_spec(&best_diff, self.rules@, w),
                        forall|t: int| 0 <= t < j ==> diff_conforms(
                            &list[t].fit,
                            fit,
                            v,
                            &(#[trigger] ds@[t]),
                        ),
                        forall|t: int| 0 <= t < j ==> score_spec(
                            &(#[trigger] ds@[t]),
                            self.rules@,
                            w,
                        ) >= best_score as int,
                        forall|t: int| 0 <= t < best_idx ==> score_spec(
                            &(#[trigger] ds@[t]),
                            self.rules@,
                            w,
                        ) > best_score as int,
                    decreases len - j,
                {
                    let d_j = FitDiffer::diff(&ship_fits[j].fit, fit, v);
                    let s_j = self.fit_score(&d_j, w);
                    proof {
                        ds@ = ds@.push(d_j);
                        assert(ds@[j as int] == d_j);
                        assert(forall|t: int| 0 <= t < j ==> ds@[t] == #[trigger] ds@.drop_last()[t]);
                    }
                    if s_j < best_score {
                        best_score = s_j;
                        best_idx = j;
                        best_diff = d_j;
                    }
                    j = j + 1;
                }
                let chosen = ship_fits[best_idx].duplicate();
                proof {
                    assert(fit_like(&chosen, &list[best_idx as int]));
                    assert(chosen.fit.modules@ == list[best_idx as int].fit.modules@);
                    assert(chosen.fit.cargo@ == list[best_idx as int].fit.cargo@);
                    assert(diff_conforms(&chosen.fit, fit, v, &best_diff));
                }
                Some((chosen, best_diff))
            },
            None => None,
        }
    }
}

/// Score monotonicity over one flat table: raising one recorded quantity by
/// one raises the table's score by exactly that entry's weight factor.
proof fn lemma_flat_score_bump(s: Seq<(i64, i64)>, i: int, ident: Set<i64>, weight: int, mult: int)
    requires
        0 <= i < s.len(),
        s[i].1 < i64::MAX,
    ensures
        flat_score(s.update(i, (s[i].0, (s[i].1 + 1) as i64)), ident, weight, mult) == flat_score(
            s,
            ident,
            weight,
            mult,
        ) + weight * spec_multiplier(ident, mult, s[i].0),
    decreases s.len(),
{
    let t = s.update(i, (s[i].0, (s[i].1 + 1) as i64));
    if i == s.len() - 1 {
        assert(t.drop_last() =~= s.drop_last());
        assert(t.last() == (s[i].0, (s[i].1 + 1) as i64));
        assert(weight * ((s[i].1 + 1) as i64) * spec_multiplier(ident, mult, s[i].0) == weight
            * s[i].1 * spec_multiplier(ident, mult, s[i].0) + weight * spec_multiplier(
            ident,
            mult,
            s[i].0,
        )) by (nonlinear_arith)
            requires
                s[i].1 < i64::MAX,
        {}
    } else {
        assert(t.last() == s.last());
        assert(t.drop_last() =~= s.drop_last().update(i, (s[i].0, (s[i].1 + 1) as i64)));
        lemma_flat_score_bump(s.drop_last(), i, ident, weight, mult);
    }
}

/// Score monotonicity: of two diffs that agree everywhere except that the
/// second records one more missing instance of some module, the second
/// scores strictly higher, whatever that module's identification weight.
pub proof fn lemma_score_monotonicity(
    d1: &DiffResult,
    d2: &DiffResult,
    ident: Set<i64>,
    w: &ScoreWeights,
    i: int,
)
    requires
        w.wf(),
        0 <= i < d1.module_missing.pairs().len(),
        d1.module_missing.pairs()[i].1 < i64::MAX,
        d2.module_missing.pairs() == d1.module_missing.pairs().update(
            i,
            (d1.module_missing.pairs()[i].0, (d1.module_missing.pairs()[i].1 + 1) as i64),
        ),
        d2.module_extra.pairs() == d1.module_extra.pairs(),
        d2.module_downgraded.pairs() == d1.module_downgraded.pairs(),
        d2.module_upgraded.pairs() == d1.module_upgraded.pairs(),
    ensures
        score_spec(d2, ident, w) == score_spec(d1, ident, w) + w.missing * spec_multiplier(
            ident,
            w.identification as int,
            d1.module_missing.pairs()[i].0,
        ),
        score_spec(d2, ident, w) > score_spec(d1, ident, w),
{
    lemma_flat_score_bump(
        d1.module_missing.pairs(),
        i,
        ident,
        w.missing as int,
        w.identification as int,
    );
    assert(w.missing * spec_multiplier(ident, w.identification as int, d1.module_missing.pairs()[i].0)
        >= 1) by (nonlinear_arith)
        requires
            1 <= w.missing,
            spec_multiplier(ident, w.identification as int, d1.module_missing.pairs()[i].0) >= 1,
    {}
}

} // verus!
