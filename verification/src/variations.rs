//! The module-equivalence tier graph.
//!
//! Declarative rules yield tier groups: finite maps from item id to an
//! integer rank. Merging a group of size N into the graph produces its full
//! N-squared edge set, each edge carrying the signed rank distance from its
//! source to its target. Every node's outgoing edges are kept sorted so that
//! equal-rank edges come first, then upgrades by ascending distance, then
//! downgrades.

use vstd::prelude::*;

use crate::TypeID;
use crate::idmap::{AssocVec, IdSet, lemma_map_of_domain, lemma_map_of_index, lemma_map_of_len};

verus! {

/// Largest rank a tier group may assign. Keeps every rank difference, and
/// every sort key derived from one, inside `i64`.
pub const MAX_RANK: i64 = 999_999;

/// Offset that places downgrade edges after every upgrade edge when sorting
/// by key, whatever the magnitudes involved.
pub const DOWNGRADE_SORT_BASE: i64 = 1_000_000;

/// A directed edge of the graph: `to` is a known variation of `from`, and
/// `meta_diff` is the signed rank distance (positive: `to` is an upgrade;
/// negative: a downgrade; zero: equivalent rank).
#[derive(Clone, Copy, PartialEq, Eq, Structural, Debug)]
pub struct Variation {
    pub from: TypeID,
    pub to: TypeID,
    pub meta_diff: i64,
}

/// Sort key of an edge: equal-rank edges first, then upgrades ascending,
/// then downgrades (which always key above any upgrade).
pub open spec fn edge_sort_key(v: Variation) -> int {
    if v.meta_diff < 0 {
        DOWNGRADE_SORT_BASE - v.meta_diff
    } else {
        v.meta_diff as int
    }
}

/// Edge list sorted by [`edge_sort_key`].
pub open spec fn edges_sorted(s: Seq<Variation>) -> bool {
    forall|i: int, j: int|
        0 <= i < j < s.len() ==> edge_sort_key(s[i]) <= edge_sort_key(s[j])
}

/// The graph as a map from node to outgoing edge sequence.
pub open spec fn gview(g: &AssocVec<Vec<Variation>>) -> Map<i64, Seq<Variation>> {
    g@.map_values(|v: Vec<Variation>| v@)
}

/// The edge `a -> b` with distance `d` is in the graph.
pub open spec fn has_edge(m: Map<i64, Seq<Variation>>, a: i64, b: i64, d: int) -> bool {
    m.dom().contains(a) && exists|i: int|
        0 <= i < m[a].len() && m[a][i].from == a && (#[trigger] m[a][i]).to == b
            && m[a][i].meta_diff == d
}

/// Graph invariant: edges start at their node, stay within the graph, carry
/// bounded distances, come mirrored (the reverse edge with negated distance
/// exists), include a zero self-edge per node, and sit in sort-key order.
pub open spec fn graph_wf(m: Map<i64, Seq<Variation>>) -> bool {
    &&& forall|a: i64, i: int|
        m.dom().contains(a) && 0 <= i < m[a].len() ==> ((#[trigger] m[a][i]).from == a
            && m.dom().contains(m[a][i].to) && -MAX_RANK <= m[a][i].meta_diff <= MAX_RANK)
    &&& forall|a: i64, b: i64, d: int| #[trigger] has_edge(m, a, b, d) ==> has_edge(m, b, a, -d)
    &&& forall|a: i64| m.dom().contains(a) ==> has_edge(m, a, a, 0)
    &&& forall|a: i64| m.dom().contains(a) ==> edges_sorted(#[trigger] m[a])
}

/// A tier group and the graph share no member.
pub open spec fn group_disjoint(m: Map<i64, Seq<Variation>>, g: Map<i64, i64>) -> bool {
    forall|k: i64| g.dom().contains(k) ==> !m.dom().contains(k)
}

/// Every rank of the group lies in `[0, MAX_RANK]`.
pub open spec fn ranks_valid(g: Map<i64, i64>) -> bool {
    forall|k: i64| g.dom().contains(k) ==> 0 <= #[trigger] g[k] <= MAX_RANK
}

/// `list` is exactly the edge set a member `k` of group `g` receives: one
/// edge per group member, each carrying the rank distance, in sorted order.
pub open spec fn edges_match_group(list: Seq<Variation>, g: Map<i64, i64>, k: i64) -> bool {
    &&& list.len() == g.dom().len()
    &&& forall|i: int|
        0 <= i < list.len() ==> ((#[trigger] list[i]).from == k && g.dom().contains(list[i].to)
            && list[i].meta_diff == g[list[i].to] - g[k])
    &&& forall|j: i64| g.dom().contains(j) ==> exists|i: int|
        0 <= i < list.len() && (#[trigger] list[i]).to == j
    &&& edges_sorted(list)
}

/// An error raised while building the graph from configuration. Both are
/// configuration mistakes: a rebuild reports them and leaves the previously
/// active snapshot in force.
#[derive(Clone, Copy, PartialEq, Eq, Structural, Debug)]
pub enum BuildError {
    /// The id is already a member of an earlier tier group.
    DuplicateDeclaration(TypeID),
    /// The id was assigned a rank outside `[0, MAX_RANK]`.
    RankOutOfRange(TypeID),
}

/// Exec mirror of [`edge_sort_key`].
fn edge_key(v: &Variation) -> (r: i64)
    requires
        -MAX_RANK <= v.meta_diff <= MAX_RANK,
    ensures
        r as int == edge_sort_key(*v),
{
    if v.meta_diff < 0 {
        DOWNGRADE_SORT_BASE - v.meta_diff
    } else {
        v.meta_diff
    }
}

/// Insertion sort by [`edge_sort_key`]. The result holds the same elements:
/// nothing appears that was not there, and everything there still appears.
fn sort_edges(v: &Vec<Variation>) -> (r: Vec<Variation>)
    requires
        forall|i: int| 0 <= i < v@.len() ==> -MAX_RANK <= (#[trigger] v@[i]).meta_diff <= MAX_RANK,
    ensures
        r@.len() == v@.len(),
        forall|i: int| 0 <= i < r@.len() ==> v@.contains(#[trigger] r@[i]),
        forall|j: int| 0 <= j < v@.len() ==> r@.contains(#[trigger] v@[j]),
        edges_sorted(r@),
{
    let n = v.len();
    let mut out: Vec<Variation> = Vec::new();
    let mut i: usize = 0;
    while i < n
        invariant
            i <= n,
            n == v@.len(),
            out@.len() == i,
            forall|t: int| 0 <= t < v@.len() ==> -MAX_RANK <= (#[trigger] v@[t]).meta_diff
                <= MAX_RANK,
            forall|t: int| 0 <= t < out@.len() ==> v@.contains(#[trigger] out@[t]),
            forall|j: int| 0 <= j < i ==> out@.contains(#[trigger] v@[j]),
            edges_sorted(out@),
        decreases n - i,
    {
        let e = v[i];
        let m = out.len();
        let mut p: usize = 0;
        while p < m && edge_key(&out[p]) <= edge_key(&e)
            invariant
                p <= m,
                m == out@.len(),
                -MAX_RANK <= e.meta_diff <= MAX_RANK,
                forall|t: int| 0 <= t < out@.len() ==> -MAX_RANK <= (
                #[trigger] out@[t]).meta_diff <= MAX_RANK,
                forall|t: int| 0 <= t < p ==> edge_sort_key(#[trigger] out@[t]) <= edge_sort_key(e),
            decreases m - p,
        {
            p = p + 1;
        }
        let ghost s = out@;
        let ghost tt = s.insert(p as int, e);
        proof {
            s.insert_ensures(p as int, e);
            assert(forall|w: int| p <= w < m ==> edge_sort_key(e) < edge_sort_key(
                #[trigger] s[w],
            )) by {
                if p < m {
                    assert(edge_sort_key(s[p as int]) > edge_sort_key(e));
                    assert(forall|w: int| p < w < m ==> edge_sort_key(s[p as int])
                        <= edge_sort_key(#[trigger] s[w]));
                }
            }
            assert forall|a: int, b: int| 0 <= a < b < tt.len() implies edge_sort_key(tt[a])
                <= edge_sort_key(tt[b]) by {
                if b < p {
                    assert(tt[a] == s[a] && tt[b] == s[b]);
                } else if b == p {
                    assert(tt[a] == s[a] && tt[b] == e);
                } else {
                    assert(tt[b] == s[b - 1]);
                    if a < p {
                        assert(tt[a] == s[a]);
                    } else if a == p {
                        assert(tt[a] == e);
                    } else {
                        assert(tt[a] == s[a - 1]);
                    }
                }
            }
            assert forall|w: int| 0 <= w < tt.len() implies v@.contains(#[trigger] tt[w]) by {
                if w < p {
                    assert(tt[w] == s[w]);
                } else if w == p {
                    assert(tt[w] == v@[i as int]);
                } else {
                    assert(tt[w] == s[w - 1]);
                }
            }
            assert forall|j: int| 0 <= j < i + 1 implies tt.contains(#[trigger] v@[j]) by {
                if j == i {
                    assert(tt[p as int] == v@[j]);
                } else {
                    let w0 = choose|w0: int| 0 <= w0 < s.len() && s[w0] == v@[j];
                    if w0 < p {
                        assert(tt[w0] == v@[j]);
                    } else {
                        assert(tt[w0 + 1] == v@[j]);
                    }
                }
            }
        }
        out.insert(p, e);
        i = i + 1;
    }
    proof {
        assert(i == n);
    }
    out
}

/// The full edge set that member `i_idx` of the group receives, sorted.
fn group_edges(tiers: &AssocVec<i64>, i_idx: usize) -> (r: Vec<Variation>)
    requires
        tiers.wf(),
        i_idx < tiers.pairs().len(),
        forall|j: int| 0 <= j < tiers.pairs().len() ==> 0 <= (#[trigger] tiers.pairs()[j]).1
            <= MAX_RANK,
    ensures
        edges_match_group(r@, tiers@, tiers.pairs()[i_idx as int].0),
{
    let n = tiers.len();
    let ki = tiers.key_at(i_idx);
    let ri = *tiers.value_at(i_idx);
    proof {
        lemma_map_of_index(tiers.pairs(), i_idx as int);
        lemma_map_of_len(tiers.pairs());
    }
    let mut vars: Vec<Variation> = Vec::new();
    let mut j_idx: usize = 0;
    while j_idx < n
        invariant
            j_idx <= n,
            n == tiers.pairs().len(),
            tiers.wf(),
            0 <= ri <= MAX_RANK,
            forall|j: int| 0 <= j < n ==> 0 <= (#[trigger] tiers.pairs()[j]).1 <= MAX_RANK,
            vars@.len() == j_idx,
            forall|t: int| 0 <= t < j_idx ==> #[trigger] vars@[t] == (Variation {
                from: ki,
                to: tiers.pairs()[t].0,
                meta_diff: (tiers.pairs()[t].1 - ri) as i64,
            }),
        decreases n - j_idx,
    {
        let kj = tiers.key_at(j_idx);
        let rj = *tiers.value_at(j_idx);
        vars.push(Variation { from: ki, to: kj, meta_diff: rj - ri });
        j_idx = j_idx + 1;
    }
    let sorted = sort_edges(&vars);
    proof {
        assert forall|t: int| 0 <= t < sorted@.len() implies ((#[trigger] sorted@[t]).from == ki
            && tiers@.dom().contains(sorted@[t].to) && sorted@[t].meta_diff == tiers@[sorted@[t].to]
            - tiers@[ki]) by {
            assert(vars@.contains(sorted@[t]));
            let j = choose|j: int| 0 <= j < vars@.len() && vars@[j] == sorted@[t];
            lemma_map_of_index(tiers.pairs(), j);
        }
        assert forall|j: i64| tiers@.dom().contains(j) implies exists|t: int|
            0 <= t < sorted@.len() && (#[trigger] sorted@[t]).to == j by {
            lemma_map_of_domain(tiers.pairs(), j);
            let w = choose|w: int| 0 <= w < tiers.pairs().len() && tiers.pairs()[w].0 == j;
            assert(sorted@.contains(vars@[w]));
            let t = choose|t: int| 0 <= t < sorted@.len() && sorted@[t] == vars@[w];
            assert(sorted@[t].to == j);
        }
        assert(edges_match_group(sorted@, tiers@, ki));
    }
    sorted
}

/// Merging fresh, fully cross-linked groups into a well-formed graph keeps
/// it well-formed.
proof fn lemma_merge_wf(
    old_m: Map<i64, Seq<Variation>>,
    new_m: Map<i64, Seq<Variation>>,
    g: Map<i64, i64>,
)
    requires
        graph_wf(old_m),
        group_disjoint(old_m, g),
        ranks_valid(g),
        forall|a: i64| new_m.dom().contains(a) <==> (old_m.dom().contains(a)
            || g.dom().contains(a)),
        forall|a: i64| old_m.dom().contains(a) ==> new_m[a] == old_m[a],
        forall|a: i64| g.dom().contains(a) ==> edges_match_group(#[trigger] new_m[a], g, a),
    ensures
        graph_wf(new_m),
{
    assert forall|a: i64, i: int|
        new_m.dom().contains(a) && 0 <= i < new_m[a].len() implies ((
    #[trigger] new_m[a][i]).from == a && new_m.dom().contains(new_m[a][i].to) && -MAX_RANK
        <= new_m[a][i].meta_diff <= MAX_RANK) by {
        if old_m.dom().contains(a) {
            assert(old_m[a][i] == new_m[a][i]);
        } else {
            assert(edges_match_group(new_m[a], g, a));
            assert(new_m[a][i].meta_diff == g[new_m[a][i].to] - g[a]);
        }
    }
    assert forall|a: i64, b: i64, d: int| #[trigger] has_edge(new_m, a, b, d) implies has_edge(
        new_m,
        b,
        a,
        -d,
    ) by {
        if old_m.dom().contains(a) {
            assert(has_edge(old_m, a, b, d));
            assert(has_edge(old_m, b, a, -d));
            let i = choose|i: int|
                0 <= i < old_m[b].len() && old_m[b][i].from == b && (#[trigger] old_m[b][i]).to
                    == a && old_m[b][i].meta_diff == -d;
            assert(new_m[b][i] == old_m[b][i]);
        } else {
            assert(edges_match_group(new_m[a], g, a));
            let i = choose|i: int|
                0 <= i < new_m[a].len() && new_m[a][i].from == a && (#[trigger] new_m[a][i]).to
                    == b && new_m[a][i].meta_diff == d;
            assert(g.dom().contains(b));
            assert(d == g[b] - g[a]);
            assert(edges_match_group(new_m[b], g, b));
            let j = choose|j: int| 0 <= j < new_m[b].len() && (#[trigger] new_m[b][j]).to == a;
            assert(new_m[b][j].meta_diff == g[a] - g[b]);
        }
    }
    assert forall|a: i64| new_m.dom().contains(a) implies has_edge(new_m, a, a, 0) by {
        if old_m.dom().contains(a) {
            assert(has_edge(old_m, a, a, 0));
            let i = choose|i: int|
                0 <= i < old_m[a].len() && old_m[a][i].from == a && (#[trigger] old_m[a][i]).to
                    == a && old_m[a][i].meta_diff == 0;
            assert(new_m[a][i] == old_m[a][i]);
        } else {
            assert(edges_match_group(new_m[a], g, a));
            let i = choose|i: int| 0 <= i < new_m[a].len() && (#[trigger] new_m[a][i]).to == a;
            assert(new_m[a][i].meta_diff == g[a] - g[a]);
        }
    }
    assert forall|a: i64| new_m.dom().contains(a) implies edges_sorted(#[trigger] new_m[a]) by {
        if old_m.dom().contains(a) {
            assert(new_m[a] == old_m[a]);
        } else {
            assert(edges_match_group(new_m[a], g, a));
        }
    }
}

/// Merges one tier group into the graph: every member gets the group's full
/// edge set, sorted. Rejects a group that overlaps the graph, or one with a
/// rank out of range, leaving the graph unchanged.
pub fn merge_tiers(graph: &mut AssocVec<Vec<Variation>>, tiers: &AssocVec<i64>) -> (r: Result<
    (),
    BuildError,
>)
    requires
        old(graph).wf(),
        graph_wf(gview(old(graph))),
        tiers.wf(),
    ensures
        final(graph).wf(),
        r is Ok <==> (group_disjoint(gview(old(graph)), tiers@) && ranks_valid(tiers@)),
        r is Err ==> *final(graph) == *old(graph),
        r is Ok ==> {
            &&& graph_wf(gview(final(graph)))
            &&& forall|a: i64| gview(final(graph)).dom().contains(a) <==> (gview(
                old(graph),
            ).dom().contains(a) || tiers@.dom().contains(a))
            &&& forall|a: i64| gview(old(graph)).dom().contains(a) ==> gview(final(graph))[a]
                == gview(old(graph))[a]
            &&& forall|a: i64| tiers@.dom().contains(a) ==> edges_match_group(
                #[trigger] gview(final(graph))[a],
                tiers@,
                a,
            )
        },
{
    let n = tiers.len();
    proof {
        lemma_map_of_len(tiers.pairs());
    }
    let mut idx: usize = 0;
    while idx < n
        invariant
            idx <= n,
            n == tiers.pairs().len(),
            *graph == *old(graph),
            graph.wf(),
            tiers.wf(),
            forall|j: int| 0 <= j < idx ==> !gview(graph).dom().contains(
                #[trigger] tiers.pairs()[j].0,
            ),
        decreases n - idx,
    {
        let k = tiers.key_at(idx);
        if graph.contains_key(k) {
            proof {
                lemma_map_of_index(tiers.pairs(), idx as int);
            }
            return Err(BuildError::DuplicateDeclaration(k));
        }
        idx = idx + 1;
    }
    proof {
        assert forall|k: i64| tiers@.dom().contains(k) implies !gview(graph).dom().contains(
            k,
        ) by {
            lemma_map_of_domain(tiers.pairs(), k);
        }
    }
    let mut idx2: usize = 0;
    while idx2 < n
        invariant
            idx2 <= n,
            n == tiers.pairs().len(),
            *graph == *old(graph),
            graph.wf(),
            tiers.wf(),
            forall|j: int| 0 <= j < idx2 ==> 0 <= (#[trigger] tiers.pairs()[j]).1 <= MAX_RANK,
        decreases n - idx2,
    {
        let rank = *tiers.value_at(idx2);
        if rank < 0 || rank > MAX_RANK {
            proof {
                lemma_map_of_index(tiers.pairs(), idx2 as int);
            }
            return Err(BuildError::RankOutOfRange(tiers.key_at(idx2)));
        }
        idx2 = idx2 + 1;
    }
    proof {
        assert forall|k: i64| tiers@.dom().contains(k) implies 0 <= #[trigger] tiers@[k]
            <= MAX_RANK by {
            lemma_map_of_domain(tiers.pairs(), k);
            let j = choose|j: int| 0 <= j < tiers.pairs().len() && tiers.pairs()[j].0 == k;
            lemma_map_of_index(tiers.pairs(), j);
        }
    }
    let mut i_idx: usize = 0;
    while i_idx < n
        invariant
            i_idx <= n,
            n == tiers.pairs().len(),
            tiers.wf(),
            graph.wf(),
            group_disjoint(gview(old(graph)), tiers@),
            ranks_valid(tiers@),
            graph_wf(gview(old(graph))),
            forall|j: int| 0 <= j < n ==> 0 <= (#[trigger] tiers.pairs()[j]).1 <= MAX_RANK,
            forall|a: i64| gview(graph).dom().contains(a) <==> (gview(old(graph)).dom().contains(a)
                || exists|j: int| 0 <= j < i_idx && (#[trigger] tiers.pairs()[j]).0 == a),
            forall|a: i64| gview(old(graph)).dom().contains(a) ==> gview(graph)[a] == gview(
                old(graph),
            )[a],
            forall|j: int| 0 <= j < i_idx ==> edges_match_group(
                gview(graph)[(#[trigger] tiers.pairs()[j]).0],
                tiers@,
                tiers.pairs()[j].0,
            ),
        decreases n - i_idx,
    {
        let ki = tiers.key_at(i_idx);
        let edges = group_edges(tiers, i_idx);
        proof {
            lemma_map_of_index(tiers.pairs(), i_idx as int);
            assert(tiers@.dom().contains(ki));
            assert(!gview(old(graph)).dom().contains(ki));
        }
        graph.insert(ki, edges);
        proof {
            assert forall|j: int| 0 <= j < i_idx + 1 implies edges_match_group(
                gview(graph)[(#[trigger] tiers.pairs()[j]).0],
                tiers@,
                tiers.pairs()[j].0,
            ) by {
                if j < i_idx {
                    assert(tiers.pairs()[j].0 != ki);
                }
            }
        }
        i_idx = i_idx + 1;
    }
    proof {
        assert forall|a: i64| gview(graph).dom().contains(a) <==> (gview(
            old(graph),
        ).dom().contains(a) || tiers@.dom().contains(a)) by {
            lemma_map_of_domain(tiers.pairs(), a);
        }
        assert forall|a: i64| tiers@.dom().contains(a) implies edges_match_group(
            #[trigger] gview(graph)[a],
            tiers@,
            a,
        ) by {
            lemma_map_of_domain(tiers.pairs(), a);
            let j = choose|j: int| 0 <= j < tiers.pairs().len() && tiers.pairs()[j].0 == a;
        }
        lemma_merge_wf(gview(old(graph)), gview(graph), tiers@);
    }
    Ok(())
}

/// The immutable variation snapshot: the tier graph plus the set of cargo
/// items excluded from the cargo comparison.
pub struct Variator {
    pub variations: AssocVec<Vec<Variation>>,
    pub cargo_ignore: IdSet,
}

impl Variator {
    pub open spec fn wf(&self) -> bool {
        &&& self.variations.wf()
        &&& graph_wf(gview(&self.variations))
        &&& self.cargo_ignore.wf()
    }

    /// The graph as a map from node to outgoing edge sequence.
    pub open spec fn graph(&self) -> Map<i64, Seq<Variation>> {
        gview(&self.variations)
    }

    /// An empty snapshot: no variations, nothing ignored.
    pub fn empty() -> (r: Variator)
        ensures
            r.wf(),
            r.graph() == Map::<i64, Seq<Variation>>::empty(),
            r.cargo_ignore@ == Set::<i64>::empty(),
    {
        Variator { variations: AssocVec::new(), cargo_ignore: IdSet::new() }
    }

    /// The ordered outgoing edges of `from`, if it belongs to any tier group.
    pub fn get(&self, from: TypeID) -> (r: Option<&Vec<Variation>>)
        requires
            self.wf(),
        ensures
            match r {
                Some(l) => self.graph().dom().contains(from) && l@ == self.graph()[from],
                None => !self.graph().dom().contains(from),
            },
    {
        self.variations.get(from)
    }

    /// The edge from `from` to `to`, if both sit in one tier group.
    pub fn find_edge(&self, from: TypeID, to: TypeID) -> (r: Option<Variation>)
        requires
            self.wf(),
        ensures
            match r {
                Some(e) => e.from == from && e.to == to && has_edge(
                    self.graph(),
                    from,
                    to,
                    e.meta_diff as int,
                ),
                None => forall|d: int| !has_edge(self.graph(), from, to, d),
            },
    {
        match self.variations.get(from) {
            Some(list) => {
                let n = list.len();
                let mut i: usize = 0;
                while i < n
                    invariant
                        i <= n,
                        n == list@.len(),
                        self.wf(),
                        self.graph().dom().contains(from),
                        list@ == self.graph()[from],
                        forall|j: int| 0 <= j < i ==> (#[trigger] list@[j]).to != to,
                    decreases n - i,
                {
                    if list[i].to == to {
                        proof {
                            assert(self.graph()[from][i as int].to == to);
                        }
                        return Some(list[i]);
                    }
                    i = i + 1;
                }
                proof {
                    assert forall|d: int| !has_edge(self.graph(), from, to, d) by {
                        if has_edge(self.graph(), from, to, d) {
                            let j = choose|j: int|
                                0 <= j < self.graph()[from].len() && self.graph()[from][j].from
                                    == from && (#[trigger] self.graph()[from][j]).to == to
                                    && self.graph()[from][j].meta_diff == d;
                            assert(list@[j].to == to);
                        }
                    }
                }
                None
            },
            None => None,
        }
    }
}

/// Which of the three bands an edge belongs to in a node's ordered list:
/// equivalent rank, then upgrades, then downgrades.
pub open spec fn diff_band(d: int) -> int {
    if d == 0 {
        0
    } else if d > 0 {
        1
    } else {
        2
    }
}

/// Symmetry: every edge of a well-formed graph comes with its mirror, whose
/// distance is negated.
pub proof fn lemma_variation_symmetry(v: &Variator, a: TypeID, b: TypeID, d: int)
    requires
        v.wf(),
        has_edge(v.graph(), a, b, d),
    ensures
        has_edge(v.graph(), b, a, -d),
{
}

/// Reflexivity: every member of any tier group carries a zero-distance
/// self-edge.
pub proof fn lemma_variation_reflexive(v: &Variator, a: TypeID)
    requires
        v.wf(),
        v.graph().dom().contains(a),
    ensures
        has_edge(v.graph(), a, a, 0),
{
}

/// Ordering: within one node's edge list, all equal-rank edges precede all
/// upgrade edges, which precede all downgrade edges.
pub proof fn lemma_variation_ordering(v: &Variator, a: TypeID, i: int, j: int)
    requires
        v.wf(),
        v.graph().dom().contains(a),
        0 <= i < j < v.graph()[a].len(),
    ensures
        diff_band(v.graph()[a][i].meta_diff as int) <= diff_band(v.graph()[a][j].meta_diff as int),
{
    let list = v.graph()[a];
    assert(edge_sort_key(list[i]) <= edge_sort_key(list[j]));
    assert(-MAX_RANK <= list[i].meta_diff <= MAX_RANK);
    assert(-MAX_RANK <= list[j].meta_diff <= MAX_RANK);
}

/// Rank given to a named special-case item appended to a catalog-derived
/// ladder: high enough to sit above every catalog tier.
pub const SPECIAL_CASE_RANK: i64 = 17;

/// `m` with every id of `ids` (re)bound to `rank`.
pub open spec fn override_all(m: Map<i64, i64>, ids: Seq<i64>, rank: i64) -> Map<i64, i64>
    decreases ids.len(),
{
    if ids.len() == 0 {
        m
    } else {
        override_all(m, ids.drop_last(), rank).insert(ids.last(), rank)
    }
}

/// The tier map of ordered rank lists: members of the first list get rank 1,
/// of the second rank 2, and so on; a later occurrence overrides an earlier.
pub open spec fn ranked_map(lists: Seq<Seq<i64>>) -> Map<i64, i64>
    decreases lists.len(),
{
    if lists.len() == 0 {
        Map::empty()
    } else {
        override_all(ranked_map(lists.drop_last()), lists.last(), lists.len() as i64)
    }
}

/// The id sequences of a vector of id vectors.
pub open spec fn lists_view(l: Seq<Vec<i64>>) -> Seq<Seq<i64>> {
    l.map_values(|v: Vec<i64>| v@)
}

/// Builds the tier group of ordered rank lists: list position is the rank.
/// Serves both the explicit tier rules and the attribute-derived rules, whose
/// equal-value classes arrive already ordered.
pub fn tiers_from_ranked_lists(lists: &Vec<Vec<i64>>) -> (r: AssocVec<i64>)
    requires
        lists@.len() <= MAX_RANK,
    ensures
        r.wf(),
        r@ == ranked_map(lists_view(lists@)),
{
    let n = lists.len();
    let mut tg: AssocVec<i64> = AssocVec::new();
    proof {
        assert(lists_view(lists@).take(0) =~= Seq::<Seq<i64>>::empty());
        assert(tg@ =~= ranked_map(lists_view(lists@).take(0)));
    }
    let mut gi: usize = 0;
    while gi < n
        invariant
            gi <= n,
            n == lists@.len(),
            n <= MAX_RANK,
            tg.wf(),
            tg@ == ranked_map(lists_view(lists@).take(gi as int)),
        decreases n - gi,
    {
        let rank: i64 = (gi as i64) + 1;
        let m = lists[gi].len();
        let ghost ids = lists@[gi as int]@;
        let ghost base = tg@;
        let mut j: usize = 0;
        while j < m
            invariant
                j <= m,
                gi < n,
                n == lists@.len(),
                m == ids.len(),
                ids == lists@[gi as int]@,
                tg.wf(),
                tg@ == override_all(base, ids.take(j as int), rank),
            decreases m - j,
        {
            let id = lists[gi][j];
            proof {
                assert(ids.take(j + 1).drop_last() =~= ids.take(j as int));
                assert(ids.take(j + 1).last() == ids[j as int]);
            }
            tg.insert(id, rank);
            j = j + 1;
        }
        proof {
            assert(ids.take(m as int) =~= ids);
            let lv = lists_view(lists@);
            assert(lv.take(gi + 1).drop_last() =~= lv.take(gi as int));
            assert(lv.take(gi + 1).last() == ids);
            assert(lv.take(gi + 1).len() == gi + 1);
            assert(tg@ == ranked_map(lv.take(gi + 1)));
        }
        gi = gi + 1;
    }
    proof {
        assert(lists_view(lists@).take(n as int) =~= lists_view(lists@));
    }
    tg
}

/// Builds the tier group of a catalog-derived ladder: the catalog's rank per
/// known variation, with the named special-case items forced to
/// [`SPECIAL_CASE_RANK`].
pub fn tiers_from_meta(variations: &AssocVec<i64>, specials: &Vec<i64>) -> (r: AssocVec<i64>)
    requires
        variations.wf(),
    ensures
        r.wf(),
        r@ == override_all(variations@, specials@, SPECIAL_CASE_RANK),
{
    let mut tg = variations.duplicate();
    let m = specials.len();
    proof {
        assert(specials@.take(0) =~= Seq::<i64>::empty());
        assert(tg@ =~= override_all(variations@, specials@.take(0), SPECIAL_CASE_RANK));
    }
    let mut j: usize = 0;
    while j < m
        invariant
            j <= m,
            m == specials@.len(),
            tg.wf(),
            tg@ == override_all(variations@, specials@.take(j as int), SPECIAL_CASE_RANK),
        decreases m - j,
    {
        proof {
            assert(specials@.take(j + 1).drop_last() =~= specials@.take(j as int));
            assert(specials@.take(j + 1).last() == specials@[j as int]);
        }
        tg.insert(specials[j], SPECIAL_CASE_RANK);
        j = j + 1;
    }
    proof {
        assert(specials@.take(m as int) =~= specials@);
    }
    tg
}

/// Builds the two-member tier group pairing a tech-two item (rank 2) with its
/// tech-one counterpart (rank 1).
pub fn tiers_from_t1_pair(t2: TypeID, t1: TypeID) -> (r: AssocVec<i64>)
    ensures
        r.wf(),
        r@ == Map::<i64, i64>::empty().insert(t2, 2).insert(t1, 1),
    {
    let mut tg: AssocVec<i64> = AssocVec::new();
    tg.insert(t2, 2);
    tg.insert(t1, 1);
    tg
}

/// A catalog-derived ladder rule, already resolved against the catalog: the
/// known variations of a base item with their catalog ranks, plus up to two
/// special-case items to pin at [`SPECIAL_CASE_RANK`].
pub struct MetaLadder {
    pub variations: AssocVec<i64>,
    pub specials: Vec<i64>,
}

/// The variation rules, resolved to ids. `alternatives` and `from_attribute`
/// hold ordered rank lists (for the latter, classes of items whose attribute
/// values tie, in sorted value order); `accept_t1` pairs a tech-two id with
/// its tech-one id; `cargo_ignore` lists cargo items the differ skips.
pub struct VariationConfig {
    pub alternatives: Vec<Vec<Vec<i64>>>,
    pub from_meta: Vec<MetaLadder>,
    pub accept_t1: Vec<(i64, i64)>,
    pub from_attribute: Vec<Vec<Vec<i64>>>,
    pub cargo_ignore: Vec<i64>,
}

impl VariationConfig {
    pub open spec fn wf(&self) -> bool {
        &&& forall|i: int| 0 <= i < self.alternatives@.len() ==> (
        #[trigger] self.alternatives@[i])@.len() <= MAX_RANK
        &&& forall|i: int| 0 <= i < self.from_attribute@.len() ==> (
        #[trigger] self.from_attribute@[i])@.len() <= MAX_RANK
        &&& forall|i: int| 0 <= i < self.from_meta@.len() ==> (
        #[trigger] self.from_meta@[i]).variations.wf()
    }

    /// Every tier group the configuration declares, in merge order.
    pub open spec fn groups(&self) -> Seq<Map<i64, i64>> {
        self.alternatives@.map_values(|g: Vec<Vec<i64>>| ranked_map(lists_view(g@))) + self.from_meta@.map_values(
            |m: MetaLadder| override_all(m.variations@, m.specials@, SPECIAL_CASE_RANK),
        ) + self.accept_t1@.map_values(
            |p: (i64, i64)| Map::<i64, i64>::empty().insert(p.0, 2).insert(p.1, 1),
        ) + self.from_attribute@.map_values(|g: Vec<Vec<i64>>| ranked_map(lists_view(g@)))
    }
}

/// No id belongs to two distinct declared tier groups.
pub open spec fn groups_disjoint(gs: Seq<Map<i64, i64>>) -> bool {
    forall|u: int, w: int, k: i64|
        0 <= u < w < gs.len() && #[trigger] gs[u].dom().contains(k) ==> !(
        #[trigger] gs[w].dom().contains(k))
}

/// Builds a complete variation snapshot from resolved configuration, merging
/// every declared tier group and collecting the cargo-ignore set. Succeeds
/// exactly when no id is declared twice and every rank is in range; on
/// failure nothing is produced, so a caller's previous snapshot stays intact.
pub fn build_variator(cfg: &VariationConfig) -> (r: Result<Variator, BuildError>)
    requires
        cfg.wf(),
    ensures
        r is Ok <==> (groups_disjoint(cfg.groups()) && forall|u: int|
            0 <= u < cfg.groups().len() ==> ranks_valid(#[trigger] cfg.groups()[u])),
        r matches Ok(v) ==> {
            &&& v.wf()
            &&& forall|u: int, k: i64|
                0 <= u < cfg.groups().len() && #[trigger] cfg.groups()[u].dom().contains(k)
                    ==> edges_match_group(v.graph()[k], cfg.groups()[u], k)
            &&& forall|k: i64| v.graph().dom().contains(k) <==> exists|u: int|
                0 <= u < cfg.groups().len() && (#[trigger] cfg.groups()[u]).dom().contains(k)
            &&& forall|k: i64| v.cargo_ignore@.contains(k) <==> cfg.cargo_ignore@.contains(k)
        },
{
    let ghost gs = cfg.groups();
    let mut staged: Vec<AssocVec<i64>> = Vec::new();
    let na = cfg.alternatives.len();
    let mut i: usize = 0;
    while i < na
        invariant
            i <= na,
            na == cfg.alternatives@.len(),
            cfg.wf(),
            gs == cfg.groups(),
            staged@.len() == i,
            forall|t: int| 0 <= t < i ==> (#[trigger] staged@[t])@ == gs[t] && staged@[t].wf(),
        decreases na - i,
    {
        let tg = tiers_from_ranked_lists(&cfg.alternatives[i]);
        staged.push(tg);
        i = i + 1;
    }
    let nm = cfg.from_meta.len();
    let mut i2: usize = 0;
    while i2 < nm
        invariant
            i2 <= nm,
            nm == cfg.from_meta@.len(),
            na == cfg.alternatives@.len(),
            cfg.wf(),
            gs == cfg.groups(),
            staged@.len() == na + i2,
            forall|t: int| 0 <= t < na + i2 ==> (#[trigger] staged@[t])@ == gs[t]
                && staged@[t].wf(),
        decreases nm - i2,
    {
        let entry = &cfg.from_meta[i2];
        let tg = tiers_from_meta(&entry.variations, &entry.specials);
        staged.push(tg);
        i2 = i2 + 1;
    }
    let nt = cfg.accept_t1.len();
    let mut i3: usize = 0;
    while i3 < nt
        invariant
            i3 <= nt,
            nt == cfg.accept_t1@.len(),
            na == cfg.alternatives@.len(),
            nm == cfg.from_meta@.len(),
            cfg.wf(),
            gs == cfg.groups(),
            staged@.len() == na + nm + i3,
            forall|t: int| 0 <= t < na + nm + i3 ==> (#[trigger] staged@[t])@ == gs[t]
                && staged@[t].wf(),
        decreases nt - i3,
    {
        let pair = cfg.accept_t1[i3];
        let tg = tiers_from_t1_pair(pair.0, pair.1);
        staged.push(tg);
        i3 = i3 + 1;
    }
    let nf = cfg.from_attribute.len();
    let mut i4: usize = 0;
    while i4 < nf
        invariant
            i4 <= nf,
            nf == cfg.from_attribute@.len(),
            na == cfg.alternatives@.len(),
            nm == cfg.from_meta@.len(),
            nt == cfg.accept_t1@.len(),
            cfg.wf(),
            gs == cfg.groups(),
            staged@.len() == na + nm + nt + i4,
            forall|t: int| 0 <= t < na + nm + nt + i4 ==> (#[trigger] staged@[t])@ == gs[t]
                && staged@[t].wf(),
        decreases nf - i4,
    {
        let tg = tiers_from_ranked_lists(&cfg.from_attribute[i4]);
        staged.push(tg);
        i4 = i4 + 1;
    }
    proof {
        assert(gs.len() == staged@.len());
    }
    let total = staged.len();
    let mut graph: AssocVec<Vec<Variation>> = AssocVec::new();
    let mut t: usize = 0;
    while t < total
        invariant
            t <= total,
            total == gs.len(),
            gs == cfg.groups(),
            staged@.len() == total,
            forall|w: int| 0 <= w < total ==> (#[trigger] staged@[w])@ == gs[w] && staged@[w].wf(),
            graph.wf(),
            graph_wf(gview(&graph)),
            forall|a: i64| gview(&graph).dom().contains(a) <==> exists|u: int|
                0 <= u < t && (#[trigger] gs[u]).dom().contains(a),
            forall|u: int, k: i64| 0 <= u < t && #[trigger] gs[u].dom().contains(k)
                ==> edges_match_group(gview(&graph)[k], gs[u], k),
            forall|u: int, w: int, k: i64|
                0 <= u < w < t && #[trigger] gs[u].dom().contains(k) ==> !(
                #[trigger] gs[w].dom().contains(k)),
            forall|u: int| 0 <= u < t ==> ranks_valid(#[trigger] gs[u]),
        decreases total - t,
    {
        let ghost pre = gview(&graph);
        match merge_tiers(&mut graph, &staged[t]) {
            Ok(()) => {
                proof {
                    assert forall|u: int, k: i64|
                        0 <= u < t + 1 && #[trigger] gs[u].dom().contains(k)
                            implies edges_match_group(gview(&graph)[k], gs[u], k) by {
                        if u < t {
                            assert(pre.dom().contains(k));
                            assert(gview(&graph)[k] == pre[k]);
                        }
                    }
                    assert forall|u: int, w: int, k: i64|
                        0 <= u < w < t + 1 && #[trigger] gs[u].dom().contains(k) implies !(
                        #[trigger] gs[w].dom().contains(k)) by {
                        if w == t {
                            assert(pre.dom().contains(k));
                            assert(group_disjoint(pre, gs[t as int]));
                        }
                    }
                }
            },
            Err(e) => {
                proof {
                    if ranks_valid(gs[t as int]) {
                        assert(!group_disjoint(pre, gs[t as int]));
                        let k = choose|k: i64|
                            gs[t as int].dom().contains(k) && pre.dom().contains(k);
                        let u = choose|u: int| 0 <= u < t && #[trigger] gs[u].dom().contains(k);
                        assert(gs[u].dom().contains(k) && gs[t as int].dom().contains(k));
                        assert(!groups_disjoint(gs));
                    } else {
                        assert(!ranks_valid(cfg.groups()[t as int]));
                    }
                }
                return Err(e);
            },
        }
        t = t + 1;
    }
    let mut ignore = IdSet::new();
    let nc = cfg.cargo_ignore.len();
    let mut c: usize = 0;
    while c < nc
        invariant
            c <= nc,
            nc == cfg.cargo_ignore@.len(),
            ignore.wf(),
            forall|k: i64| ignore@.contains(k) <==> cfg.cargo_ignore@.take(c as int).contains(k),
        decreases nc - c,
    {
        let ghost before = ignore@;
        ignore.insert(cfg.cargo_ignore[c]);
        proof {
            assert forall|k: i64|
                ignore@.contains(k) <==> cfg.cargo_ignore@.take(c + 1).contains(k) by {
                let s = cfg.cargo_ignore@;
                if ignore@.contains(k) {
                    if before.contains(k) {
                        let j = choose|j: int| 0 <= j < c && #[trigger] s.take(c as int)[j] == k;
                        assert(s.take(c + 1)[j] == k);
                    } else {
                        assert(s.take(c + 1)[c as int] == k);
                    }
                }
                if s.take(c + 1).contains(k) {
                    let j = choose|j: int| 0 <= j < c + 1 && #[trigger] s.take(c + 1)[j] == k;
                    if j < c {
                        assert(s.take(c as int)[j] == k);
                    }
                }
            }
        }
        c = c + 1;
    }
    proof {
        assert(cfg.cargo_ignore@.take(nc as int) =~= cfg.cargo_ignore@);
    }
    Ok(Variator { variations: graph, cargo_ignore: ignore })
}

/// Rebuilds the variation snapshot from configuration and swaps it in whole.
/// A failed rebuild reports the configuration error and leaves the
/// previously active snapshot fully intact: the rebuild is all-or-nothing.
pub fn reload_variations(current: &mut Variator, cfg: &VariationConfig) -> (r: Result<
    (),
    BuildError,
>)
    requires
        cfg.wf(),
    ensures
        r is Ok <==> (groups_disjoint(cfg.groups()) && forall|u: int|
            0 <= u < cfg.groups().len() ==> ranks_valid(#[trigger] cfg.groups()[u])),
        r is Err ==> *final(current) == *old(current),
        r is Ok ==> {
            &&& final(current).wf()
            &&& forall|u: int, k: i64|
                0 <= u < cfg.groups().len() && #[trigger] cfg.groups()[u].dom().contains(k)
                    ==> edges_match_group(final(current).graph()[k], cfg.groups()[u], k)
            &&& forall|k: i64| final(current).graph().dom().contains(k) <==> exists|u: int|
                0 <= u < cfg.groups().len() && (#[trigger] cfg.groups()[u]).dom().contains(k)
            &&& forall|k: i64| final(current).cargo_ignore@.contains(k)
                <==> cfg.cargo_ignore@.contains(k)
        },
{
    match build_variator(cfg) {
        Ok(new_variator) => {
            *current = new_variator;
            Ok(())
        },
        Err(e) => Err(e),
    }
}

/// The cargo adjustment applied when a configured drug is detected: item
/// quantities to add, and items to remove.
pub struct DrugChanger {
    pub add: AssocVec<i64>,
    pub remove: IdSet,
}

/// One drug-override rule, resolved to ids: the drug that triggers it, the
/// items it adds with their quantities, and the items it removes.
pub struct DrugRule {
    pub detect: TypeID,
    pub add: Vec<(TypeID, i64)>,
    pub remove: Vec<TypeID>,
}

/// The changer `c` carries exactly what `rule` declares.
pub open spec fn changer_matches(c: &DrugChanger, rule: &DrugRule) -> bool {
    &&& c.add.wf()
    &&& c.remove.wf()
    &&& c.add@ == crate::idmap::map_of(rule.add@)
    &&& forall|k: i64| #[trigger] c.remove@.contains(k) <==> rule.remove@.contains(k)
}

/// Builds the drug-override table: one changer per detected drug id, a later
/// rule for the same drug overriding an earlier one.
pub fn drug_handling(rules: &Vec<DrugRule>) -> (r: AssocVec<DrugChanger>)
    ensures
        r.wf(),
        forall|k: i64| #[trigger] r@.dom().contains(k) <==> exists|i: int|
            0 <= i < rules@.len() && (#[trigger] rules@[i]).detect == k,
        forall|i: int|
            0 <= i < rules@.len() && (forall|j: int|
                i < j < rules@.len() ==> (#[trigger] rules@[j]).detect != rules@[i].detect)
                ==> changer_matches(&r@[(#[trigger] rules@[i]).detect], &rules@[i]),
{
    let n = rules.len();
    let mut out: AssocVec<DrugChanger> = AssocVec::new();
    let mut i: usize = 0;
    while i < n
        invariant
            i <= n,
            n == rules@.len(),
            out.wf(),
            forall|k: i64| #[trigger] out@.dom().contains(k) <==> exists|j: int|
                0 <= j < i && (#[trigger] rules@[j]).detect == k,
            forall|j: int|
                0 <= j < i && (forall|j2: int|
                    j < j2 < i && 0 <= j2 ==> (#[trigger] rules@[j2]).detect != rules@[j].detect)
                    ==> changer_matches(&out@[(#[trigger] rules@[j]).detect], &rules@[j]),
        decreases n - i,
    {
        let rule = &rules[i];
        let mut add: AssocVec<i64> = AssocVec::new();
        let m = rule.add.len();
        let mut t: usize = 0;
        proof {
            assert(add@ =~= crate::idmap::map_of(rule.add@.take(0)));
        }
        while t < m
            invariant
                t <= m,
                m == rule.add@.len(),
                add.wf(),
                add@ == crate::idmap::map_of(rule.add@.take(t as int)),
            decreases m - t,
        {
            let pair = rule.add[t];
            proof {
                assert(rule.add@.take(t + 1).drop_last() =~= rule.add@.take(t as int));
                assert(rule.add@.take(t + 1).last() == pair);
            }
            add.insert(pair.0, pair.1);
            t = t + 1;
        }
        proof {
            assert(rule.add@.take(m as int) =~= rule.add@);
        }
        let mut remove = IdSet::new();
        let rm = rule.remove.len();
        let mut t2: usize = 0;
        while t2 < rm
            invariant
                t2 <= rm,
                rm == rule.remove@.len(),
                remove.wf(),
                forall|k: i64| #[trigger] remove@.contains(k) <==> rule.remove@.take(
                    t2 as int,
                ).contains(k),
            decreases rm - t2,
        {
            let ghost before = remove@;
            remove.insert(rule.remove[t2]);
            proof {
                let rs = rule.remove@;
                assert forall|k: i64| #[trigger] remove@.contains(k) <==> rs.take(t2 + 1).contains(
                    k,
                ) by {
                    if remove@.contains(k) {
                        if before.contains(k) {
                            let j = choose|j: int| 0 <= j < t2 && #[trigger] rs.take(t2 as int)[j] == k;
                            assert(rs.take(t2 + 1)[j] == k);
                        } else {
                            assert(rs.take(t2 + 1)[t2 as int] == k);
                        }
                    }
                    if rs.take(t2 + 1).contains(k) {
                        let j = choose|j: int| 0 <= j < t2 + 1 && #[trigger] rs.take(t2 + 1)[j] == k;
                        if j < t2 {
                            assert(rs.take(t2 as int)[j] == k);
                        }
                    }
                }
            }
            t2 = t2 + 1;
        }
        proof {
            assert(rule.remove@.take(rm as int) =~= rule.remove@);
        }
        let ghost before_out = out@;
        out.insert(rule.detect, DrugChanger { add, remove });
        proof {
            assert forall|k: i64| #[trigger] out@.dom().contains(k) <==> exists|j: int|
                0 <= j < i + 1 && (#[trigger] rules@[j]).detect == k by {
                if k == rule.detect {
                    assert(rules@[i as int].detect == k);
                } else {
                    assert(out@.dom().contains(k) == before_out.dom().contains(k));
                }
            }
            assert forall|j: int|
                0 <= j < i + 1 && (forall|j2: int|
                    j < j2 < i + 1 && 0 <= j2 ==> (#[trigger] rules@[j2]).detect
                        != rules@[j].detect) implies changer_matches(
                &out@[(#[trigger] rules@[j]).detect],
                &rules@[j],
            ) by {
                if j == i {
                    assert(out@[rule.detect] == (DrugChanger { add, remove }));
                } else {
                    assert(rules@[i as int].detect != rules@[j].detect);
                    assert(out@[rules@[j].detect] == before_out[rules@[j].detect]);
                }
            }
        }
        i = i + 1;
    }
    out
}

/// A per-hull allowance: module quantities a submission may leave out, and
/// quantities it may add, without counting against its diff.
pub struct ModuleVariation {
    pub missing: AssocVec<i64>,
    pub extra: AssocVec<i64>,
}

/// One fit-variation rule, resolved to ids.
pub struct FitVariationRule {
    pub hull: TypeID,
    pub missing: Vec<(TypeID, i64)>,
    pub extra: Vec<(TypeID, i64)>,
}

/// The allowance `mv` carries exactly what `rule` declares.
pub open spec fn variation_matches(mv: &ModuleVariation, rule: &FitVariationRule) -> bool {
    &&& mv.missing.wf()
    &&& mv.extra.wf()
    &&& mv.missing@ == crate::idmap::map_of(rule.missing@)
    &&& mv.extra@ == crate::idmap::map_of(rule.extra@)
}

/// Builds one allowance table from a rule's pair list.
fn counts_from_pairs(pairs: &Vec<(TypeID, i64)>) -> (r: AssocVec<i64>)
    ensures
        r.wf(),
        r@ == crate::idmap::map_of(pairs@),
{
    let n = pairs.len();
    let mut out: AssocVec<i64> = AssocVec::new();
    proof {
        assert(out@ =~= crate::idmap::map_of(pairs@.take(0)));
    }
    let mut t: usize = 0;
    while t < n
        invariant
            t <= n,
            n == pairs@.len(),
            out.wf(),
            out@ == crate::idmap::map_of(pairs@.take(t as int)),
        decreases n - t,
    {
        let pair = pairs[t];
        proof {
            assert(pairs@.take(t + 1).drop_last() =~= pairs@.take(t as int));
            assert(pairs@.take(t + 1).last() == pair);
        }
        out.insert(pair.0, pair.1);
        t = t + 1;
    }
    proof {
        assert(pairs@.take(n as int) =~= pairs@);
    }
    out
}

/// An element-for-element copy of an allowance list.
fn copy_variation_list(l: &Vec<ModuleVariation>) -> (r: Vec<ModuleVariation>)
    ensures
        r@.len() == l@.len(),
        forall|w: int| 0 <= w < r@.len() ==> ((#[trigger] r@[w]).missing@ == l@[w].missing@
            && r@[w].extra@ == l@[w].extra@ && r@[w].missing.wf() == l@[w].missing.wf()
            && r@[w].extra.wf() == l@[w].extra.wf()),
{
    let n = l.len();
    let mut out: Vec<ModuleVariation> = Vec::new();
    let mut t: usize = 0;
    while t < n
        invariant
            t <= n,
            n == l@.len(),
            out@.len() == t,
            forall|w: int| 0 <= w < t ==> ((#[trigger] out@[w]).missing@ == l@[w].missing@
                && out@[w].extra@ == l@[w].extra@ && out@[w].missing.wf() == l@[w].missing.wf()
                && out@[w].extra.wf() == l@[w].extra.wf()),
        decreases n - t,
    {
        let mv = &l[t];
        out.push(ModuleVariation { missing: mv.missing.duplicate(), extra: mv.extra.duplicate() });
        t = t + 1;
    }
    out
}

/// Builds the per-hull fit-variation table: each rule appends one allowance
/// to its hull's list, in declaration order.
pub fn fit_module_variations(rules: &Vec<FitVariationRule>) -> (r: AssocVec<Vec<ModuleVariation>>)
    ensures
        r.wf(),
        forall|h: i64| #[trigger] r@.dom().contains(h) <==> exists|i: int|
            0 <= i < rules@.len() && (#[trigger] rules@[i]).hull == h,
        forall|h: i64, t: int|
            #![trigger r@[h]@[t]]
            r@.dom().contains(h) && 0 <= t < r@[h]@.len() ==> exists|i: int|
                0 <= i < rules@.len() && (#[trigger] rules@[i]).hull == h && variation_matches(
                    &r@[h]@[t],
                    &rules@[i],
                ),
{
    let n = rules.len();
    let mut out: AssocVec<Vec<ModuleVariation>> = AssocVec::new();
    let mut i: usize = 0;
    while i < n
        invariant
            i <= n,
            n == rules@.len(),
            out.wf(),
            forall|h: i64| #[trigger] out@.dom().contains(h) <==> exists|j: int|
                0 <= j < i && (#[trigger] rules@[j]).hull == h,
            forall|h: i64, t: int|
                #![trigger out@[h]@[t]]
                out@.dom().contains(h) && 0 <= t < out@[h]@.len() ==> exists|j: int|
                    0 <= j < i && (#[trigger] rules@[j]).hull == h && variation_matches(
                        &out@[h]@[t],
                        &rules@[j],
                    ),
        decreases n - i,
    {
        let rule = &rules[i];
        let hull = rule.hull;
        let mv = ModuleVariation {
            missing: counts_from_pairs(&rule.missing),
            extra: counts_from_pairs(&rule.extra),
        };
        let ghost before = out@;
        let mut list = match out.get(hull) {
            Some(existing) => copy_variation_list(existing),
            None => Vec::new(),
        };
        let ghost list_before = list@;
        list.push(mv);
        out.insert(hull, list);
        proof {
            assert forall|h: i64, t: int|
                #![trigger out@[h]@[t]]
                out@.dom().contains(h) && 0 <= t < out@[h]@.len() implies exists|j: int|
                    0 <= j < i + 1 && (#[trigger] rules@[j]).hull == h && variation_matches(
                        &out@[h]@[t],
                        &rules@[j],
                    ) by {
                if h == hull {
                    if t == out@[h]@.len() - 1 {
                        assert(rules@[i as int].hull == h && variation_matches(
                            &out@[h]@[t],
                            &rules@[i as int],
                        ));
                    } else {
                        assert(before.dom().contains(h));
                        let j = choose|j: int|
                            0 <= j < i && (#[trigger] rules@[j]).hull == h && variation_matches(
                                &before[h]@[t],
                                &rules@[j],
                            );
                        assert(variation_matches(&out@[h]@[t], &rules@[j]));
                    }
                } else {
                    assert(out@[h] == before[h]);
                }
            }
        }
        i = i + 1;
    }
    out
}

} // verus!
