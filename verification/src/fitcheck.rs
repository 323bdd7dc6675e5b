//! The approval pipeline: skill verification, best-match selection,
//! categorization, tag assignment and the hard-coded hour-threshold
//! override, folded over one submitted loadout.

use vstd::prelude::*;

use crate::TypeID;
use crate::categories::{CategoryData, categorize, rule_matches};
use crate::fitdiffer::DiffResult;
use crate::fitmatch::{Identifier, ScoreWeights, selected_best};
use crate::fits::FitData;
use crate::fitting::{DoctrineFit, Fitting};
use crate::idmap::{AssocVec, count_of};
use crate::skills::Skills;
use crate::variations::Variator;
use vstd::string::StringExecFns;

verus! {

/// The hull the hour-threshold business rule singles out.
pub const HIGH_HOUR_HULL: TypeID = 17740;

/// Cumulative time in fleet beyond which the hour-threshold rule fires.
pub const DPS_HOURS_THRESHOLD_SECONDS: i64 = 20 * 3600;

/// A tag the checker can attach to its verdict.
#[derive(Clone, Copy, PartialEq, Eq, Structural, Debug)]
pub enum Tag {
    HqFc,
    Trainee,
    Logi,
    Alt,
    Dps,
    DpsHoursReached,
}

/// A badge a pilot may hold.
#[derive(Clone, Copy, PartialEq, Eq, Structural, Debug)]
pub enum Badge {
    Logi,
    Alt,
    Dps,
}

/// A privileged access key a pilot may hold.
#[derive(Clone, Copy, PartialEq, Eq, Structural, Debug)]
pub enum AccessKey {
    HqFc,
    Trainee,
}

/// What the checker knows about the submitting pilot.
pub struct PilotData {
    pub implants: Vec<TypeID>,
    pub time_in_fleet: i64,
    pub skills: Skills,
    pub access_keys: Vec<AccessKey>,
}

/// The skill requirements of one item of the submitted loadout (the hull or
/// a fitted module), as the type catalog reports them: the item's display
/// name and its required (skill, level) pairs.
pub struct ItemSkillReqs {
    pub name: String,
    pub reqs: AssocVec<i64>,
}

impl ItemSkillReqs {
    pub open spec fn wf(&self) -> bool {
        self.reqs.wf()
    }
}

/// The machine-readable view of the selected match, for display: the matched
/// reference fit's name and the reportable diff categories.
pub struct PubAnalysis {
    pub name: String,
    pub missing: AssocVec<i64>,
    pub extra: AssocVec<i64>,
    pub downgraded: AssocVec<AssocVec<i64>>,
    pub cargo_missing: AssocVec<i64>,
}

/// The checker's verdict.
pub struct Output {
    pub approved: bool,
    pub tags: Vec<Tag>,
    pub category: String,
    pub errors: Vec<String>,
    pub analysis: Option<PubAnalysis>,
}

/// A diff passes doctrine conformance when nothing is missing, nothing is
/// downgraded, and no cargo is short. Extra and upgraded modules never block.
pub open spec fn spec_acceptable(d: &DiffResult) -> bool {
    &&& d.module_missing.pairs().len() == 0
    &&& d.module_downgraded.pairs().len() == 0
    &&& d.cargo_missing.pairs().len() == 0
}

/// Exec mirror of [`spec_acceptable`].
pub fn fit_acceptable(d: &DiffResult) -> (r: bool)
    ensures
        r == spec_acceptable(d),
{
    d.module_missing.is_empty() && d.module_downgraded.is_empty() && d.cargo_missing.is_empty()
}

/// Approval rule: acceptance reads only the missing, downgraded and
/// cargo-shortfall tables; diffs that agree on those three are judged alike,
/// whatever their extra or upgraded tables hold.
pub proof fn lemma_approval_ignores_extras(d1: &DiffResult, d2: &DiffResult)
    requires
        d1.module_missing.pairs() == d2.module_missing.pairs(),
        d1.module_downgraded.pairs() == d2.module_downgraded.pairs(),
        d1.cargo_missing.pairs() == d2.cargo_missing.pairs(),
    ensures
        spec_acceptable(d1) == spec_acceptable(d2),
{
}

/// The message the skill check files for one unusable item.
pub open spec fn msg_of(name: Seq<char>) -> Seq<char> {
    "Missing skills to online/use '"@ + name + "'"@
}

/// The messages one item contributes: one per required skill the pilot has
/// not trained to the required level, in requirement order.
pub open spec fn unmet_msgs(name: Seq<char>, ps: Seq<(i64, i64)>, skills: Map<i64, i64>) -> Seq<
    Seq<char>,
>
    decreases ps.len(),
{
    if ps.len() == 0 {
        Seq::empty()
    } else {
        unmet_msgs(name, ps.drop_last(), skills) + (if count_of(skills, ps.last().0)
            < ps.last().1 {
            seq![msg_of(name)]
        } else {
            Seq::empty()
        })
    }
}

/// All messages of the skill check, in item order.
pub open spec fn skill_errors(items: Seq<ItemSkillReqs>, skills: Map<i64, i64>) -> Seq<Seq<char>>
    decreases items.len(),
{
    if items.len() == 0 {
        Seq::empty()
    } else {
        skill_errors(items.drop_last(), skills) + unmet_msgs(
            items.last().name@,
            items.last().reqs.pairs(),
            skills,
        )
    }
}

/// Whether the pilot's membership data assigns the tag, given whether the
/// hour-threshold rule fired. A privileged access key assigns exactly its
/// own tag and suppresses all badge-derived tags.
pub open spec fn tag_assigned(t: Tag, pilot: &PilotData, badges: Seq<Badge>, fired: bool) -> bool {
    let hq = pilot.access_keys@.contains(AccessKey::HqFc);
    let trainee = pilot.access_keys@.contains(AccessKey::Trainee);
    match t {
        Tag::HqFc => hq,
        Tag::Trainee => !hq && trainee,
        Tag::Logi => !hq && !trainee && badges.contains(Badge::Logi),
        Tag::Alt => !hq && !trainee && badges.contains(Badge::Alt),
        Tag::Dps => !hq && !trainee && badges.contains(Badge::Dps),
        Tag::DpsHoursReached => fired,
    }
}

/// Whether the hour-threshold business rule fires: the designated hull,
/// above the time threshold, without the DPS tag.
pub open spec fn override_fires(pilot: &PilotData, fit: &Fitting, badges: Seq<Badge>) -> bool {
    &&& fit.hull == HIGH_HOUR_HULL
    &&& pilot.time_in_fleet > DPS_HOURS_THRESHOLD_SECONDS
    &&& !(!pilot.access_keys@.contains(AccessKey::HqFc) && !pilot.access_keys@.contains(
        AccessKey::Trainee,
    ) && badges.contains(Badge::Dps))
}

/// Whether the analysis reports a clean doctrine match.
pub open spec fn analysis_clean(o: &Option<PubAnalysis>) -> bool {
    match o {
        Some(a) => a.missing.pairs().len() == 0 && a.downgraded.pairs().len() == 0
            && a.cargo_missing.pairs().len() == 0,
        None => false,
    }
}

fn has_key(keys: &Vec<AccessKey>, k: AccessKey) -> (r: bool)
    ensures
        r == keys@.contains(k),
{
    let n = keys.len();
    let mut i: usize = 0;
    while i < n
        invariant
            i <= n,
            n == keys@.len(),
            forall|j: int| 0 <= j < i ==> keys@[j] != k,
        decreases n - i,
    {
        if keys[i] == k {
            return true;
        }
        i = i + 1;
    }
    false
}

fn has_badge(badges: &Vec<Badge>, b: Badge) -> (r: bool)
    ensures
        r == badges@.contains(b),
{
    let n = badges.len();
    let mut i: usize = 0;
    while i < n
        invariant
            i <= n,
            n == badges@.len(),
            forall|j: int| 0 <= j < i ==> badges@[j] != b,
        decreases n - i,
    {
        if badges[i] == b {
            return true;
        }
        i = i + 1;
    }
    false
}

/// The skill check: for every given item, compare each required skill level
/// against the pilot's trained level, and file one message per shortfall.
/// This stage never blocks approval; skills gate usability, not doctrine
/// conformance.
fn collect_skill_errors(items: &Vec<ItemSkillReqs>, skills: &Skills) -> (r: Vec<String>)
    requires
        forall|i: int| 0 <= i < items@.len() ==> (#[trigger] items@[i]).wf(),
        skills.wf(),
    ensures
        r@.map_values(|s: String| s@) == skill_errors(items@, skills.levels@),
{
    let n = items.len();
    let mut errors: Vec<String> = Vec::new();
    proof {
        assert(items@.take(0) =~= Seq::<ItemSkillReqs>::empty());
        assert(errors@.map_values(|s: String| s@) =~= skill_errors(
            items@.take(0),
            skills.levels@,
        ));
    }
    let mut i: usize = 0;
    while i < n
        invariant
            i <= n,
            n == items@.len(),
            forall|j: int| 0 <= j < n ==> (#[trigger] items@[j]).wf(),
            skills.wf(),
            errors@.map_values(|s: String| s@) == skill_errors(items@.take(i as int), skills.levels@),
        decreases n - i,
    {
        let item = &items[i];
        let m = item.reqs.len();
        let ghost base = errors@.map_values(|s: String| s@);
        proof {
            assert(item.reqs.pairs().take(0) =~= Seq::<(i64, i64)>::empty());
            assert(base + unmet_msgs(item.name@, item.reqs.pairs().take(0), skills.levels@)
                =~= base);
        }
        let mut j: usize = 0;
        while j < m
            invariant
                j <= m,
                i < n,
                n == items@.len(),
                m == item.reqs.pairs().len(),
                item == &items@[i as int],
                item.reqs.wf(),
                skills.wf(),
                base == skill_errors(items@.take(i as int), skills.levels@),
                errors@.map_values(|s: String| s@) == base + unmet_msgs(
                    item.name@,
                    item.reqs.pairs().take(j as int),
                    skills.levels@,
                ),
            decreases m - j,
        {
            let skill_id = item.reqs.key_at(j);
            let required = *item.reqs.value_at(j);
            let ghost before = errors@.map_values(|s: String| s@);
            proof {
                assert(item.reqs.pairs().take(j + 1).drop_last() =~= item.reqs.pairs().take(
                    j as int,
                ));
                assert(item.reqs.pairs().take(j + 1).last() == item.reqs.pairs()[j as int]);
            }
            if skills.get(skill_id) < required {
                let mut msg = "Missing skills to online/use '".to_owned();
                msg.append(item.name.as_str());
                msg.append("'");
                proof {
                    assert(msg@ == msg_of(item.name@));
                }
                errors.push(msg);
                proof {
                    assert(errors@.map_values(|s: String| s@) =~= before.push(msg_of(item.name@)));
                    assert(before.push(msg_of(item.name@)) =~= before + seq![msg_of(item.name@)]);
                }
            } else {
                proof {
                    assert(before + Seq::<Seq<char>>::empty() =~= before);
                }
            }
            j = j + 1;
        }
        proof {
            assert(item.reqs.pairs().take(m as int) =~= item.reqs.pairs());
            assert(items@.take(i + 1).drop_last() =~= items@.take(i as int));
            assert(items@.take(i + 1).last() == items@[i as int]);
        }
        i = i + 1;
    }
    proof {
        assert(items@.take(n as int) =~= items@);
    }
    errors
}

/// The checker.
pub struct FitChecker;

impl FitChecker {
    /// Runs the pipeline in fixed order: skill check, match check,
    /// categorize, tag assignment, hour-threshold override. Always returns a
    /// verdict; a no-match condition is a normal unapproved outcome, not an
    /// error.
    pub fn check(
        pilot: &PilotData,
        fit: &Fitting,
        badges: &Vec<Badge>,
        skill_reqs: &Vec<ItemSkillReqs>,
        fits: &FitData,
        identifier: &Identifier,
        v: &Variator,
        weights: &ScoreWeights,
        category_data: &CategoryData,
    ) -> (out: Output)
        requires
            fit.wf(),
            fits.wf(),
            identifier.rules.wf(),
            v.wf(),
            weights.wf(),
            pilot.skills.wf(),
            forall|i: int| 0 <= i < skill_reqs@.len() ==> (#[trigger] skill_reqs@[i]).wf(),
        ensures
            out.errors@.map_values(|s: String| s@) == skill_errors(
                skill_reqs@,
                pilot.skills.levels@,
            ),
            (out.analysis is Some) <==> (fits.by_hull@.dom().contains(fit.hull)
                && fits.by_hull@[fit.hull]@.len() > 0),
            out.analysis matches Some(a) ==> exists|f: DoctrineFit, d: DiffResult|
                {
                    &&& #[trigger] selected_best(&f, &d, fit, fits, identifier.rules@, v, weights)
                    &&& a.name@ == f.name@
                    &&& a.missing == d.module_missing
                    &&& a.extra == d.module_extra
                    &&& a.downgraded == d.module_downgraded
                    &&& a.cargo_missing == d.cargo_missing
                },
            out.approved == (analysis_clean(&out.analysis) && !override_fires(
                pilot,
                fit,
                badges@,
            )),
            forall|t: Tag| #[trigger] out.tags@.contains(t) <==> tag_assigned(
                t,
                pilot,
                badges@,
                override_fires(pilot, fit, badges@),
            ),
            (exists|i: int|
                0 <= i < category_data.rules@.len() && rule_matches(
                    #[trigger] category_data.rules@[i],
                    fit,
                )) ==> exists|i: int|
                0 <= i < category_data.rules@.len() && rule_matches(
                    #[trigger] category_data.rules@[i],
                    fit,
                ) && out.category@ == category_data.rules@[i].1@ && (forall|j: int|
                0 <= j < i ==> !rule_matches(#[trigger] category_data.rules@[j], fit)),
            (forall|i: int|
                0 <= i < category_data.rules@.len() ==> !rule_matches(
                    #[trigger] category_data.rules@[i],
                    fit,
                )) ==> out.category@ == "offgrid"@,
    {
        let errors = collect_skill_errors(skill_reqs, &pilot.skills);
        let match_result = identifier.find_fit(fit, fits, v, weights);
        let ghost fired_spec = override_fires(pilot, fit, badges@);
        let (clean, analysis) = match match_result {
            Some((doctrine_fit, diff)) => {
                let ghost gf = doctrine_fit;
                let ghost gd = diff;
                let ok = fit_acceptable(&diff);
                let a = PubAnalysis {
                    name: doctrine_fit.name,
                    missing: diff.module_missing,
                    extra: diff.module_extra,
                    downgraded: diff.module_downgraded,
                    cargo_missing: diff.cargo_missing,
                };
                proof {
                    assert(a.name@ == gf.name@);
                    assert(a.missing == gd.module_missing);
                }
                (ok, Some(a))
            },
            None => (false, None),
        };
        let category = match categorize(category_data, fit) {
            Some(c) => c,
            None => "offgrid".to_owned(),
        };
        let hq = has_key(&pilot.access_keys, AccessKey::HqFc);
        let trainee = has_key(&pilot.access_keys, AccessKey::Trainee);
        let mut tags: Vec<Tag> = Vec::new();
        let mut dps_present = false;
        if hq {
            tags.push(Tag::HqFc);
        } else if trainee {
            tags.push(Tag::Trainee);
        } else {
            if has_badge(badges, Badge::Logi) {
                tags.push(Tag::Logi);
            }
            if has_badge(badges, Badge::Alt) {
                tags.push(Tag::Alt);
            }
            if has_badge(badges, Badge::Dps) {
                tags.push(Tag::Dps);
                dps_present = true;
            }
        }
        let ghost tags_before = tags@;
        proof {
            assert(dps_present == (!hq && !trainee && badges@.contains(Badge::Dps)));
            assert forall|t: Tag| #[trigger] tags_before.contains(t) <==> tag_assigned(
                t,
                pilot,
                badges@,
                false,
            ) by {
                if tags_before.contains(t) {
                    let j = choose|j: int| 0 <= j < tags_before.len() && tags_before[j] == t;
                }
                if tag_assigned(t, pilot, badges@, false) {
                    match t {
                        Tag::HqFc => assert(tags_before[0] == t),
                        Tag::Trainee => assert(tags_before[0] == t),
                        Tag::Logi => assert(tags_before[0] == t),
                        Tag::Alt => {
                            if badges@.contains(Badge::Logi) {
                                assert(tags_before[1] == t);
                            } else {
                                assert(tags_before[0] == t);
                            }
                        },
                        Tag::Dps => assert(tags_before[tags_before.len() - 1] == t),
                        Tag::DpsHoursReached => {},
                    }
                }
            }
        }
        let mut approved = clean;
        let fired = fit.hull == HIGH_HOUR_HULL && pilot.time_in_fleet
            > DPS_HOURS_THRESHOLD_SECONDS && !dps_present;
        if fired {
            approved = false;
            tags.push(Tag::DpsHoursReached);
        }
        proof {
            assert(fired == fired_spec);
            assert forall|t: Tag| #[trigger] tags@.contains(t) <==> tag_assigned(
                t,
                pilot,
                badges@,
                fired_spec,
            ) by {
                if fired {
                    assert(tags@ == tags_before.push(Tag::DpsHoursReached));
                    if tags@.contains(t) {
                        let j = choose|j: int| 0 <= j < tags@.len() && tags@[j] == t;
                        if j < tags@.len() - 1 {
                            assert(tags_before[j] == t);
                        }
                    }
                    if tag_assigned(t, pilot, badges@, fired_spec) {
                        if t is DpsHoursReached {
                            assert(tags@[tags@.len() - 1] == t);
                        } else {
                            assert(tags_before.contains(t));
                            let j = choose|j: int|
                                0 <= j < tags_before.len() && tags_before[j] == t;
                            assert(tags@[j] == t);
                        }
                    }
                } else {
                    assert(tags@ == tags_before);
                }
            }
        }
        Output { approved, tags, category, errors, analysis }
    }
}

} // verus!
