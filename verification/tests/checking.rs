//! Tests of the approval pipeline, the category classifier and the snapshot
//! state around them.

use fitcheck::categories::{categories, categorize, reload_category_data, rules, CategoryData, WaitlistCategory};
use fitcheck::fitcheck::{
    fit_acceptable, AccessKey, Badge, FitChecker, ItemSkillReqs, PilotData, Tag,
    DPS_HOURS_THRESHOLD_SECONDS, HIGH_HOUR_HULL,
};
use fitcheck::fitdiffer::FitDiffer;
use fitcheck::fitmatch::{build_identifier, Identifier, ScoreWeights};
use fitcheck::fits::{build_fit_data, FitData};
use fitcheck::fitting::{DoctrineFit, Fitting};
use fitcheck::idmap::AssocVec;
use fitcheck::skills::{Skills, SkillTier, SkillTiers};
use fitcheck::tags::{public_tags, reload_tags, PublicTags};
use fitcheck::variations::{build_variator, MetaLadder, VariationConfig, Variator};

const GUN_T1: i64 = 11;
const GUN_T2: i64 = 12;
const PLATE: i64 = 21;
const AMMO: i64 = 41;
const TRINKET: i64 = 55;
const GUNNERY_SKILL: i64 = 601;
const ARMOR_SKILL: i64 = 602;

fn variator() -> Variator {
    let mut guns = AssocVec::new();
    guns.insert(GUN_T1, 1);
    guns.insert(GUN_T2, 2);
    let cfg = VariationConfig {
        alternatives: vec![],
        from_meta: vec![MetaLadder { variations: guns, specials: vec![] }],
        accept_t1: vec![],
        from_attribute: vec![],
        cargo_ignore: vec![],
    };
    build_variator(&cfg).expect("test config builds")
}

fn fitting(hull: i64, modules: &[(i64, i64)], cargo: &[(i64, i64)]) -> Fitting {
    let mut f = Fitting::new(hull);
    for &(id, count) in modules {
        assert!(f.set_module(id, count));
    }
    for &(id, count) in cargo {
        assert!(f.set_cargo(id, count));
    }
    f
}

fn catalog() -> FitData {
    build_fit_data(&vec![DoctrineFit {
        name: "Kin Alpha".to_string(),
        fit: fitting(HIGH_HOUR_HULL, &[(GUN_T2, 2), (PLATE, 1)], &[(AMMO, 10)]),
    }])
}

fn identifier(v: &Variator) -> Identifier {
    build_identifier(&vec![GUN_T2], v)
}

fn skills(levels: &[(i64, i64)]) -> Skills {
    let mut m = AssocVec::new();
    for &(id, lv) in levels {
        m.insert(id, lv);
    }
    Skills { levels: m }
}

fn pilot(time_in_fleet: i64, keys: Vec<AccessKey>, levels: &[(i64, i64)]) -> PilotData {
    PilotData { implants: vec![], time_in_fleet, skills: skills(levels), access_keys: keys }
}

fn category_data() -> CategoryData {
    CategoryData {
        categories: vec![
            WaitlistCategory { id: "logi".to_string(), name: "Logistics".to_string() },
            WaitlistCategory { id: "dps".to_string(), name: "Damage".to_string() },
        ],
        rules: vec![(PLATE, "dps".to_string()), (GUN_T2, "dps".to_string())],
    }
}

fn run_check(
    p: &PilotData,
    fit: &Fitting,
    badges: &Vec<Badge>,
    skill_reqs: &Vec<ItemSkillReqs>,
) -> fitcheck::fitcheck::Output {
    let v = variator();
    let ident = identifier(&v);
    let w = ScoreWeights::default();
    let data = catalog();
    let cats = category_data();
    FitChecker::check(p, fit, badges, skill_reqs, &data, &ident, &v, &w, &cats)
}

#[test]
fn test_data_load() {
    let cats = categories(&category_data());
    assert!(!cats.is_empty());
    assert!(!cats[0].id.is_empty());
    assert!(!cats[0].name.is_empty());
}

#[test]
fn exact_fit_plus_extra_cargo_is_approved() {
    let p = pilot(0, vec![], &[]);
    // Matches the registered fit exactly, plus one extra unrelated cargo item.
    let fit = fitting(
        HIGH_HOUR_HULL,
        &[(GUN_T2, 2), (PLATE, 1)],
        &[(AMMO, 10), (TRINKET, 1)],
    );
    let out = run_check(&p, &fit, &vec![Badge::Dps], &vec![]);
    assert!(out.approved);
    let analysis = out.analysis.expect("a match was found");
    assert_eq!(analysis.name, "Kin Alpha");
    assert!(analysis.missing.is_empty());
    assert!(analysis.downgraded.is_empty());
    assert!(analysis.cargo_missing.is_empty());
}

#[test]
fn downgraded_module_blocks_approval() {
    let p = pilot(0, vec![], &[]);
    // One gun replaced by its strictly worse tech-one variation.
    let fit = fitting(HIGH_HOUR_HULL, &[(GUN_T2, 1), (GUN_T1, 1), (PLATE, 1)], &[(AMMO, 10)]);
    let out = run_check(&p, &fit, &vec![Badge::Dps], &vec![]);
    assert!(!out.approved);
    let analysis = out.analysis.expect("a match was found");
    assert_eq!(analysis.downgraded.entries.len(), 1);
    let entry = &analysis.downgraded.entries[0];
    assert_eq!(entry.0, GUN_T2);
    assert_eq!(entry.1.entries, vec![(GUN_T1, 1)]);
}

#[test]
fn upgraded_and_extra_modules_never_block() {
    let v = variator();
    let reference = fitting(1234, &[(GUN_T1, 2)], &[]);
    let candidate = fitting(1234, &[(GUN_T1, 1), (GUN_T2, 1), (TRINKET, 1)], &[]);
    let d = FitDiffer::diff(&reference, &candidate, &v);
    assert!(!d.module_upgraded.is_empty());
    assert!(!d.module_extra.is_empty());
    assert!(fit_acceptable(&d));
}

#[test]
fn no_match_is_unapproved_without_analysis() {
    let p = pilot(0, vec![], &[]);
    let fit = fitting(4321, &[(PLATE, 1)], &[]);
    let out = run_check(&p, &fit, &vec![], &vec![]);
    assert!(!out.approved);
    assert!(out.analysis.is_none());
}

#[test]
fn missing_skills_are_reported_but_do_not_block() {
    let p = pilot(0, vec![], &[(GUNNERY_SKILL, 2)]);
    let fit = fitting(HIGH_HOUR_HULL, &[(GUN_T2, 2), (PLATE, 1)], &[(AMMO, 10)]);
    let mut gun_reqs = AssocVec::new();
    gun_reqs.insert(GUNNERY_SKILL, 5);
    let mut plate_reqs = AssocVec::new();
    plate_reqs.insert(ARMOR_SKILL, 1);
    let skill_reqs = vec![
        ItemSkillReqs { name: "Kin Gun II".to_string(), reqs: gun_reqs },
        ItemSkillReqs { name: "Plate".to_string(), reqs: plate_reqs },
    ];
    let out = run_check(&p, &fit, &vec![Badge::Dps], &skill_reqs);
    assert_eq!(
        out.errors,
        vec![
            "Missing skills to online/use 'Kin Gun II'".to_string(),
            "Missing skills to online/use 'Plate'".to_string(),
        ]
    );
    assert!(out.approved);
}

#[test]
fn privileged_keys_suppress_badge_tags() {
    let p = pilot(0, vec![AccessKey::HqFc], &[]);
    let fit = fitting(4321, &[(PLATE, 1)], &[]);
    let out = run_check(&p, &fit, &vec![Badge::Logi, Badge::Dps], &vec![]);
    assert_eq!(out.tags, vec![Tag::HqFc]);
    let p2 = pilot(0, vec![AccessKey::Trainee], &[]);
    let out2 = run_check(&p2, &fit, &vec![Badge::Logi], &vec![]);
    assert_eq!(out2.tags, vec![Tag::Trainee]);
}

#[test]
fn badge_tags_are_assigned() {
    let p = pilot(0, vec![], &[]);
    let fit = fitting(4321, &[(PLATE, 1)], &[]);
    let out = run_check(&p, &fit, &vec![Badge::Alt, Badge::Logi], &vec![]);
    assert_eq!(out.tags, vec![Tag::Logi, Tag::Alt]);
}

#[test]
fn high_hour_rule_blocks_without_dps_tag() {
    let p = pilot(DPS_HOURS_THRESHOLD_SECONDS + 1, vec![], &[]);
    // An otherwise perfect fit on the designated hull.
    let fit = fitting(HIGH_HOUR_HULL, &[(GUN_T2, 2), (PLATE, 1)], &[(AMMO, 10)]);
    let out = run_check(&p, &fit, &vec![], &vec![]);
    assert!(!out.approved);
    assert!(out.tags.contains(&Tag::DpsHoursReached));
}

#[test]
fn high_hour_rule_spares_dps_pilots() {
    let p = pilot(DPS_HOURS_THRESHOLD_SECONDS + 1, vec![], &[]);
    let fit = fitting(HIGH_HOUR_HULL, &[(GUN_T2, 2), (PLATE, 1)], &[(AMMO, 10)]);
    let out = run_check(&p, &fit, &vec![Badge::Dps], &vec![]);
    assert!(out.approved);
    assert!(!out.tags.contains(&Tag::DpsHoursReached));
}

#[test]
fn categorize_first_match_and_default() {
    let cats = category_data();
    // PLATE rule comes first, so a fit with both matches "dps" via PLATE.
    let fit = fitting(4321, &[(PLATE, 1), (GUN_T2, 1)], &[]);
    assert_eq!(categorize(&cats, &fit), Some("dps".to_string()));
    let bare = fitting(4321, &[(TRINKET, 1)], &[]);
    assert_eq!(categorize(&cats, &bare), None);
    let p = pilot(0, vec![], &[]);
    let out = run_check(&p, &bare, &vec![], &vec![]);
    assert_eq!(out.category, "offgrid");
}

#[test]
fn category_rules_and_reload() {
    let mut cats = category_data();
    let listed = rules(&cats);
    assert_eq!(listed.len(), 2);
    assert_eq!(listed[0], (PLATE, "dps".to_string()));
    reload_category_data(
        &mut cats,
        CategoryData { categories: vec![], rules: vec![(TRINKET, "logi".to_string())] },
    );
    assert_eq!(rules(&cats), vec![(TRINKET, "logi".to_string())]);
    assert!(categories(&cats).is_empty());
}

#[test]
fn public_tags_roundtrip() {
    let mut state = PublicTags { tags: vec!["LOGI".to_string()] };
    assert_eq!(public_tags(&state), vec!["LOGI".to_string()]);
    reload_tags(&mut state, vec!["DPS".to_string(), "ALT".to_string()]);
    assert_eq!(public_tags(&state), vec!["DPS".to_string(), "ALT".to_string()]);
}

#[test]
fn skill_tier_defaults() {
    let tiers = SkillTiers::from_declared(Some(3), None, None, None);
    assert_eq!(tiers.get(SkillTier::Min), Some(3));
    assert_eq!(tiers.get(SkillTier::Elite), Some(3));
    assert_eq!(tiers.get(SkillTier::Gold), Some(5));
    assert_eq!(tiers.priority, 1);
    let explicit = SkillTiers::from_declared(Some(2), Some(4), Some(5), Some(7));
    assert_eq!(explicit.get(SkillTier::Elite), Some(4));
    assert_eq!(explicit.priority, 7);
}

#[test]
fn skills_default_to_zero() {
    let s = skills(&[(GUNNERY_SKILL, 4)]);
    assert_eq!(s.get(GUNNERY_SKILL), 4);
    assert_eq!(s.get(ARMOR_SKILL), 0);
}
