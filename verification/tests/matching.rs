//! Tests of the structural differ and the best-match selector.

use fitcheck::fitdiffer::{DiffResult, FitDiffer};
use fitcheck::fitmatch::{build_identifier, Identifier, ScoreWeights};
use fitcheck::fits::{build_fit_data, FitData};
use fitcheck::fitting::{DoctrineFit, Fitting};
use fitcheck::idmap::AssocVec;
use fitcheck::variations::{build_variator, MetaLadder, VariationConfig, Variator};

const HULL_A: i64 = 1001;
const HULL_B: i64 = 1002;
const GUN_T1: i64 = 11;
const GUN_T2: i64 = 12;
const GUN_FACTION: i64 = 13;
const PLATE: i64 = 21;
const RIG: i64 = 31;
const AMMO: i64 = 41;
const NANITE: i64 = 42;
const UNRELATED: i64 = 99;

/// A graph with one gun ladder (T1 rank 1, T2 rank 2, faction rank 2) and
/// nanite paste in the cargo-ignore set.
fn variator() -> Variator {
    let mut guns = AssocVec::new();
    guns.insert(GUN_T1, 1);
    guns.insert(GUN_T2, 2);
    guns.insert(GUN_FACTION, 2);
    let cfg = VariationConfig {
        alternatives: vec![],
        from_meta: vec![MetaLadder { variations: guns, specials: vec![] }],
        accept_t1: vec![],
        from_attribute: vec![],
        cargo_ignore: vec![NANITE],
    };
    build_variator(&cfg).expect("test config builds")
}

fn fitting(hull: i64, modules: &[(i64, i64)], cargo: &[(i64, i64)]) -> Fitting {
    let mut f = Fitting::new(hull);
    for &(id, count) in modules {
        assert!(f.set_module(id, count));
    }
    for &(id, count) in cargo {
        assert!(f.set_cargo(id, count));
    }
    f
}

fn counts(m: &AssocVec<i64>) -> Vec<(i64, i64)> {
    m.entries.clone()
}

fn identifier(v: &Variator) -> Identifier {
    build_identifier(&vec![GUN_T2], v)
}

#[test]
fn exact_match_yields_empty_diff() {
    let v = variator();
    let reference = fitting(HULL_A, &[(GUN_T2, 3), (PLATE, 1)], &[(AMMO, 100)]);
    let candidate = fitting(HULL_A, &[(GUN_T2, 3), (PLATE, 1)], &[(AMMO, 100)]);
    let d = FitDiffer::diff(&reference, &candidate, &v);
    assert!(d.module_missing.is_empty());
    assert!(d.module_extra.is_empty());
    assert!(d.module_downgraded.is_empty());
    assert!(d.module_upgraded.is_empty());
    assert!(d.cargo_missing.is_empty());
}

#[test]
fn downgrade_is_attributed() {
    let v = variator();
    let reference = fitting(HULL_A, &[(GUN_T2, 3)], &[]);
    let candidate = fitting(HULL_A, &[(GUN_T2, 2), (GUN_T1, 1)], &[]);
    let d = FitDiffer::diff(&reference, &candidate, &v);
    assert!(d.module_missing.is_empty());
    assert!(d.module_extra.is_empty());
    assert!(d.module_upgraded.is_empty());
    assert_eq!(d.module_downgraded.entries.len(), 1);
    let entry = &d.module_downgraded.entries[0];
    assert_eq!(entry.0, GUN_T2);
    assert_eq!(counts(&entry.1), vec![(GUN_T1, 1)]);
}

#[test]
fn upgrade_is_attributed() {
    let v = variator();
    let reference = fitting(HULL_A, &[(GUN_T1, 2)], &[]);
    let candidate = fitting(HULL_A, &[(GUN_T1, 1), (GUN_T2, 1)], &[]);
    let d = FitDiffer::diff(&reference, &candidate, &v);
    assert!(d.module_missing.is_empty());
    assert!(d.module_extra.is_empty());
    assert!(d.module_downgraded.is_empty());
    assert_eq!(d.module_upgraded.entries.len(), 1);
    let entry = &d.module_upgraded.entries[0];
    assert_eq!(entry.0, GUN_T1);
    assert_eq!(counts(&entry.1), vec![(GUN_T2, 1)]);
}

#[test]
fn equivalent_rank_satisfies_silently() {
    let v = variator();
    let reference = fitting(HULL_A, &[(GUN_T2, 2)], &[]);
    let candidate = fitting(HULL_A, &[(GUN_FACTION, 2)], &[]);
    let d = FitDiffer::diff(&reference, &candidate, &v);
    assert!(d.module_missing.is_empty());
    assert!(d.module_extra.is_empty());
    assert!(d.module_downgraded.is_empty());
    assert!(d.module_upgraded.is_empty());
}

#[test]
fn shortfall_nets_before_reporting() {
    let v = variator();
    // Fewer plates than asked: missing, never also extra.
    let reference = fitting(HULL_A, &[(PLATE, 3)], &[]);
    let shy = fitting(HULL_A, &[(PLATE, 1)], &[]);
    let d = FitDiffer::diff(&reference, &shy, &v);
    assert_eq!(counts(&d.module_missing), vec![(PLATE, 2)]);
    assert!(d.module_extra.is_empty());
    // More plates than asked: extra, never also missing.
    let flush = fitting(HULL_A, &[(PLATE, 5)], &[]);
    let d2 = FitDiffer::diff(&reference, &flush, &v);
    assert!(d2.module_missing.is_empty());
    assert_eq!(counts(&d2.module_extra), vec![(PLATE, 2)]);
}

#[test]
fn cargo_compared_by_exact_id_with_ignore_set() {
    let v = variator();
    let reference = fitting(HULL_A, &[], &[(AMMO, 100), (NANITE, 50)]);
    let candidate = fitting(HULL_A, &[], &[(AMMO, 40)]);
    let d = FitDiffer::diff(&reference, &candidate, &v);
    // Ammo shortfall is exact; nanite paste is in the ignore set.
    assert_eq!(counts(&d.cargo_missing), vec![(AMMO, 60)]);
}

#[test]
fn score_exact_value() {
    let v = variator();
    let ident = identifier(&v);
    let w = ScoreWeights::default();
    let reference = fitting(HULL_A, &[(GUN_T2, 3), (PLATE, 2)], &[]);
    // Candidate: one gun downgraded to T1, one plate missing, one rig extra.
    let candidate = fitting(HULL_A, &[(GUN_T2, 2), (GUN_T1, 1), (PLATE, 1), (RIG, 1)], &[]);
    let d = FitDiffer::diff(&reference, &candidate, &v);
    // Missing: 1 plate (weight 12, not identification).
    // Extra: 1 rig (weight 8, not identification).
    // Downgraded: 1 gun under GUN_T2 (weight 5, identification x100).
    let expected = 12 * 1 + 8 * 1 + 5 * 1 * 100;
    assert_eq!(ident.fit_score(&d, &w), expected);
}

#[test]
fn score_monotone_in_missing() {
    let v = variator();
    let ident = identifier(&v);
    let w = ScoreWeights::default();
    let reference = fitting(HULL_A, &[(PLATE, 3)], &[]);
    let closer = fitting(HULL_A, &[(PLATE, 2)], &[]);
    let farther = fitting(HULL_A, &[(PLATE, 1)], &[]);
    let d1 = FitDiffer::diff(&reference, &closer, &v);
    let d2 = FitDiffer::diff(&reference, &farther, &v);
    assert!(ident.fit_score(&d2, &w) > ident.fit_score(&d1, &w));
}

fn doctrine(name: &str, hull: i64, modules: &[(i64, i64)]) -> DoctrineFit {
    DoctrineFit { name: name.to_string(), fit: fitting(hull, modules, &[]) }
}

fn catalog() -> FitData {
    build_fit_data(&vec![
        doctrine("Sniper Alpha", HULL_A, &[(GUN_T2, 3), (PLATE, 1)]),
        doctrine("Brawler Alpha", HULL_A, &[(GUN_T2, 1), (PLATE, 3)]),
        doctrine("Support Bravo", HULL_B, &[(PLATE, 2), (RIG, 1)]),
    ])
}

#[test]
fn test_load_fits() {
    let _loaded = catalog();
}

#[test]
fn match_all() {
    let v = variator();
    let ident = identifier(&v);
    let w = ScoreWeights::default();
    let data = catalog();
    for (_, ship_fits) in &data.by_hull.entries {
        for fit in ship_fits {
            let matched_fit = ident
                .find_fit(&fit.fit, &data, &v, &w)
                .expect("Should have matched a fit!");
            assert_eq!(
                fit.name, matched_fit.0.name,
                "({}) {:?} should match {:?}",
                fit.name, matched_fit.0.name, fit.name
            );
        }
    }
}

#[test]
fn no_fits_for_hull_is_no_match() {
    let v = variator();
    let ident = identifier(&v);
    let w = ScoreWeights::default();
    let data = catalog();
    let stranger = fitting(7777, &[(PLATE, 1)], &[]);
    assert!(ident.find_fit(&stranger, &data, &v, &w).is_none());
}

#[test]
fn ties_keep_the_earliest_fit() {
    let v = variator();
    let ident = identifier(&v);
    let w = ScoreWeights::default();
    // Two equally distant references: the first registered wins.
    let data = build_fit_data(&vec![
        doctrine("First", HULL_A, &[(PLATE, 2)]),
        doctrine("Second", HULL_A, &[(PLATE, 2)]),
    ]);
    let candidate = fitting(HULL_A, &[(PLATE, 2)], &[]);
    let (best, d) = ident.find_fit(&candidate, &data, &v, &w).expect("match");
    assert_eq!(best.name, "First");
    assert!(d.module_missing.is_empty());
}

#[test]
fn identification_set_expands_over_variations() {
    let v = variator();
    let ident = identifier(&v);
    // GUN_T2 has a tier group: all its variations are identification items.
    assert!(ident.rules.contains(GUN_T1));
    assert!(ident.rules.contains(GUN_T2));
    assert!(ident.rules.contains(GUN_FACTION));
    assert!(!ident.rules.contains(PLATE));
    // An id without a tier group contributes itself.
    let ident2 = build_identifier(&vec![PLATE], &v);
    assert!(ident2.rules.contains(PLATE));
    assert!(!ident2.rules.contains(GUN_T1));
}

#[test]
fn empty_loadout_against_reference() {
    let v = variator();
    let reference = fitting(HULL_A, &[(GUN_T2, 2), (PLATE, 1)], &[(AMMO, 10)]);
    let empty = fitting(HULL_A, &[], &[]);
    let d: DiffResult = FitDiffer::diff(&reference, &empty, &v);
    assert_eq!(counts(&d.module_missing), vec![(GUN_T2, 2), (PLATE, 1)]);
    assert!(d.module_extra.is_empty());
    assert_eq!(counts(&d.cargo_missing), vec![(AMMO, 10)]);
}

#[test]
fn reload_fits_replaces_catalog() {
    let mut data = catalog();
    fitcheck::fits::reload_fits(
        &mut data,
        &vec![doctrine("Lone Bravo", HULL_B, &[(RIG, 1)])],
    );
    assert!(data.get(HULL_A).is_none());
    let list = data.get(HULL_B).expect("new hull present");
    assert_eq!(list.len(), 1);
    assert_eq!(list[0].name, "Lone Bravo");
}

#[test]
fn reload_identifier_replaces_rules() {
    let v = variator();
    let mut ident = identifier(&v);
    assert!(ident.rules.contains(GUN_T1));
    fitcheck::fitmatch::reload_identifier(&mut ident, &vec![UNRELATED], &v);
    assert!(ident.rules.contains(UNRELATED));
    assert!(!ident.rules.contains(GUN_T1));
}

#[test]
fn used_module_ids_are_sorted_and_sound() {
    let data = catalog();
    let ids = fitcheck::fits::used_module_ids(&data);
    // Ascending, no repetition.
    for w in ids.windows(2) {
        assert!(w[0] < w[1]);
    }
    // Everything the catalog mentions is known.
    for id in &ids {
        assert!([HULL_A, HULL_B, GUN_T2, PLATE, RIG].contains(id));
    }
    assert!(ids.contains(&HULL_A));
    assert!(ids.contains(&PLATE));
}
