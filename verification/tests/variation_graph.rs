//! Tests of the variation graph builder: the reference tier ladder, edge
//! symmetry, reflexivity, edge ordering, and the configuration error cases.

use fitcheck::idmap::AssocVec;
use fitcheck::variations::{
    build_variator, drug_handling, fit_module_variations, merge_tiers, reload_variations,
    tiers_from_ranked_lists, tiers_from_t1_pair, BuildError, DrugRule, FitVariationRule,
    MetaLadder, VariationConfig, Variator,
};

// Ids standing in for the named items of the reference tier ladder.
const PYROLANCEA_DB3_DOSE_I: i64 = 101;
const PYROLANCEA_DB5_DOSE_II: i64 = 102;
const PYROLANCEA_DB7_DOSE_III: i64 = 103;
const HEAVY_HULL_BOT_I: i64 = 201;
const HEAVY_HULL_BOT_II: i64 = 202;
const MWD_500MN_I: i64 = 301;
const CORE_C_TYPE_MWD: i64 = 302;
const CORE_X_TYPE_MWD: i64 = 303;
const GIST_X_TYPE_MWD: i64 = 304;
const CENTII_A_COATING: i64 = 401;
const CENTUM_A_MEMBRANE: i64 = 402;
const CORPUM_A_MEMBRANE: i64 = 403;
const FED_NAVY_MEMBRANE: i64 = 404;
const MEMBRANE_II: i64 = 405;

fn id_of(name: &str) -> i64 {
    match name {
        "Agency 'Pyrolancea' DB3 Dose I" => PYROLANCEA_DB3_DOSE_I,
        "Agency 'Pyrolancea' DB5 Dose II" => PYROLANCEA_DB5_DOSE_II,
        "Agency 'Pyrolancea' DB7 Dose III" => PYROLANCEA_DB7_DOSE_III,
        "Heavy Hull Maintenance Bot I" => HEAVY_HULL_BOT_I,
        "Heavy Hull Maintenance Bot II" => HEAVY_HULL_BOT_II,
        "500MN Microwarpdrive I" => MWD_500MN_I,
        "Core C-Type 500MN Microwarpdrive" => CORE_C_TYPE_MWD,
        "Core X-Type 500MN Microwarpdrive" => CORE_X_TYPE_MWD,
        "Gist X-Type 500MN Microwarpdrive" => GIST_X_TYPE_MWD,
        "Centii A-Type Multispectrum Coating" => CENTII_A_COATING,
        "Centum A-Type Multispectrum Energized Membrane" => CENTUM_A_MEMBRANE,
        "Corpum A-Type Multispectrum Energized Membrane" => CORPUM_A_MEMBRANE,
        "Federation Navy Multispectrum Energized Membrane" => FED_NAVY_MEMBRANE,
        "Multispectrum Energized Membrane II" => MEMBRANE_II,
        _ => panic!("unknown item name"),
    }
}

/// The reference tier ladder: one rule of each of the four sources.
fn reference_config() -> VariationConfig {
    // Explicit tiers: the three booster doses, weakest first.
    let alternatives = vec![vec![
        vec![PYROLANCEA_DB3_DOSE_I],
        vec![PYROLANCEA_DB5_DOSE_II],
        vec![PYROLANCEA_DB7_DOSE_III],
    ]];

    // Catalog-derived ladder: the 500MN microwarpdrive family with the
    // catalog's meta ranks.
    let mut mwd_family = AssocVec::new();
    mwd_family.insert(MWD_500MN_I, 1);
    mwd_family.insert(CORE_C_TYPE_MWD, 8);
    mwd_family.insert(CORE_X_TYPE_MWD, 14);
    mwd_family.insert(GIST_X_TYPE_MWD, 14);
    let from_meta = vec![MetaLadder { variations: mwd_family, specials: vec![] }];

    // T1/T2 pair: the hull maintenance bot.
    let accept_t1 = vec![(HEAVY_HULL_BOT_II, HEAVY_HULL_BOT_I)];

    // Attribute-derived tiers: membranes grouped by equal attribute value,
    // ascending.
    let from_attribute = vec![vec![
        vec![CENTII_A_COATING],
        vec![FED_NAVY_MEMBRANE, MEMBRANE_II],
        vec![CENTUM_A_MEMBRANE, CORPUM_A_MEMBRANE],
    ]];

    VariationConfig { alternatives, from_meta, accept_t1, from_attribute, cargo_ignore: vec![] }
}

fn reference_variator() -> Variator {
    build_variator(&reference_config()).expect("reference config builds")
}

#[derive(Debug)]
enum Diff {
    Better,
    Worse,
    Equal,
}

fn test_diff(v: &Variator, from: &str, to: &str, diff: Diff) {
    let the_match = v
        .find_edge(id_of(from), id_of(to))
        .expect("Missing expected variation");
    match diff {
        Diff::Better => assert!(
            the_match.meta_diff > 0,
            "Expecting {:?}: {:#?}",
            diff,
            the_match
        ),
        Diff::Worse => assert!(
            the_match.meta_diff < 0,
            "Expecting {:?}: {:#?}",
            diff,
            the_match
        ),
        Diff::Equal => assert!(
            the_match.meta_diff == 0,
            "Expecting {:?}: {:#?}",
            diff,
            the_match
        ),
    }
}

#[test]
fn test_a_few() {
    let v = reference_variator();
    // Hardcoded ones
    test_diff(
        &v,
        "Agency 'Pyrolancea' DB5 Dose II",
        "Agency 'Pyrolancea' DB3 Dose I",
        Diff::Worse,
    );
    test_diff(
        &v,
        "Agency 'Pyrolancea' DB5 Dose II",
        "Agency 'Pyrolancea' DB7 Dose III",
        Diff::Better,
    );
    test_diff(
        &v,
        "Agency 'Pyrolancea' DB5 Dose II",
        "Agency 'Pyrolancea' DB5 Dose II",
        Diff::Equal,
    );

    // T2->T1
    test_diff(
        &v,
        "Heavy Hull Maintenance Bot II",
        "Heavy Hull Maintenance Bot I",
        Diff::Worse,
    );
    test_diff(
        &v,
        "Heavy Hull Maintenance Bot I",
        "Heavy Hull Maintenance Bot II",
        Diff::Better,
    );
    test_diff(
        &v,
        "Heavy Hull Maintenance Bot II",
        "Heavy Hull Maintenance Bot II",
        Diff::Equal,
    );

    // Meta
    test_diff(
        &v,
        "Core X-Type 500MN Microwarpdrive",
        "Core C-Type 500MN Microwarpdrive",
        Diff::Worse,
    );
    test_diff(
        &v,
        "500MN Microwarpdrive I",
        "Core C-Type 500MN Microwarpdrive",
        Diff::Better,
    );
    test_diff(
        &v,
        "Gist X-Type 500MN Microwarpdrive",
        "Core X-Type 500MN Microwarpdrive",
        Diff::Equal,
    );

    // Attributes
    test_diff(
        &v,
        "Centum A-Type Multispectrum Energized Membrane",
        "Centii A-Type Multispectrum Coating",
        Diff::Worse,
    );
    test_diff(
        &v,
        "Centum A-Type Multispectrum Energized Membrane",
        "Corpum A-Type Multispectrum Energized Membrane",
        Diff::Equal,
    );
    test_diff(
        &v,
        "Federation Navy Multispectrum Energized Membrane",
        "Multispectrum Energized Membrane II",
        Diff::Equal,
    );
}

#[test]
fn symmetry_of_every_edge() {
    let v = reference_variator();
    let members = [
        PYROLANCEA_DB3_DOSE_I,
        PYROLANCEA_DB5_DOSE_II,
        PYROLANCEA_DB7_DOSE_III,
        HEAVY_HULL_BOT_I,
        HEAVY_HULL_BOT_II,
        MWD_500MN_I,
        CORE_C_TYPE_MWD,
        CORE_X_TYPE_MWD,
        GIST_X_TYPE_MWD,
        CENTII_A_COATING,
        CENTUM_A_MEMBRANE,
        CORPUM_A_MEMBRANE,
        FED_NAVY_MEMBRANE,
        MEMBRANE_II,
    ];
    for &a in &members {
        let edges = v.get(a).expect("member has edges");
        for e in edges {
            let back = v.find_edge(e.to, a).expect("reverse edge exists");
            assert_eq!(back.meta_diff, -e.meta_diff);
        }
    }
}

#[test]
fn reflexivity_of_every_member() {
    let v = reference_variator();
    for &a in &[PYROLANCEA_DB5_DOSE_II, HEAVY_HULL_BOT_I, GIST_X_TYPE_MWD, MEMBRANE_II] {
        let e = v.find_edge(a, a).expect("self edge exists");
        assert_eq!(e.meta_diff, 0);
    }
}

#[test]
fn edge_list_ordering() {
    let v = reference_variator();
    // Equal-rank edges first, then upgrades ascending, then downgrades.
    let edges = v.get(CORE_C_TYPE_MWD).expect("member has edges");
    let bands: Vec<i32> = edges
        .iter()
        .map(|e| {
            if e.meta_diff == 0 {
                0
            } else if e.meta_diff > 0 {
                1
            } else {
                2
            }
        })
        .collect();
    let mut sorted = bands.clone();
    sorted.sort();
    assert_eq!(bands, sorted);
    // Within upgrades, ascending distance.
    let ups: Vec<i64> = edges.iter().filter(|e| e.meta_diff > 0).map(|e| e.meta_diff).collect();
    let mut ups_sorted = ups.clone();
    ups_sorted.sort();
    assert_eq!(ups, ups_sorted);
}

#[test]
fn duplicate_declaration_is_rejected() {
    let mut cfg = reference_config();
    // Declare one of the booster doses a second time, in a new group.
    cfg.accept_t1.push((PYROLANCEA_DB5_DOSE_II, 999));
    match build_variator(&cfg) {
        Err(BuildError::DuplicateDeclaration(id)) => assert_eq!(id, PYROLANCEA_DB5_DOSE_II),
        Err(other) => panic!("expected a duplicate-declaration error, got {:?}", other),
        Ok(_) => panic!("expected a duplicate-declaration error, got a snapshot"),
    }
}

#[test]
fn rank_out_of_range_is_rejected() {
    let mut bad = AssocVec::new();
    bad.insert(77, -3);
    let cfg = VariationConfig {
        alternatives: vec![],
        from_meta: vec![MetaLadder { variations: bad, specials: vec![] }],
        accept_t1: vec![],
        from_attribute: vec![],
        cargo_ignore: vec![],
    };
    match build_variator(&cfg) {
        Err(BuildError::RankOutOfRange(id)) => assert_eq!(id, 77),
        Err(other) => panic!("expected a rank-out-of-range error, got {:?}", other),
        Ok(_) => panic!("expected a rank-out-of-range error, got a snapshot"),
    }
}

#[test]
fn failed_reload_keeps_previous_snapshot() {
    let mut v = reference_variator();
    let mut cfg = reference_config();
    cfg.accept_t1.push((PYROLANCEA_DB5_DOSE_II, 999));
    assert!(reload_variations(&mut v, &cfg).is_err());
    // The old snapshot still serves: the ladder is intact.
    let e = v
        .find_edge(HEAVY_HULL_BOT_I, HEAVY_HULL_BOT_II)
        .expect("previous snapshot intact");
    assert!(e.meta_diff > 0);
}

#[test]
fn merge_produces_full_edge_set() {
    // A three-member group yields nine edges per declaration.
    let mut graph = AssocVec::new();
    let tiers = tiers_from_ranked_lists(&vec![vec![1], vec![2], vec![3]]);
    merge_tiers(&mut graph, &tiers).expect("fresh group merges");
    for k in 1..=3i64 {
        let edges = graph.get(k).expect("member has an edge list");
        assert_eq!(edges.len(), 3);
    }
}

#[test]
fn t1_pair_ranks() {
    let tg = tiers_from_t1_pair(22, 11);
    assert_eq!(tg.get_count(22), 2);
    assert_eq!(tg.get_count(11), 1);
}

#[test]
fn cargo_ignore_is_collected() {
    let mut cfg = reference_config();
    cfg.cargo_ignore = vec![901, 902];
    let v = build_variator(&cfg).expect("builds");
    assert!(v.cargo_ignore.contains(901));
    assert!(v.cargo_ignore.contains(902));
    assert!(!v.cargo_ignore.contains(903));
}

#[test]
fn drug_overrides_latest_rule_wins() {
    let rules = vec![
        DrugRule { detect: 501, add: vec![(601, 2), (602, 1)], remove: vec![603] },
        DrugRule { detect: 502, add: vec![], remove: vec![601] },
        DrugRule { detect: 501, add: vec![(604, 5)], remove: vec![] },
    ];
    let table = drug_handling(&rules);
    let later = table.get(501).expect("first drug present");
    assert_eq!(later.add.entries, vec![(604, 5)]);
    assert!(!later.remove.contains(603));
    let other = table.get(502).expect("second drug present");
    assert!(other.add.is_empty());
    assert!(other.remove.contains(601));
    assert!(table.get(999).is_none());
}

#[test]
fn fit_variations_group_by_hull() {
    let rules = vec![
        FitVariationRule { hull: 801, missing: vec![(11, 1)], extra: vec![] },
        FitVariationRule { hull: 802, missing: vec![], extra: vec![(12, 2)] },
        FitVariationRule { hull: 801, missing: vec![(13, 3)], extra: vec![(14, 1)] },
    ];
    let table = fit_module_variations(&rules);
    let first = table.get(801).expect("hull present");
    assert_eq!(first.len(), 2);
    assert_eq!(first[0].missing.entries, vec![(11, 1)]);
    assert_eq!(first[1].missing.entries, vec![(13, 3)]);
    assert_eq!(first[1].extra.entries, vec![(14, 1)]);
    let second = table.get(802).expect("hull present");
    assert_eq!(second.len(), 1);
    assert_eq!(second[0].extra.entries, vec![(12, 2)]);
}
