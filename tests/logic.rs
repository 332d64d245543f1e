use modcheck::logic::{find_best_mc_version, input_is_comparable};
use modcheck::types::{Constraints, MCVersion, Mod, ModAndReleases, ModRelease, ModType};
use std::cmp::Ordering;

fn release(label: &str, versions: &[&str], loaders: &[&str]) -> ModRelease {
    ModRelease {
        release: label.to_string(),
        mc_versions: versions.iter().map(|v| MCVersion::new(v)).collect(),
        loaders: loaders.iter().map(|l| l.to_string()).collect(),
    }
}

fn a_mod(name: &str, releases: Vec<ModRelease>) -> ModAndReleases {
    ModAndReleases {
        mod_item: Mod {
            name: name.to_string(),
            mod_type: ModType::ModrinthModType,
        },
        releases,
    }
}

fn no_constraints() -> Constraints {
    Constraints {
        loader: None,
        exact_mc_version: None,
        min_mc_version: None,
    }
}

fn sorted(vs: &[&str]) -> Vec<String> {
    let mut v: Vec<MCVersion> = vs.iter().map(|s| MCVersion::new(s)).collect();
    v.sort_by(|a, b| a.compare(b));
    v.into_iter().map(|m| m.str).collect()
}

fn two_mods() -> Vec<ModAndReleases> {
    let mod1 = Mod {
        name: "Waystones".to_string(),
        mod_type: ModType::ModrinthModType,
    };
    let mod2 = Mod {
        name: "IceAndFire".to_string(),
        mod_type: ModType::ModrinthModType,
    };
    let release1 = ModRelease {
        release: "".to_string(),
        mc_versions: vec![MCVersion::new("1.16.4")],
        loaders: vec!["forge".to_string()],
    };
    let release2 = ModRelease {
        release: "".to_string(),
        mc_versions: vec![MCVersion::new("1.16.5")],
        loaders: vec!["forge".to_string()],
    };
    let release3 = ModRelease {
        release: "".to_string(),
        mc_versions: vec![MCVersion::new("1.17.1")],
        loaders: vec!["fabric".to_string()],
    };
    let release4 = ModRelease {
        release: "".to_string(),
        mc_versions: vec![MCVersion::new("1.12.2")],
        loaders: vec!["fabric".to_string()],
    };
    let release5 = ModRelease {
        release: "".to_string(),
        mc_versions: vec![MCVersion::new("1.16.5")],
        loaders: vec!["forge".to_string()],
    };
    vec![
        ModAndReleases {
            mod_item: mod1,
            releases: vec![release1, release2],
        },
        ModAndReleases {
            mod_item: mod2,
            releases: vec![release3, release4, release5],
        },
    ]
}

#[test]
fn test_find_best_mc_version() {
    let mods = two_mods();
    let constraints = Constraints {
        loader: Some("forge".to_string()),
        exact_mc_version: None,
        min_mc_version: None,
    };
    let best_version = find_best_mc_version(mods, constraints);
    assert_eq!(best_version, Some(MCVersion::new("1.16.5")));
}

#[test]
fn test_mc_version_ordering() {
    let v1 = MCVersion::new("1.16.5");
    let v2 = MCVersion::new("1.16.4");
    let v3 = MCVersion::new("1.17.2");

    assert!(v1.compare(&v2) == Ordering::Greater);
    assert!(v2.compare(&v3) == Ordering::Less);
    assert!(v1.compare(&v3) == Ordering::Less);
}

#[test]
fn test_mc_version_equality() {
    let v1 = MCVersion::new("1.16.5");
    let v2 = MCVersion::new("1.16.5");

    assert_eq!(v1, v2);
}

#[test]
fn sorting_mixed_minor_versions() {
    assert_eq!(
        sorted(&["1.12.2", "1.8.9", "1.16.5", "1.12.1", "1.7.10"]),
        vec!["1.7.10", "1.8.9", "1.12.1", "1.12.2", "1.16.5"]
    );
}

#[test]
fn sorting_same_major_minor() {
    assert_eq!(
        sorted(&["1.12.2", "1.12.1", "1.12.0"]),
        vec!["1.12.0", "1.12.1", "1.12.2"]
    );
}

#[test]
fn sorting_prefix_first() {
    assert_eq!(
        sorted(&["1.12", "1.12.1", "1.12.0.1"]),
        vec!["1.12", "1.12.0.1", "1.12.1"]
    );
}

#[test]
fn compare_prefix_and_equal_numbers() {
    assert_eq!(MCVersion::new("1.12").compare(&MCVersion::new("1.12.0.1")), Ordering::Less);
    assert_eq!(MCVersion::new("1.12.0.1").compare(&MCVersion::new("1.12")), Ordering::Greater);
    assert_eq!(MCVersion::new("1.01").compare(&MCVersion::new("1.1")), Ordering::Equal);
    assert_eq!(MCVersion::new("2").compare(&MCVersion::new("10")), Ordering::Less);
    assert_ne!(MCVersion::new("1.01"), MCVersion::new("1.1"));
}

#[test]
fn components_have_no_width_limit() {
    let big = MCVersion::new("1.4294967296");
    let below = MCVersion::new("1.4294967295");
    assert_eq!(big.compare(&below), Ordering::Greater);
    assert_eq!(below.compare(&big), Ordering::Less);
    assert_eq!(
        MCVersion::new("99999999999999999999999").compare(&MCVersion::new("100000000000000000000000")),
        Ordering::Less
    );
    assert_eq!(
        MCVersion::new("1.000000000000000000000000007").compare(&MCVersion::new("1.7")),
        Ordering::Equal
    );
    assert_eq!(
        MCVersion::new("18446744073709551617.2").compare(&MCVersion::new("18446744073709551617.10")),
        Ordering::Less
    );
}

#[test]
fn no_release_meets_constraints() {
    let constraints = Constraints {
        loader: Some("quilt".to_string()),
        exact_mc_version: None,
        min_mc_version: None,
    };
    assert_eq!(find_best_mc_version(two_mods(), constraints), None);
}

#[test]
fn same_input_same_answer() {
    let c1 = Constraints {
        loader: Some("forge".to_string()),
        exact_mc_version: None,
        min_mc_version: None,
    };
    let c2 = Constraints {
        loader: Some("forge".to_string()),
        exact_mc_version: None,
        min_mc_version: None,
    };
    assert_eq!(
        find_best_mc_version(two_mods(), c1),
        find_best_mc_version(two_mods(), c2)
    );
}

#[test]
fn no_mods_no_version() {
    assert_eq!(find_best_mc_version(Vec::new(), no_constraints()), None);
}

#[test]
fn highest_common_version_wins() {
    let mods = vec![
        a_mod("a", vec![release("1", &["1.18", "1.16.5", "1.12.2"], &["forge"])]),
        a_mod("b", vec![release("1", &["1.12.2", "1.18", "1.16.5"], &["fabric"])]),
    ];
    assert_eq!(find_best_mc_version(mods, no_constraints()), Some(MCVersion::new("1.18")));
}

#[test]
fn common_version_below_a_newer_one() {
    let mods = vec![
        a_mod("a", vec![release("1", &["1.20.1", "1.19.2"], &["forge"])]),
        a_mod("b", vec![release("1", &["1.19.2"], &["forge"]), release("2", &["1.18"], &["forge"])]),
    ];
    assert_eq!(find_best_mc_version(mods, no_constraints()), Some(MCVersion::new("1.19.2")));
}

#[test]
fn one_mod_many_releases_counts_once() {
    let mods = vec![
        a_mod("a", vec![release("1", &["1.19"], &["forge"]), release("2", &["1.19"], &["forge"])]),
        a_mod("b", vec![release("1", &["1.18"], &["forge"])]),
    ];
    assert_eq!(find_best_mc_version(mods, no_constraints()), None);
}

#[test]
fn same_mod_listed_twice_finds_nothing() {
    let mods = vec![
        a_mod("a", vec![release("1", &["1.19"], &["forge"])]),
        a_mod("a", vec![release("1", &["1.19"], &["forge"])]),
    ];
    assert_eq!(find_best_mc_version(mods, no_constraints()), None);
}

#[test]
fn exact_release_constraint() {
    let mods = vec![a_mod(
        "a",
        vec![release("2.0", &["1.20"], &["forge"]), release("1.0", &["1.19"], &["forge"])],
    )];
    let c = Constraints {
        loader: None,
        exact_mc_version: Some("1.0".to_string()),
        min_mc_version: None,
    };
    assert_eq!(find_best_mc_version(mods, c), Some(MCVersion::new("1.19")));
}

#[test]
fn minimum_release_constraint() {
    let mods = vec![a_mod(
        "a",
        vec![
            release("1.10", &["1.20"], &["forge"]),
            release("1.9", &["1.21"], &["forge"]),
        ],
    )];
    let c = Constraints {
        loader: None,
        exact_mc_version: None,
        min_mc_version: Some("1.10".to_string()),
    };
    assert_eq!(find_best_mc_version(mods, c), Some(MCVersion::new("1.20")));
}

#[test]
fn match_constraints_checks_each_field() {
    let r = release("3.1", &["1.20"], &["forge", "neoforge"]);
    let with = |loader: Option<&str>, exact: Option<&str>, min: Option<&str>| Constraints {
        loader: loader.map(|s| s.to_string()),
        exact_mc_version: exact.map(|s| s.to_string()),
        min_mc_version: min.map(|s| s.to_string()),
    };
    assert!(r.match_constraints(&with(None, None, None)));
    assert!(r.match_constraints(&with(Some("neoforge"), None, None)));
    assert!(!r.match_constraints(&with(Some("fabric"), None, None)));
    assert!(r.match_constraints(&with(None, Some("3.1"), None)));
    assert!(!r.match_constraints(&with(None, Some("3.10"), None)));
    assert!(r.match_constraints(&with(None, None, Some("3.1"))));
    assert!(r.match_constraints(&with(None, None, Some("2.9"))));
    assert!(!r.match_constraints(&with(None, None, Some("3.1.1"))));
}

#[test]
fn supports_version_reads_the_list() {
    let r = release("1", &["1.20", "1.19.4"], &["forge"]);
    assert!(r.supports_version(&MCVersion::new("1.19.4")));
    assert!(!r.supports_version(&MCVersion::new("1.19")));
}

#[test]
fn well_formed_versions() {
    assert!(MCVersion::new("1.16.5").is_well_formed());
    assert!(MCVersion::new("4294967295").is_well_formed());
    assert!(MCVersion::new("4294967296").is_well_formed());
    assert!(MCVersion::new("123456789012345678901234567890.1").is_well_formed());
    assert!(!MCVersion::new("23w13a").is_well_formed());
    assert!(!MCVersion::new("1..2").is_well_formed());
    assert!(!MCVersion::new("").is_well_formed());
    assert!(!MCVersion::new("1.20-pre1").is_well_formed());
}

#[test]
fn comparable_input_skips_filtered_releases() {
    let mods = vec![a_mod(
        "a",
        vec![
            release("1", &["1.20"], &["forge"]),
            release("2", &["23w13a"], &["fabric"]),
        ],
    )];
    let forge = Constraints {
        loader: Some("forge".to_string()),
        exact_mc_version: None,
        min_mc_version: None,
    };
    assert!(input_is_comparable(&mods, &forge));
    assert!(!input_is_comparable(&mods, &no_constraints()));
    let bad_min = Constraints {
        loader: None,
        exact_mc_version: None,
        min_mc_version: Some("x".to_string()),
    };
    assert!(!input_is_comparable(&mods, &bad_min));
    assert_eq!(find_best_mc_version(mods, forge), Some(MCVersion::new("1.20")));
}

#[test]
fn equal_versions_resolve_to_the_later_first_occurrence() {
    let mods = vec![
        a_mod("a", vec![release("1", &["1.1", "1.01"], &["forge"])]),
        a_mod("b", vec![release("1", &["1.01", "1.1"], &["forge"])]),
    ];
    assert_eq!(find_best_mc_version(mods, no_constraints()), Some(MCVersion::new("1.01")));
}

#[test]
fn large_components_in_a_search() {
    let mods = vec![
        a_mod("a", vec![release("1", &["1.99999999999", "1.100000000000"], &["forge"])]),
        a_mod("b", vec![release("1", &["1.100000000000", "1.99999999999"], &["forge"])]),
    ];
    let c = Constraints {
        loader: None,
        exact_mc_version: None,
        min_mc_version: Some("0.5000000000".to_string()),
    };
    let mods_with_labels = vec![
        a_mod("a", vec![release("7000000000.1", &["1.2"], &["forge"])]),
        a_mod("b", vec![release("4999999999", &["1.2"], &["forge"]), release("5000000000", &["1.1"], &["forge"])]),
    ];
    let c_big = Constraints {
        loader: None,
        exact_mc_version: None,
        min_mc_version: Some("5000000000".to_string()),
    };
    assert!(input_is_comparable(&mods, &c));
    assert_eq!(find_best_mc_version(mods, c), Some(MCVersion::new("1.100000000000")));
    assert_eq!(find_best_mc_version(mods_with_labels, c_big), None);
}
