use octool::catalog::{resolve, version_less, BuildRecord, CatalogEntry, ResolutionError, VersionCatalog};

fn rec(channel: &str, version: &str, publish_time: u64) -> BuildRecord {
    BuildRecord { channel: channel.to_string(), version: version.to_string(), publish_time }
}

fn opencore_catalog() -> VersionCatalog {
    VersionCatalog {
        entries: vec![CatalogEntry {
            component: "OpenCorePkg".to_string(),
            records: vec![
                rec("release", "0.9.2", 10),
                rec("release", "0.9.3", 20),
                rec("debug", "0.9.3-DEBUG", 20),
            ],
        }],
    }
}

#[test]
fn resolves_latest_release() {
    let r = resolve("OpenCorePkg", "release", &opencore_catalog()).ok().unwrap();
    assert_eq!(r.component, "OpenCorePkg");
    assert_eq!(r.record.channel, "release");
    assert_eq!(r.record.version, "0.9.3");
    assert_eq!(r.record.publish_time, 20);
}

#[test]
fn resolves_debug_channel_only_from_debug_records() {
    let r = resolve("OpenCorePkg", "debug", &opencore_catalog()).ok().unwrap();
    assert_eq!(r.record.channel, "debug");
    assert_eq!(r.record.version, "0.9.3-DEBUG");
}

#[test]
fn unknown_channel_is_no_matching_channel() {
    let r = resolve("OpenCorePkg", "nightly", &opencore_catalog());
    assert!(matches!(r, Err(ResolutionError::NoMatchingChannel)));
}

#[test]
fn channel_match_is_exact() {
    let r = resolve("OpenCorePkg", "Release", &opencore_catalog());
    assert!(matches!(r, Err(ResolutionError::NoMatchingChannel)));
}

#[test]
fn unknown_component_is_no_matching_channel() {
    let r = resolve("Lilu", "release", &opencore_catalog());
    assert!(matches!(r, Err(ResolutionError::NoMatchingChannel)));
}

#[test]
fn empty_catalog_is_no_matching_channel() {
    let cat = VersionCatalog { entries: vec![] };
    assert!(matches!(resolve("OpenCorePkg", "release", &cat), Err(ResolutionError::NoMatchingChannel)));
}

#[test]
fn equal_times_break_ties_on_higher_version() {
    let cat = VersionCatalog {
        entries: vec![CatalogEntry {
            component: "Lilu".to_string(),
            records: vec![rec("release", "1.6.7", 5), rec("release", "1.6.8", 5), rec("release", "1.6.6", 5)],
        }],
    };
    let r = resolve("Lilu", "release", &cat).ok().unwrap();
    assert_eq!(r.record.version, "1.6.8");
}

#[test]
fn later_time_wins_over_higher_version() {
    let cat = VersionCatalog {
        entries: vec![CatalogEntry {
            component: "Lilu".to_string(),
            records: vec![rec("release", "2.0.0", 1), rec("release", "1.0.0", 9)],
        }],
    };
    assert_eq!(resolve("Lilu", "release", &cat).ok().unwrap().record.version, "1.0.0");
}

#[test]
fn first_entry_of_a_component_is_used() {
    let cat = VersionCatalog {
        entries: vec![
            CatalogEntry { component: "Lilu".to_string(), records: vec![rec("debug", "1.0", 1)] },
            CatalogEntry { component: "Lilu".to_string(), records: vec![rec("release", "2.0", 2)] },
        ],
    };
    assert!(matches!(resolve("Lilu", "release", &cat), Err(ResolutionError::NoMatchingChannel)));
    assert_eq!(resolve("Lilu", "debug", &cat).ok().unwrap().record.version, "1.0");
}

#[test]
fn version_order_compares_numbers_by_value() {
    assert!(version_less("0.9.9", "0.9.10"));
    assert!(!version_less("0.9.10", "0.9.9"));
    assert!(version_less("1.9", "1.10"));
    assert!(version_less("0.9.3-DEBUG", "0.9.3-RELEASE"));
    assert!(version_less("0.9", "0.9.1"));
    assert!(version_less("0.a", "0.b"));
}

#[test]
fn equal_times_prefer_higher_number_not_text() {
    let cat = VersionCatalog {
        entries: vec![CatalogEntry {
            component: "Lilu".to_string(),
            records: vec![rec("release", "1.6.10", 5), rec("release", "1.6.9", 5)],
        }],
    };
    assert_eq!(resolve("Lilu", "release", &cat).ok().unwrap().record.version, "1.6.10");
}

#[test]
fn version_order_basics() {
    assert!(version_less("0.9.2", "0.9.3"));
    assert!(!version_less("0.9.3", "0.9.2"));
    assert!(version_less("0.9.3", "0.9.3-DEBUG"));
    assert!(!version_less("0.9.3", "0.9.3"));
    assert!(version_less("", "0"));
    assert!(!version_less("", ""));
}
