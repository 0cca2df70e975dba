use conflict_scanner::scanner::{
    is_erf_file, process_erf_file, process_loose_file, scan_listing, should_ignore, Conflicts,
    ScanError, ScanFile,
};

fn scanner_utf16_field(s: &str, width: usize) -> Vec<u8> {
    let mut v = Vec::new();
    for u in s.encode_utf16() {
        v.extend_from_slice(&u.to_le_bytes());
    }
    assert!(v.len() <= width);
    v.resize(width, 0);
    v
}

/// A minimal V2.0 archive whose table of contents holds the given names.
fn small_archive(names: &[&str]) -> Vec<u8> {
    let mut v = scanner_utf16_field("ERF ", 8);
    v.extend(scanner_utf16_field("V2.0", 8));
    v.extend_from_slice(&(names.len() as u32).to_le_bytes());
    v.extend_from_slice(&2009u32.to_le_bytes());
    v.extend_from_slice(&1u32.to_le_bytes());
    v.extend_from_slice(&0u32.to_le_bytes());
    for name in names {
        v.extend(scanner_utf16_field(name, 64));
        v.extend_from_slice(&0u32.to_le_bytes());
        v.extend_from_slice(&0u32.to_le_bytes());
    }
    v
}

fn loose(path: &str) -> ScanFile {
    ScanFile {
        path: path.to_string(),
        data: None,
    }
}

fn archive(path: &str, names: &[&str]) -> ScanFile {
    ScanFile {
        path: path.to_string(),
        data: Some(small_archive(names)),
    }
}

fn paths_of(map: &Conflicts, key: &str) -> Vec<String> {
    map.get(key).expect("key missing").clone()
}

#[test]
fn erf_extension_is_case_insensitive() {
    assert!(is_erf_file("/game/data/pack.erf"));
    assert!(is_erf_file("/game/data/PACK.ERF"));
    assert!(is_erf_file("C.Erf"));
    assert!(is_erf_file("/game/a.tar.erf"));
}

#[test]
fn non_erf_paths_are_rejected() {
    assert!(!is_erf_file("/game/data/pack.gda"));
    assert!(!is_erf_file("/game/data/erf"));
    assert!(!is_erf_file("/game/data/.erf"));
    assert!(!is_erf_file("/game/pack.erf/inner.txt"));
    assert!(!is_erf_file("/game/data/pack"));
}

#[test]
fn ignore_list_is_case_insensitive() {
    assert!(should_ignore("manifest.xml"));
    assert!(should_ignore("Manifest.XML"));
    assert!(should_ignore("CREDITS.TXT"));
    assert!(should_ignore("readme.txt"));
    assert!(!should_ignore("readme.md"));
    assert!(!should_ignore("x.gda"));
}

#[test]
fn two_loose_overrides_conflict() {
    let files = vec![
        loose("/game/packages/core/override/x.gda"),
        loose("/game/packages/core/override/sub/x.gda"),
    ];
    let (map, warnings) = scan_listing("/game", &files);
    assert!(warnings.is_empty());
    assert_eq!(map.len(), 1);
    let paths = paths_of(&map, "x.gda");
    assert_eq!(
        paths,
        vec![
            "/game/packages/core/override/sub/x.gda".to_string(),
            "/game/packages/core/override/x.gda".to_string(),
        ]
    );
}

#[test]
fn archive_and_loose_conflict_and_exclusion() {
    let files = vec![
        archive("/game/a.erf", &["y.gda", "manifest.xml"]),
        loose("/game/packages/core/override/y.gda"),
    ];
    let (map, warnings) = scan_listing("/game", &files);
    assert!(warnings.is_empty());
    assert_eq!(map.len(), 1);
    assert!(map.get("manifest.xml").is_none());
    let paths = paths_of(&map, "y.gda");
    assert_eq!(
        paths,
        vec![
            "/game/a.erf".to_string(),
            "/game/packages/core/override/y.gda".to_string(),
        ]
    );
}

#[test]
fn single_provider_is_not_a_conflict() {
    let files = vec![loose("/game/packages/core/override/only.gda")];
    let (map, warnings) = scan_listing("/game", &files);
    assert!(warnings.is_empty());
    assert_eq!(map.len(), 0);
}

#[test]
fn excluded_name_dropped_even_with_two_providers() {
    let files = vec![
        loose("/game/packages/core/override/MANIFEST.XML"),
        loose("/game/packages/core/override/sub/MANIFEST.XML"),
    ];
    let (map, warnings) = scan_listing("/game", &files);
    assert!(warnings.is_empty());
    assert_eq!(map.len(), 0);
}

#[test]
fn files_outside_override_and_without_erf_extension_are_irrelevant() {
    let files = vec![
        loose("/game/readme.now"),
        loose("/game/data/x.gda"),
        loose("/game/packages/core/override/x.gda"),
    ];
    let (map, _warnings) = scan_listing("/game", &files);
    assert_eq!(map.len(), 0);
}

#[test]
fn conflict_keys_are_case_sensitive() {
    let files = vec![
        loose("/game/packages/core/override/Name.gda"),
        loose("/game/packages/core/override/sub/name.gda"),
    ];
    let (map, _warnings) = scan_listing("/game", &files);
    assert_eq!(map.len(), 0);
}

#[test]
fn paths_are_sorted_ascending() {
    let files = vec![
        loose("/game/packages/core/override/z/k.gda"),
        loose("/game/packages/core/override/a/k.gda"),
        loose("/game/packages/core/override/m/k.gda"),
    ];
    let (map, _warnings) = scan_listing("/game", &files);
    let paths = paths_of(&map, "k.gda");
    assert_eq!(
        paths,
        vec![
            "/game/packages/core/override/a/k.gda".to_string(),
            "/game/packages/core/override/m/k.gda".to_string(),
            "/game/packages/core/override/z/k.gda".to_string(),
        ]
    );
}

#[test]
fn scan_result_is_order_independent() {
    let forward = vec![
        archive("/game/a.erf", &["y.gda", "z.gda"]),
        loose("/game/packages/core/override/y.gda"),
        archive("/game/b.erf", &["z.gda"]),
    ];
    let backward: Vec<ScanFile> = vec![
        archive("/game/b.erf", &["z.gda"]),
        loose("/game/packages/core/override/y.gda"),
        archive("/game/a.erf", &["y.gda", "z.gda"]),
    ];
    let (m1, _) = scan_listing("/game", &forward);
    let (m2, _) = scan_listing("/game", &backward);
    assert_eq!(m1.len(), m2.len());
    for (key, paths) in &m1.entries {
        assert_eq!(m2.get(key.as_str()), Some(paths));
    }
}

#[test]
fn repeated_scan_is_identical() {
    let files = vec![
        archive("/game/a.erf", &["y.gda"]),
        loose("/game/packages/core/override/y.gda"),
    ];
    let (m1, _) = scan_listing("/game", &files);
    let (m2, _) = scan_listing("/game", &files);
    assert_eq!(m1.entries, m2.entries);
}

#[test]
fn corrupt_archive_is_reported_and_skipped() {
    let files = vec![
        ScanFile {
            path: "/game/bad.erf".to_string(),
            data: Some(vec![1, 2, 3]),
        },
        loose("/game/packages/core/override/y.gda"),
        loose("/game/packages/core/override/sub/y.gda"),
    ];
    let (map, warnings) = scan_listing("/game", &files);
    assert_eq!(warnings.len(), 1);
    match &warnings[0] {
        ScanError::Erf { path, source: _ } => assert_eq!(path, "/game/bad.erf"),
        other => panic!("expected Erf warning, got {:?}", other),
    }
    assert_eq!(map.len(), 1);
    assert!(map.get("y.gda").is_some());
}

#[test]
fn unsupported_archive_revision_is_a_warning() {
    let mut data = small_archive(&["y.gda"]);
    // rewrite the version field to an unrecognized revision
    let bad_version = scanner_utf16_field("V3.0", 8);
    data[8..16].copy_from_slice(&bad_version);
    let files = vec![ScanFile {
        path: "/game/new.erf".to_string(),
        data: Some(data),
    }];
    let (map, warnings) = scan_listing("/game", &files);
    assert_eq!(map.len(), 0);
    assert_eq!(warnings.len(), 1);
    match &warnings[0] {
        ScanError::Erf { path, source } => {
            assert_eq!(path, "/game/new.erf");
            assert!(matches!(
                source,
                conflict_scanner::erf::ErfError::UnsupportedVersion(v) if v == "V3.0"
            ));
        }
        other => panic!("expected Erf warning, got {:?}", other),
    }
}

#[test]
fn unreadable_archive_contributes_nothing_silently() {
    let files = vec![ScanFile {
        path: "/game/gone.erf".to_string(),
        data: None,
    }];
    let (map, warnings) = scan_listing("/game", &files);
    assert_eq!(map.len(), 0);
    assert!(warnings.is_empty());
}

#[test]
fn archive_inside_override_counts_as_archive() {
    // archive precedence: the .erf in the override tree contributes its
    // table-of-contents names, not its own file name
    let files = vec![
        archive("/game/packages/core/override/pack.erf", &["q.gda"]),
        loose("/game/packages/core/override/q.gda"),
    ];
    let (map, warnings) = scan_listing("/game", &files);
    assert!(warnings.is_empty());
    assert_eq!(map.len(), 1);
    let paths = paths_of(&map, "q.gda");
    assert_eq!(
        paths,
        vec![
            "/game/packages/core/override/pack.erf".to_string(),
            "/game/packages/core/override/q.gda".to_string(),
        ]
    );
}

#[test]
fn one_archive_with_duplicate_names_conflicts_with_itself() {
    let files = vec![archive("/game/a.erf", &["d.gda", "D.GDA", "d.gda"])];
    let (map, _warnings) = scan_listing("/game", &files);
    // keys are case sensitive: "d.gda" appears twice, "D.GDA" once
    assert_eq!(map.len(), 1);
    let paths = paths_of(&map, "d.gda");
    assert_eq!(
        paths,
        vec!["/game/a.erf".to_string(), "/game/a.erf".to_string()]
    );
}

#[test]
fn empty_listing_gives_empty_map() {
    let files: Vec<ScanFile> = Vec::new();
    let (map, warnings) = scan_listing("/game", &files);
    assert_eq!(map.len(), 0);
    assert!(warnings.is_empty());
}

#[test]
fn root_not_found_error_carries_path() {
    let e = ScanError::RootNotFound {
        path: "/missing".to_string(),
    };
    match e {
        ScanError::RootNotFound { path } => assert_eq!(path, "/missing"),
        other => panic!("unexpected variant {:?}", other),
    }
}

#[test]
fn process_loose_file_records_bare_name() {
    let mut map = Conflicts::new();
    process_loose_file("/game/packages/core/override/x.gda", &mut map);
    assert_eq!(
        map.get("x.gda"),
        Some(&vec!["/game/packages/core/override/x.gda".to_string()])
    );
}

#[test]
fn process_erf_file_records_toc_names() {
    let data = small_archive(&["a.gda", "b.gda"]);
    let mut map = Conflicts::new();
    process_erf_file("/game/a.erf", &data, &mut map).unwrap();
    assert_eq!(map.len(), 2);
    assert_eq!(map.get("a.gda"), Some(&vec!["/game/a.erf".to_string()]));
    assert_eq!(map.get("b.gda"), Some(&vec!["/game/a.erf".to_string()]));
}

#[test]
fn process_erf_file_rejects_garbage_and_leaves_map_alone() {
    let mut map = Conflicts::new();
    let r = process_erf_file("/game/bad.erf", &[0, 1, 2], &mut map);
    assert!(r.is_err());
    assert_eq!(map.len(), 0);
}

#[test]
fn conflicts_get_on_absent_key() {
    let files = vec![
        loose("/game/packages/core/override/x.gda"),
        loose("/game/packages/core/override/sub/x.gda"),
    ];
    let (map, _warnings) = scan_listing("/game", &files);
    assert!(map.get("absent.gda").is_none());
}
