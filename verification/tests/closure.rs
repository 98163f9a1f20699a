use cargo_tags::paths::{parse_path, to_display, NormPath};
use cargo_tags::sources::{
    FetchCause, ListOutcome, LockfileGraph, Node, NodeIdentity, PackageDescriptor, SourceEntry,
    SourceId, SourceKind, SourceTable, TablePackage, UpdateOutcome, WalkError,
};
use cargo_tags::walk::{resolve_closure, Walker};

fn path(s: &str) -> NormPath {
    parse_path(s)
}

fn registry(locator: &str) -> SourceId {
    SourceId { kind: SourceKind::Registry, locator: locator.to_string() }
}

fn local(locator: &str) -> SourceId {
    SourceId { kind: SourceKind::LocalPath, locator: locator.to_string() }
}

fn ident(name: &str, version: &str) -> NodeIdentity {
    NodeIdentity { name: name.to_string(), version: version.to_string() }
}

fn node(name: &str, version: &str, source: &SourceId) -> Node {
    Node { identity: ident(name, version), source: source.duplicate() }
}

fn package(
    name: &str,
    version: &str,
    manifest_dir: &str,
    source: &SourceId,
    files: &[&str],
) -> TablePackage {
    TablePackage {
        descriptor: PackageDescriptor {
            identity: ident(name, version),
            manifest_dir: path(manifest_dir),
            source: source.duplicate(),
        },
        listing: ListOutcome::Files(files.iter().map(|f| path(f)).collect()),
    }
}

fn entry(source: &SourceId, packages: Vec<TablePackage>) -> SourceEntry {
    SourceEntry { id: source.duplicate(), update: UpdateOutcome::Updated, packages }
}

fn shown(dirs: &Vec<NormPath>) -> Vec<String> {
    to_display(dirs)
}

#[test]
fn missing_lockfile_fails() {
    let root = vec![path("/repo/src/lib.rs")];
    let table = SourceTable { entries: vec![] };
    let r = resolve_closure(&root, None, &table);
    match r {
        Err(WalkError::MissingLockfile) => {}
        _ => panic!("a missing lockfile must fail the walk"),
    }
}

#[test]
fn root_only_closure() {
    let root = vec![path("/repo/src/lib.rs"), path("/repo/src/util/extra.rs")];
    let graph = LockfileGraph { nodes: vec![] };
    let table = SourceTable { entries: vec![] };
    let out = resolve_closure(&root, Some(&graph), &table).unwrap();
    assert_eq!(shown(&out.directories), vec!["/repo/src".to_string(), "/repo/src/util".to_string()]);
    assert_eq!(out.updates.len(), 0);
}

#[test]
fn closure_scenario_two_registry_packages() {
    let root = vec![path("/repo/main.rs")];
    let src_a = registry("registry/libA/1.0");
    let src_b = registry("registry/libB/2.0");
    let graph = LockfileGraph {
        nodes: vec![node("libA", "1.0", &src_a), node("libB", "2.0", &src_b)],
    };
    let table = SourceTable {
        entries: vec![
            entry(
                &src_a,
                vec![package("libA", "1.0", "/cache/libA-1.0", &src_a, &[
                    "/cache/libA-1.0/src/a.rs",
                ])],
            ),
            entry(
                &src_b,
                vec![package("libB", "2.0", "/cache/libB-2.0", &src_b, &[
                    "/cache/libB-2.0/src/b.rs",
                    "/cache/libB-2.0/src/util/c.rs",
                ])],
            ),
        ],
    };
    let out = resolve_closure(&root, Some(&graph), &table).unwrap();
    assert_eq!(
        shown(&out.directories),
        vec![
            "/cache/libA-1.0/src".to_string(),
            "/cache/libB-2.0/src".to_string(),
            "/cache/libB-2.0/src/util".to_string(),
            "/repo".to_string(),
        ]
    );
    assert_eq!(out.updates.len(), 2);
    assert!(out.updates[0].same_source(&src_a));
    assert!(out.updates[1].same_source(&src_b));
}

#[test]
fn shared_registry_source_updates_once() {
    let root = vec![path("/repo/main.rs")];
    let shared = registry("registry@1.0");
    let graph = LockfileGraph {
        nodes: vec![node("libA", "1.0", &shared), node("libC", "1.0", &shared)],
    };
    let table = SourceTable {
        entries: vec![entry(
            &shared,
            vec![
                package("libA", "1.0", "/cache/libA-1.0", &shared, &["/cache/libA-1.0/a.rs"]),
                package("libC", "1.0", "/cache/libC-1.0", &shared, &["/cache/libC-1.0/c.rs"]),
            ],
        )],
    };
    let out = resolve_closure(&root, Some(&graph), &table).unwrap();
    assert_eq!(out.updates.len(), 1);
    assert!(out.updates[0].same_source(&shared));
}

#[test]
fn update_failure_yields_no_output() {
    let root = vec![path("/repo/main.rs")];
    let good = registry("registry/libA/1.0");
    let bad = registry("registry/libB/2.0");
    let graph = LockfileGraph {
        nodes: vec![node("libA", "1.0", &good), node("libB", "2.0", &bad)],
    };
    let table = SourceTable {
        entries: vec![
            entry(&good, vec![package("libA", "1.0", "/cache/libA-1.0", &good, &[
                "/cache/libA-1.0/a.rs",
            ])]),
            SourceEntry {
                id: bad.duplicate(),
                update: UpdateOutcome::Failed(FetchCause::Network),
                packages: vec![],
            },
        ],
    };
    let r = resolve_closure(&root, Some(&graph), &table);
    match r {
        Err(WalkError::Fetch { node, source, cause }) => {
            assert_eq!(node.name, "libB");
            assert!(source.same_source(&bad));
            assert!(matches!(cause, FetchCause::Network));
        }
        _ => panic!("a failing update must fail the whole walk"),
    }
}

#[test]
fn authentication_failure_is_reported() {
    let root = vec![path("/repo/main.rs")];
    let gated = SourceId { kind: SourceKind::Vcs, locator: "git/private#abc".to_string() };
    let graph = LockfileGraph { nodes: vec![node("secret", "0.2", &gated)] };
    let table = SourceTable {
        entries: vec![SourceEntry {
            id: gated.duplicate(),
            update: UpdateOutcome::Failed(FetchCause::Auth),
            packages: vec![],
        }],
    };
    match resolve_closure(&root, Some(&graph), &table) {
        Err(WalkError::Fetch { cause, .. }) => {
            assert!(matches!(cause, FetchCause::Auth));
        }
        _ => panic!("an authentication failure must fail the walk"),
    }
}

#[test]
fn unknown_source_fails_as_not_found_fetch() {
    let root = vec![path("/repo/main.rs")];
    let missing = registry("registry/gone/0.1");
    let graph = LockfileGraph { nodes: vec![node("gone", "0.1", &missing)] };
    let table = SourceTable { entries: vec![] };
    match resolve_closure(&root, Some(&graph), &table) {
        Err(WalkError::Fetch { node, cause, .. }) => {
            assert_eq!(node.name, "gone");
            assert!(matches!(cause, FetchCause::NotFound));
        }
        _ => panic!("an unknown source must fail the walk"),
    }
}

#[test]
fn absent_identity_fails_not_found() {
    let root = vec![path("/repo/main.rs")];
    let src = registry("registry/libA/1.0");
    let graph = LockfileGraph { nodes: vec![node("libA", "9.9", &src)] };
    let table = SourceTable {
        entries: vec![entry(&src, vec![package("libA", "1.0", "/cache/libA-1.0", &src, &[
            "/cache/libA-1.0/a.rs",
        ])])],
    };
    match resolve_closure(&root, Some(&graph), &table) {
        Err(WalkError::NotFound { node, .. }) => {
            assert_eq!(node.version, "9.9");
        }
        _ => panic!("an absent identity must fail the walk"),
    }
}

#[test]
fn listing_failure_fails_walk() {
    let root = vec![path("/repo/main.rs")];
    let src = local("/vendor/libA");
    let graph = LockfileGraph { nodes: vec![node("libA", "1.0", &src)] };
    let table = SourceTable {
        entries: vec![SourceEntry {
            id: src.duplicate(),
            update: UpdateOutcome::Updated,
            packages: vec![TablePackage {
                descriptor: PackageDescriptor {
                    identity: ident("libA", "1.0"),
                    manifest_dir: path("/vendor/libA"),
                    source: src.duplicate(),
                },
                listing: ListOutcome::IoFailure,
            }],
        }],
    };
    match resolve_closure(&root, Some(&graph), &table) {
        Err(WalkError::Listing { node, .. }) => {
            assert_eq!(node.name, "libA");
        }
        _ => panic!("a failing enumeration must fail the walk"),
    }
}

#[test]
fn duplicate_parent_directories_collapse() {
    let root = vec![
        path("/repo/src/a.rs"),
        path("/repo/src/b.rs"),
        path("/repo/src/../src/c.rs"),
    ];
    let graph = LockfileGraph { nodes: vec![] };
    let table = SourceTable { entries: vec![] };
    let out = resolve_closure(&root, Some(&graph), &table).unwrap();
    assert_eq!(shown(&out.directories), vec!["/repo/src".to_string()]);
}

#[test]
fn traversal_order_does_not_change_listing() {
    let root = vec![path("/repo/main.rs")];
    let src_a = registry("registry/libA/1.0");
    let src_b = registry("registry/libB/2.0");
    let entries = || {
        vec![
            entry(&src_a, vec![package("libA", "1.0", "/cache/libA-1.0", &src_a, &[
                "/cache/libA-1.0/a.rs",
            ])]),
            entry(&src_b, vec![package("libB", "2.0", "/cache/libB-2.0", &src_b, &[
                "/cache/libB-2.0/b.rs",
            ])]),
        ]
    };
    let forward = LockfileGraph {
        nodes: vec![node("libA", "1.0", &src_a), node("libB", "2.0", &src_b)],
    };
    let backward = LockfileGraph {
        nodes: vec![node("libB", "2.0", &src_b), node("libA", "1.0", &src_a)],
    };
    let out_f =
        resolve_closure(&root, Some(&forward), &SourceTable { entries: entries() }).unwrap();
    let out_b =
        resolve_closure(&root, Some(&backward), &SourceTable { entries: entries() }).unwrap();
    assert_eq!(shown(&out_f.directories), shown(&out_b.directories));
}

#[test]
fn walker_begin_source_dedups() {
    let mut w = Walker::new();
    let shared = registry("registry@1.0");
    let other = local("/vendor/libX");
    assert!(w.begin_source(&shared));
    assert!(!w.begin_source(&shared));
    assert!(w.begin_source(&other));
    assert!(!w.begin_source(&shared));
    assert_eq!(w.updated.len(), 2);
}

#[test]
fn well_formed_rejects_repeated_identity() {
    let src = registry("registry/libA/1.0");
    let good = LockfileGraph {
        nodes: vec![node("libA", "1.0", &src), node("libB", "2.0", &src)],
    };
    assert!(good.well_formed());
    let bad = LockfileGraph {
        nodes: vec![node("libA", "1.0", &src), node("libA", "1.0", &src)],
    };
    assert!(!bad.well_formed());
}

#[test]
fn root_level_file_maps_to_root_directory() {
    let root = vec![path("/main.rs")];
    let graph = LockfileGraph { nodes: vec![] };
    let table = SourceTable { entries: vec![] };
    let out = resolve_closure(&root, Some(&graph), &table).unwrap();
    assert_eq!(shown(&out.directories), vec!["/".to_string()]);
}
