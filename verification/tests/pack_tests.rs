use dtm::pack::{
    rollback_for, with_rollback, PackStage, Undo,
    check_copy_contents, check_copy_metadata, check_destination_parents, destination_conflicts,
    absolute_path, ensure_pack_path_round_trip, input_action, is_ignored_directory, ordered_sources,
    pack_paths, package_path, validate_path_name, InputAction, PackEntry, PackError, PackPlan,
};
use dtm::package::{
    ApplyReport, EntryKind, PackageError, FileKind, PackageEntry, PackageListing, PackagePlan, RootItem, SkippedEntry,
    SourceItem,
};
use dtm::values::Values;

fn values(pairs: &[(&str, &str)]) -> Values {
    let mut v = Values::new();
    for (k, x) in pairs {
        v.insert(k.to_string(), x.to_string());
    }
    v
}

fn paths(home: &str, config_home: &str) -> Values {
    values(&[("home", home), ("config_home", config_home)])
}

#[test]
fn maps_to_nearest_path() {
    let home = "/fixture/home";
    let config_home = "/fixture/home/.config";
    let mapped = package_path("/fixture/packages/app", "/fixture/home/.config/app/.state", &paths(home, config_home))
        .expect("package path");
    assert_eq!(mapped, "/fixture/packages/app/config_home/app/dot-state");
}

#[test]
fn recursive_input_ignores_dependencies_but_explicit_input_accepts_them() {
    let pkgs = "/fixture/packages";
    assert_eq!(
        input_action("/fixture/home/project/node_modules", false, "/fixture/home/project/node_modules", pkgs, pkgs, FileKind::Directory).unwrap(),
        InputAction::Skip
    );
    assert_eq!(
        input_action("/fixture/home/project/node_modules", true, "/fixture/home/project/node_modules", pkgs, pkgs, FileKind::Directory).unwrap(),
        InputAction::Descend
    );
    assert_eq!(
        input_action("/fixture/home/project/node_modules/pkg/index.js", true, "/fixture/home/project/node_modules/pkg/index.js", pkgs, pkgs, FileKind::File).unwrap(),
        InputAction::AddFile
    );
    assert_eq!(
        input_action("/fixture/home/project", true, "/fixture/home/project", pkgs, pkgs, FileKind::Directory).unwrap(),
        InputAction::Descend
    );
    assert!(is_ignored_directory("/fixture/home/project/node_modules"));
    assert!(is_ignored_directory("/x/.git"));
    assert!(!is_ignored_directory("/x/config.js"));
    assert!(!is_ignored_directory("/"));
}

#[test]
fn recursive_input_skips_the_package_repository_but_explicit_input_rejects_it() {
    let pkgs = "/fixture/home/packages";
    assert_eq!(
        input_action("/fixture/home/packages", false, "/fixture/home/packages", pkgs, pkgs, FileKind::Directory).unwrap(),
        InputAction::Skip
    );
    let error = input_action("/fixture/home/packages", true, "/fixture/home/packages", pkgs, pkgs, FileKind::Directory)
        .expect_err("explicit package repository must be rejected");
    assert!(matches!(error, PackError::InputContainsPackage { .. }));
    let error = input_action("/fixture/home/link", true, "/fixture/home/link", pkgs, pkgs, FileKind::Symlink)
        .expect_err("links are refused");
    assert!(matches!(error, PackError::SymbolicLink { .. }));
}

#[test]
fn rejects_paths_that_package_naming_cannot_round_trip() {
    let home = "/fixture/home";
    let error = package_path("/fixture/packages/pkg", "/fixture/home/literal.tmpl.conf", &values(&[("home", home)]))
        .expect_err("template-like literal must be rejected");
    assert!(matches!(error, PackError::UnrepresentablePath(_)));
    assert!(ensure_pack_path_round_trip("a/.b", "a/dot-b").is_ok());
    assert!(ensure_pack_path_round_trip("dot-b", "dot-b").is_err());
}

#[test]
fn path_names_and_absolute_paths() {
    assert!(validate_path_name("home").is_ok());
    assert!(matches!(validate_path_name(".dtm"), Err(PackError::InvalidPathName(n)) if n == ".dtm"));
    assert!(validate_path_name("a/b").is_err());
    assert!(validate_path_name("..").is_err());
    assert_eq!(absolute_path("../b/./c", "/work/a"), "/work/b/c");
    assert_eq!(absolute_path("/x/../../y", "/work"), "/y");
    assert_eq!(absolute_path("rel", "/work"), "/work/rel");
}

#[test]
fn sources_are_ordered_once_and_collisions_refused() {
    let sources = vec!["/h/b".to_owned(), "/h/a".to_owned(), "/h//b".to_owned()];
    assert_eq!(ordered_sources(&sources), vec!["/h/a".to_owned(), "/h/b".to_owned()]);

    let paths = values(&[("home", "/h")]);
    let mapped = pack_paths("/p/pkg", &vec!["/h/.x".to_owned(), "/h/y".to_owned()], &paths)
        .expect("package paths");
    assert_eq!(mapped[0], ("/h/.x".to_owned(), "/p/pkg/home/dot-x".to_owned()));
    assert_eq!(mapped[1], ("/h/y".to_owned(), "/p/pkg/home/y".to_owned()));

    let error = pack_paths("/p/pkg", &vec!["/nowhere/x".to_owned()], &paths).expect_err("no parent");
    assert!(matches!(error, PackError::NoPathParent { .. }));
}

#[test]
fn retain_skips_declined_conflicts() {
    let mapped = vec![
        ("/h/second".to_owned(), "/p/pkg/home/second".to_owned()),
        ("/h/first".to_owned(), "/p/pkg/home/first".to_owned()),
    ];
    let plan = PackPlan::from_package_paths("pkg", "/p/pkg", &mapped, &vec![false, true]);
    assert_eq!(plan.entries[0].package_path, "/p/pkg/home/first");
    assert!(plan.entries[0].conflicts);
    let kept = plan.retain(|entry: &PackEntry| !entry.conflicts);
    assert_eq!(kept.entries.len(), 1);
    assert_eq!(kept.entries[0].source, "/h/second");
    assert_eq!(kept.entries[0].target, "/h/second");
}

#[test]
fn packed_files_must_map_back_and_be_installed() {
    let mapped = vec![("/h/a".to_owned(), "/p/pkg/home/a".to_owned())];
    let plan = PackPlan::from_package_paths("pkg", "/p/pkg", &mapped, &vec![false]);
    let installed = PackagePlan {
        name: "pkg".to_owned(),
        root: "/p/pkg".to_owned(),
        entries: vec![PackageEntry {
            source: "/p/pkg/home/a".to_owned(),
            target: "/h/a".to_owned(),
            kind: EntryKind::Symlink,
        }],
    };
    assert!(plan.verify_package_plan(&installed).is_ok());
    let empty = PackagePlan { name: "pkg".to_owned(), root: "/p/pkg".to_owned(), entries: Vec::new() };
    assert!(matches!(plan.verify_package_plan(&empty), Err(PackError::MappingMismatch { .. })));

    let mut report = ApplyReport::default();
    report.skipped.push(SkippedEntry { entry: installed.entries[0].clone(), reason: "already up to date".to_owned() });
    assert!(plan.check_installed(&report).is_ok());
    report.skipped[0].reason = "target already exists".to_owned();
    assert!(matches!(plan.check_installed(&report), Err(PackError::InstallSkipped { paths }) if paths == vec!["/h/a".to_owned()]));

    assert_eq!(plan.staged_path(&plan.entries[0], "/tmp/stage").unwrap(), "/tmp/stage/home/a");
}

#[test]
fn packed_file_installs_back_at_its_source() {
    let paths = paths("/fixture/home", "/fixture/home/.config");
    let source = "/fixture/home/.config/app/.state";
    let package_file =
        package_path("/fixture/packages/app", source, &paths).expect("package path");
    assert_eq!(package_file, "/fixture/packages/app/config_home/app/dot-state");

    let root = "/fixture/packages/app/config_home";
    let listing = PackageListing {
        root_kind: FileKind::Directory,
        root: "/fixture/packages/app".to_owned(),
        entries: vec![RootItem {
            name: "config_home".to_owned(),
            path: root.to_owned(),
            kind: FileKind::Directory,
            items: vec![
                SourceItem {
                    path: format!("{root}/app"),
                    names: vec!["app".to_owned()],
                    unicode: true,
                    kind: FileKind::Directory,
                },
                SourceItem {
                    path: package_file.clone(),
                    names: vec!["app".to_owned(), "dot-state".to_owned()],
                    unicode: true,
                    kind: FileKind::File,
                },
            ],
        }],
    };
    let installed = PackagePlan::load("/fixture/packages", "app", &paths, &listing).expect("load package");
    assert_eq!(
        installed.entries,
        vec![PackageEntry { source: package_file, target: source.to_owned(), kind: EntryKind::Symlink }]
    );
}

#[test]
fn package_destinations_need_directory_parents_and_a_regular_file() {
    let parents = vec![
        ("/p/app/home/a/b".to_owned(), None),
        ("/p/app/home/a".to_owned(), Some(FileKind::Directory)),
        ("/p/app/home".to_owned(), Some(FileKind::Directory)),
    ];
    assert!(check_destination_parents(&parents).is_ok());
    let blocked = vec![
        ("/p/app/home/a/b".to_owned(), None),
        ("/p/app/home/a".to_owned(), Some(FileKind::File)),
        ("/p/app/home".to_owned(), Some(FileKind::Symlink)),
    ];
    assert!(matches!(
        check_destination_parents(&blocked),
        Err(PackError::DestinationParentNotDirectory { path }) if path == "/p/app/home/a"
    ));
    assert_eq!(destination_conflicts("/p/app/home/a/b/c", None).unwrap(), false);
    assert_eq!(destination_conflicts("/p/app/home/a/b/c", Some(FileKind::File)).unwrap(), true);
    assert!(matches!(
        destination_conflicts("/p/app/home/a/b/c", Some(FileKind::Directory)),
        Err(PackError::InvalidDestinationType { path }) if path == "/p/app/home/a/b/c"
    ));
}

#[test]
fn copies_must_keep_kind_permissions_and_bytes() {
    assert!(check_copy_metadata("/h/a", FileKind::File, FileKind::File, 0o644, 0o644).is_ok());
    assert!(matches!(
        check_copy_metadata("/h/a", FileKind::File, FileKind::File, 0o644, 0o600),
        Err(PackError::SourceChanged(path)) if path == "/h/a"
    ));
    assert!(matches!(
        check_copy_metadata("/h/a", FileKind::Symlink, FileKind::File, 0o644, 0o644),
        Err(PackError::SourceChanged(_))
    ));
    assert!(check_copy_contents("/h/a", &b"same".to_vec(), &b"same".to_vec()).is_ok());
    assert!(matches!(
        check_copy_contents("/h/a", &b"same".to_vec(), &b"sane".to_vec()),
        Err(PackError::SourceChanged(_))
    ));
    assert!(matches!(
        check_copy_contents("/h/a", &b"same".to_vec(), &b"sam".to_vec()),
        Err(PackError::SourceChanged(_))
    ));
}

#[test]
fn retain_skips_declined_conflicts_and_preserves_their_sources() {
    let paths = values(&[("home", "/fixture/home")]);
    let first = "/fixture/home/first".to_owned();
    let second = "/fixture/home/second".to_owned();
    let sources = ordered_sources(&vec![first.clone(), second.clone()]);
    let mapped = pack_paths("/fixture/packages/pkg", &sources, &paths).expect("package paths");
    // `first` already has a package file; `second` does not.
    let conflicts: Vec<bool> = mapped.iter().map(|(source, _)| *source == first).collect();
    let plan = PackPlan::from_package_paths("pkg", "/fixture/packages/pkg", &mapped, &conflicts)
        .retain(|entry: &PackEntry| !entry.conflicts);

    // Nothing in the plan moves `first` or touches its package file.
    assert!(plan.entries.iter().all(|entry| entry.source != first));
    assert!(plan.entries.iter().all(|entry| entry.package_path != "/fixture/packages/pkg/home/first"));
    assert_eq!(
        plan.entries,
        vec![PackEntry {
            source: second.clone(),
            package_path: "/fixture/packages/pkg/home/second".to_owned(),
            target: second,
            conflicts: false,
        }]
    );
}

#[test]
fn failures_read_as_their_messages_and_rollbacks_name_the_failure() {
    let error = PackError::TargetCollision {
        first: "/h/a".to_owned(),
        second: "/h/b".to_owned(),
        package_path: "/p/pkg/home/a".to_owned(),
    };
    assert_eq!(error.message(), "/h/a and /h/b both map to package file /p/pkg/home/a");
    assert!(matches!(with_rollback(PackError::NoFiles, Vec::new()), PackError::NoFiles));
    let rolled = with_rollback(error, vec!["could not remove /x".to_owned(), "could not restore /y".to_owned()]);
    assert_eq!(
        rolled.message(),
        "/h/a and /h/b both map to package file /p/pkg/home/a; rollback also failed: could not remove /x; could not restore /y"
    );
    assert_eq!(
        PackError::Package(PackageError::UnmanagedTargets {
            paths: vec!["/t/a".to_owned(), "/t/b".to_owned()],
        })
        .message(),
        "package has targets not managed by dtm: /t/a, /t/b"
    );
    assert_eq!(
        PackageError::InvalidName { name: "../x".to_owned() }.message(),
        "invalid package name '../x'"
    );
    assert_eq!(
        PackError::InstallSkipped { paths: vec!["/t/a".to_owned()] }.message(),
        "stow skipped newly packed targets: /t/a"
    );
}

#[test]
fn source_verification_detects_changes_after_copying() {
    let source = "/fixture/source";
    let copied = b"before\n".to_vec();
    assert!(check_copy_metadata(source, FileKind::File, FileKind::File, 0o644, 0o644).is_ok());
    assert!(check_copy_contents(source, &b"before\n".to_vec(), &copied).is_ok());
    assert!(matches!(
        check_copy_contents(source, &b"after\n".to_vec(), &copied),
        Err(PackError::SourceChanged(path)) if path == source
    ));
}

#[test]
fn rollback_undoes_latest_changes_first() {
    assert_eq!(rollback_for(PackStage::Stage), vec![Undo::DiscardTransaction]);
    assert_eq!(
        rollback_for(PackStage::VerifySources),
        vec![Undo::RestorePackageFiles, Undo::DiscardTransaction]
    );
    assert_eq!(
        rollback_for(PackStage::RemoveSources),
        vec![Undo::RestoreSources, Undo::RestorePackageFiles, Undo::DiscardTransaction]
    );
    assert_eq!(
        rollback_for(PackStage::CheckInstalled),
        vec![
            Undo::RemoveInstalled,
            Undo::RestoreSources,
            Undo::RestorePackageFiles,
            Undo::DiscardTransaction
        ]
    );
    assert!(rollback_for(PackStage::Cleanup).is_empty());
}

#[test]
fn file_system_failures_name_their_paths_before_the_system_text() {
    let denied = || std::io::Error::new(std::io::ErrorKind::Other, "denied");
    assert_eq!(
        PackageError::ReadDirectory { path: "/p/pkg".to_owned(), source: denied() }.message(),
        "could not read directory /p/pkg: denied"
    );
    assert_eq!(
        PackError::CopyFile {
            source_path: "/h/a".to_owned(),
            destination: "/p/a".to_owned(),
            source: denied(),
        }
        .message(),
        "could not copy /h/a to /p/a: denied"
    );
    assert_eq!(
        PackError::Package(PackageError::MoveToBackup {
            source_path: "/h/a".to_owned(),
            backup: "/b/a".to_owned(),
            source: denied(),
        })
        .message(),
        "could not move /h/a to backup /b/a: denied"
    );
}
