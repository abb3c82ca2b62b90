use dtm::package::{
    deepest_first, deployment_name, restore_backup_path, reverse_backup_path, render_template, ApplyMode, ApplyStep, BackupItem, BackupListing,
    BackupRootState, EntryKind, EntryObservation, FileKind, PackageEntry, PackageError,
    PackageListing, PackagePlan, RemoveMode, Replacement, RootItem, SourceItem, TargetState,
};
use dtm::values::Values;

fn values(pairs: &[(&str, &str)]) -> Values {
    let mut v = Values::new();
    for (k, x) in pairs {
        v.insert(k.to_string(), x.to_string());
    }
    v
}

fn item(base: &str, names: &[&str], kind: FileKind) -> SourceItem {
    SourceItem {
        path: format!("{}/{}", base, names.join("/")),
        names: names.iter().map(|n| (*n).to_owned()).collect(),
        unicode: true,
        kind,
    }
}

fn directory(package: &str, name: &str, items: &[(&[&str], FileKind)]) -> RootItem {
    let base = format!("{package}/{name}");
    RootItem {
        name: name.to_owned(),
        path: base.clone(),
        kind: FileKind::Directory,
        items: items.iter().map(|(names, kind)| item(&base, names, *kind)).collect(),
    }
}

fn listing(package: &str, entries: Vec<RootItem>) -> PackageListing {
    PackageListing { root_kind: FileKind::Directory, root: package.to_owned(), entries }
}

fn observe(target: TargetState) -> EntryObservation {
    EntryObservation { source_text: None, target, backup_exists: false }
}

fn observe_template(text: &str, target: TargetState) -> EntryObservation {
    EntryObservation { source_text: Some(text.to_owned()), target, backup_exists: false }
}

fn single_file_plan(package: &str, name: &str, file: &str, home: &str) -> (PackagePlan, Values) {
    let variables = values(&[("home", home)]);
    let plan = PackagePlan::load(
        "/fixture/dotfiles",
        name,
        &variables,
        &listing(package, vec![directory(package, "home", &[(&[file], FileKind::File)])]),
    )
    .expect("load package");
    (plan, variables)
}

#[test]
fn reads_regular_and_template_files_from_a_package() {
    let package = "/fixture/pkgs/tmux";
    let entries = vec![
        RootItem {
            name: ".dtm".to_owned(),
            path: format!("{package}/.dtm"),
            kind: FileKind::Directory,
            items: Vec::new(),
        },
        directory(
            package,
            "config_home",
            &[(&["tmux"], FileKind::Directory), (&["tmux", "tmux.conf"], FileKind::File)],
        ),
    ];
    let variables = values(&[("config_home", "/home/tester/.config")]);
    let plan = PackagePlan::load("/fixture/pkgs", "tmux", &variables, &listing(package, entries))
        .expect("load package");

    assert_eq!(plan.entries.len(), 1);
    assert_eq!(
        plan.entries[0],
        PackageEntry {
            source: format!("{package}/config_home/tmux/tmux.conf"),
            target: "/home/tester/.config/tmux/tmux.conf".to_owned(),
            kind: EntryKind::Symlink,
        }
    );
}

#[test]
fn maps_dot_prefixed_files_to_hidden_targets() {
    let package = "/fixture/pkgs/git";
    let variables = values(&[("home", "/home/tester")]);
    let plan = PackagePlan::load(
        "/fixture/pkgs",
        "git",
        &variables,
        &listing(package, vec![directory(package, "home", &[(&["dot-gitconfig"], FileKind::File)])]),
    )
    .expect("load package");

    assert_eq!(
        plan.entries,
        vec![PackageEntry {
            source: format!("{package}/home/dot-gitconfig"),
            target: "/home/tester/.gitconfig".to_owned(),
            kind: EntryKind::Symlink,
        }]
    );
}

#[test]
fn reads_template_files_and_removes_the_template_marker() {
    let package = "/fixture/pkgs/tmux";
    let variables = values(&[("config_home", "/home/tester/.config")]);
    let plan = PackagePlan::load(
        "/fixture/pkgs",
        "tmux",
        &variables,
        &listing(
            package,
            vec![directory(
                package,
                "config_home",
                &[(&["tmux"], FileKind::Directory), (&["tmux", "tmux.tmpl.conf"], FileKind::File)],
            )],
        ),
    )
    .expect("load package");

    assert_eq!(
        plan.entries,
        vec![PackageEntry {
            source: format!("{package}/config_home/tmux/tmux.tmpl.conf"),
            target: "/home/tester/.config/tmux/tmux.conf".to_owned(),
            kind: EntryKind::Template,
        }]
    );
}

#[test]
fn classifies_deployment_names_when_removing_the_last_template_marker() {
    assert_eq!(
        deployment_name("dot-gitconfig"),
        Some((EntryKind::Symlink, ".gitconfig".to_owned()))
    );
    assert_eq!(
        deployment_name("dot-gitconfig.tmpl"),
        Some((EntryKind::Template, ".gitconfig".to_owned()))
    );
    assert_eq!(
        deployment_name("tmux.conf.tmpl"),
        Some((EntryKind::Template, "tmux.conf".to_owned()))
    );
    assert_eq!(
        deployment_name("tmux.tmpl.conf"),
        Some((EntryKind::Template, "tmux.conf".to_owned()))
    );
    assert_eq!(
        deployment_name("app.tmpl.backup.tmpl"),
        Some((EntryKind::Template, "app.tmpl.backup".to_owned()))
    );
    assert_eq!(deployment_name(".tmpl"), Some((EntryKind::Symlink, ".tmpl".to_owned())));
    assert_eq!(deployment_name("dot-"), Some((EntryKind::Symlink, "dot-".to_owned())));
}

#[test]
fn rejects_unknown_variable_directory() {
    let package = "/fixture/pkg";
    let error = PackagePlan::load(
        "/fixture",
        "pkg",
        &Values::new(),
        &listing(package, vec![directory(package, "missing", &[(&["file"], FileKind::Directory)])]),
    )
    .expect_err("unknown variable");

    assert!(
        matches!(error, PackageError::UnknownVariableDirectory { variable, .. } if variable == "missing")
    );
}

#[test]
fn rejects_files_at_package_root() {
    let package = "/fixture/pkg";
    let entries = vec![RootItem {
        name: "script.sh".to_owned(),
        path: format!("{package}/script.sh"),
        kind: FileKind::File,
        items: Vec::new(),
    }];
    let error = PackagePlan::load("/fixture", "pkg", &Values::new(), &listing(package, entries))
        .expect_err("root file");

    assert!(matches!(error, PackageError::UnexpectedRootEntry { .. }));
}

#[test]
fn rejects_duplicate_targets_created_by_template_name() {
    let package = "/fixture/pkg";
    let variables = values(&[("config", "/tmp/config")]);
    let error = PackagePlan::load(
        "/fixture",
        "pkg",
        &variables,
        &listing(
            package,
            vec![directory(
                package,
                "config",
                &[
                    (&["file"], FileKind::Directory),
                    (&["file", "app.conf"], FileKind::File),
                    (&["file", "app.conf.tmpl"], FileKind::File),
                ],
            )],
        ),
    )
    .expect_err("target collision");

    assert!(matches!(error, PackageError::TargetCollision { .. }));
}

#[test]
fn refuses_invalid_names_links_and_a_missing_directory() {
    let package = "/fixture/pkg";
    let error = PackagePlan::load("/fixture", "../pkg", &Values::new(), &listing(package, Vec::new()))
        .expect_err("invalid name");
    assert!(matches!(error, PackageError::InvalidName { name } if name == "../pkg"));

    let mut not_directory = listing(package, Vec::new());
    not_directory.root_kind = FileKind::File;
    let error = PackagePlan::load("/fixture", "pkg", &Values::new(), &not_directory)
        .expect_err("not a directory");
    assert!(matches!(error, PackageError::NotDirectory { path } if path == "/fixture/pkg"));

    let variables = values(&[("home", "/home/tester")]);
    let error = PackagePlan::load(
        "/fixture",
        "pkg",
        &variables,
        &listing(package, vec![directory(package, "home", &[(&["link"], FileKind::Symlink)])]),
    )
    .expect_err("link");
    assert!(matches!(error, PackageError::SymbolicLink { .. }));

    let relative = values(&[("home", "relative")]);
    let error = PackagePlan::load(
        "/fixture",
        "pkg",
        &relative,
        &listing(package, vec![directory(package, "home", &[(&["f"], FileKind::File)])]),
    )
    .expect_err("relative path");
    assert!(matches!(error, PackageError::RelativeVariablePath { variable, .. } if variable == "home"));
}

#[test]
fn applies_a_symlink_and_a_template() {
    let package = "/fixture/dotfiles/pkg";
    let variables = values(&[("home", "/fixture/target")]);
    let plan = PackagePlan::load(
        "/fixture/dotfiles",
        "pkg",
        &variables,
        &listing(
            package,
            vec![directory(
                package,
                "home",
                &[(&["dot-config"], FileKind::File), (&["dot-settings.conf.tmpl"], FileKind::File)],
            )],
        ),
    )
    .expect("load package");
    let observations = vec![
        observe(TargetState::Missing),
        observe_template("home={=home=}\n", TargetState::Missing),
    ];
    let plan_result = plan.apply(&variables, ApplyMode::Normal, &observations);

    assert!(plan_result.failure.is_none());
    let report = plan_result.report;
    assert_eq!(report.applied.len(), 2);
    assert_eq!(plan.entries[0].target, "/fixture/target/.config");
    assert_eq!(plan.entries[0].source, format!("{package}/home/dot-config"));
    assert_eq!(
        plan_result.steps[0],
        ApplyStep::Install { replace: Replacement::Nothing, contents: None }
    );
    assert_eq!(plan.entries[1].target, "/fixture/target/.settings.conf");
    assert_eq!(
        plan_result.steps[1],
        ApplyStep::Install {
            replace: Replacement::Nothing,
            contents: Some(format!("home={}\n", "/fixture/target")),
        }
    );
}

#[test]
fn normal_mode_skips_different_targets_and_semi_force_replaces_only_links() {
    let package = "/fixture/dotfiles/pkg";
    let (plan, variables) = single_file_plan(package, "pkg", "dot-config", "/fixture/target");
    let existing = vec![observe(TargetState::File(None))];

    let report = plan.apply(&variables, ApplyMode::Normal, &existing).report;
    assert_eq!(report.skipped.len(), 1);

    let report = plan.apply(&variables, ApplyMode::SemiForce, &existing).report;
    assert_eq!(report.applied.len(), 0);
    assert_eq!(report.skipped.len(), 1);

    let linked = vec![observe(TargetState::Symlink(Some(format!("{package}/home/dot-config"))))];
    let report = plan.apply(&variables, ApplyMode::SemiForce, &linked).report;
    assert_eq!(report.applied.len(), 0);
    assert_eq!(report.skipped[0].reason, "already up to date");
}

#[test]
fn semi_force_replaces_a_foreign_link() {
    let package = "/fixture/dotfiles/pkg";
    let (plan, variables) = single_file_plan(package, "pkg", "dot-config", "/fixture/target");
    let foreign = vec![observe(TargetState::Symlink(Some("/elsewhere".to_owned())))];
    let result = plan.apply(&variables, ApplyMode::SemiForce, &foreign);
    assert_eq!(result.report.applied.len(), 1);
    assert_eq!(result.steps[0], ApplyStep::Install { replace: Replacement::Remove, contents: None });
}

#[test]
fn force_replaces_an_existing_regular_file() {
    let package = "/fixture/dotfiles/pkg";
    let (plan, variables) = single_file_plan(package, "pkg", "dot-config", "/fixture/target");
    let result = plan.apply(&variables, ApplyMode::Force, &vec![observe(TargetState::File(None))]);

    assert_eq!(result.report.applied.len(), 1);
    assert_eq!(result.steps[0], ApplyStep::Install { replace: Replacement::Remove, contents: None });
}

#[test]
fn a_directory_target_is_refused() {
    let package = "/fixture/dotfiles/pkg";
    let (plan, variables) = single_file_plan(package, "pkg", "dot-config", "/fixture/target");
    let result = plan.apply(&variables, ApplyMode::Force, &vec![observe(TargetState::Directory)]);
    assert!(result.steps.is_empty());
    assert!(matches!(result.failure, Some(PackageError::TargetIsDirectory { path }) if path == "/fixture/target/.config"));
}

#[test]
fn normal_mode_does_not_backup_a_target_it_would_skip() {
    let package = "/fixture/dotfiles/pkg";
    let (plan, variables) = single_file_plan(package, "pkg", "dot-config", "/fixture/target");
    let result = plan.apply_with_backup(
        &variables,
        &variables,
        ApplyMode::Normal,
        "/fixture/backup",
        &vec![observe(TargetState::File(None))],
    );
    let report = result.report;

    assert_eq!(report.applied.len(), 0);
    assert_eq!(report.backups.len(), 0);
    assert_eq!(report.skipped[0].reason, "target already exists");
}

#[test]
fn semi_force_backs_up_a_conflicting_link_using_reverse_mapping() {
    let package = "/fixture/dotfiles/git";
    let (plan, variables) = single_file_plan(package, "git", "dot-gitconfig", "/fixture/target");
    let result = plan.apply_with_backup(
        &variables,
        &variables,
        ApplyMode::SemiForce,
        "/fixture/backup",
        &vec![observe(TargetState::Symlink(Some("/fixture/old-gitconfig".to_owned())))],
    );
    let expected_backup = "/fixture/backup/git/home/dot-gitconfig";

    assert_eq!(result.report.applied.len(), 1);
    assert_eq!(result.report.backups.len(), 1);
    assert_eq!(result.report.backups[0].backup, expected_backup);
    assert_eq!(result.report.backups[0].original, "/fixture/target/.gitconfig");

    let backups = BackupListing {
        state: BackupRootState::Directory,
        items: vec![
            BackupItem {
                path: "/fixture/backup/git/home/dot-gitconfig".to_owned(),
                names: vec!["home".to_owned(), "dot-gitconfig".to_owned()],
                unicode: true,
                kind: FileKind::Symlink,
            },
            BackupItem {
                path: "/fixture/backup/git/home".to_owned(),
                names: vec!["home".to_owned()],
                unicode: true,
                kind: FileKind::Directory,
            },
        ],
    };
    let installed = vec![observe(TargetState::Symlink(Some(format!("{package}/home/dot-gitconfig"))))];
    let restored = plan
        .restore(&variables, &variables, "/fixture/backup", &backups, &installed)
        .expect("restore old link");
    assert_eq!(restored.restored.len(), 1);
    assert_eq!(restored.restored[0].backup, expected_backup);
    assert_eq!(restored.restored[0].target, "/fixture/target/.gitconfig");
    assert_eq!(restored.removal.removed.len(), 1);
    assert_eq!(
        restored.directories,
        vec!["/fixture/backup/git/home".to_owned(), "/fixture/backup/git".to_owned()]
    );
}

#[test]
fn restore_refuses_missing_empty_and_foreign_backups() {
    let package = "/fixture/dotfiles/git";
    let (plan, variables) = single_file_plan(package, "git", "dot-gitconfig", "/fixture/target");
    let installed = vec![observe(TargetState::Symlink(Some(format!("{package}/home/dot-gitconfig"))))];
    let missing = BackupListing { state: BackupRootState::NotFound, items: Vec::new() };
    assert!(matches!(
        plan.restore(&variables, &variables, "/fixture/backup", &missing, &installed),
        Err(PackageError::BackupPackageNotFound { path }) if path == "/fixture/backup/git"
    ));
    let empty = BackupListing { state: BackupRootState::Directory, items: Vec::new() };
    assert!(matches!(
        plan.restore(&variables, &variables, "/fixture/backup", &empty, &installed),
        Err(PackageError::BackupPackageEmpty { .. })
    ));
    let foreign = BackupListing {
        state: BackupRootState::Directory,
        items: vec![
            BackupItem {
                path: "/fixture/backup/git/home".to_owned(),
                names: vec!["home".to_owned()],
                unicode: true,
                kind: FileKind::Directory,
            },
            BackupItem {
                path: "/fixture/backup/git/home/other".to_owned(),
                names: vec!["home".to_owned(), "other".to_owned()],
                unicode: true,
                kind: FileKind::File,
            },
        ],
    };
    assert!(matches!(
        plan.restore(&variables, &variables, "/fixture/backup", &foreign, &installed),
        Err(PackageError::BackupTargetNotInPackage { target, .. }) if target == "/fixture/target/other"
    ));
}

#[test]
fn force_uses_a_fixed_backup_path_and_refuses_to_overwrite_it() {
    let package = "/fixture/dotfiles/pkg";
    let (plan, variables) = single_file_plan(package, "pkg", "dot-config", "/fixture/target");
    let backup = "/fixture/backup/pkg/home/dot-config";

    let first = plan.apply_with_backup(
        &variables,
        &variables,
        ApplyMode::Force,
        "/fixture/backup",
        &vec![observe(TargetState::File(None))],
    );
    assert_eq!(first.report.backups[0].backup, backup);
    assert_eq!(
        first.steps[0],
        ApplyStep::Install { replace: Replacement::Backup(backup.to_owned()), contents: None }
    );

    let unchanged = plan.apply_with_backup(
        &variables,
        &variables,
        ApplyMode::Force,
        "/fixture/backup",
        &vec![observe(TargetState::Symlink(Some(format!("{package}/home/dot-config"))))],
    );
    assert_eq!(unchanged.report.backups.len(), 0);
    assert_eq!(unchanged.report.skipped[0].reason, "already up to date");

    let taken = vec![EntryObservation {
        source_text: None,
        target: TargetState::File(None),
        backup_exists: true,
    }];
    let error = plan
        .apply_with_backup(&variables, &variables, ApplyMode::Force, "/fixture/backup", &taken)
        .failure
        .expect("existing backup must not be overwritten");

    assert!(matches!(error, PackageError::BackupAlreadyExists { path } if path == backup));
}

#[test]
fn semi_force_does_not_backup_a_regular_file() {
    let package = "/fixture/dotfiles/pkg";
    let (plan, variables) = single_file_plan(package, "pkg", "dot-config", "/fixture/target");
    let result = plan.apply_with_backup(
        &variables,
        &variables,
        ApplyMode::SemiForce,
        "/fixture/backup",
        &vec![observe(TargetState::File(None))],
    );

    assert_eq!(result.report.applied.len(), 0);
    assert_eq!(result.report.backups.len(), 0);
    assert_eq!(result.report.skipped[0].reason, "target already exists");
}

#[test]
fn template_compares_rendered_content_and_force_replaces_different_file() {
    let package = "/fixture/dotfiles/pkg";
    let (plan, _) = single_file_plan(package, "pkg", "settings.tmpl", "/fixture/target");
    let values = values(&[("home", "/fixture/target"), ("name", "dtm")]);
    let text = "name={=name=}\n";

    let first = plan.apply(&values, ApplyMode::Normal, &vec![observe_template(text, TargetState::Missing)]);
    assert_eq!(first.report.applied.len(), 1);
    assert_eq!(
        first.steps[0],
        ApplyStep::Install { replace: Replacement::Nothing, contents: Some("name=dtm\n".to_owned()) }
    );

    let second = plan.apply(
        &values,
        ApplyMode::Normal,
        &vec![observe_template(text, TargetState::File(Some("name=dtm\n".to_owned())))],
    );
    assert_eq!(second.report.applied.len(), 0);
    assert_eq!(second.report.skipped[0].reason, "already up to date");

    let changed = vec![observe_template(text, TargetState::File(Some("changed\n".to_owned())))];
    let normal = plan.apply(&values, ApplyMode::Normal, &changed);
    assert_eq!(normal.report.skipped[0].reason, "target already exists");

    let forced = plan.apply(&values, ApplyMode::Force, &changed);
    assert_eq!(forced.report.applied.len(), 1);
    assert_eq!(
        forced.steps[0],
        ApplyStep::Install { replace: Replacement::Remove, contents: Some("name=dtm\n".to_owned()) }
    );
}

#[test]
fn template_rejects_unknown_variables_and_preserves_unclosed_or_multiline_markers() {
    let values = values(&[("known", "value")]);
    assert_eq!(
        render_template("source.tmpl", "known={=known=} unclosed={=unknown\n", &values)
            .expect("render template"),
        "known=value unclosed={=unknown\n"
    );
    assert_eq!(
        render_template("source.tmpl", "a={=\nknown=} b={==}", &values).expect("render template"),
        "a={=\nknown=} b={==}"
    );
    assert_eq!(
        render_template("source.tmpl", "x={= known =}", &values).expect("render template"),
        "x=value"
    );
    let error = render_template("unknown.tmpl", "missing={=missing=}", &values)
        .expect_err("unknown variable");
    assert!(
        matches!(error, PackageError::UnknownTemplateVariable { variable, .. } if variable == "missing")
    );
}

#[test]
fn remove_in_safe_mode_refuses_unmanaged_targets() {
    let package = "/fixture/dotfiles/pkg";
    let variables = values(&[("home", "/fixture/target")]);
    let plan = PackagePlan::load(
        "/fixture/dotfiles",
        "pkg",
        &variables,
        &listing(
            package,
            vec![directory(package, "home", &[(&["a"], FileKind::File), (&["b"], FileKind::File)])],
        ),
    )
    .expect("load package");
    let observations = vec![
        observe(TargetState::Symlink(Some(format!("{package}/home/a")))),
        observe(TargetState::File(None)),
    ];

    let error = plan
        .remove(&variables, RemoveMode::Safe, &observations)
        .expect_err("unmanaged target");
    assert!(
        matches!(error, PackageError::UnmanagedTargets { paths } if paths == vec!["/fixture/target/b".to_owned()])
    );

    let report = plan
        .remove(&variables, RemoveMode::SkipUnmanaged, &observations)
        .expect("skip unmanaged");
    assert_eq!(report.removed.len(), 1);
    assert_eq!(report.removed[0].target, "/fixture/target/a");
    assert_eq!(report.skipped.len(), 1);
    assert_eq!(report.skipped[0].target, "/fixture/target/b");
}

#[test]
fn backup_paths_use_the_nearest_configured_path() {
    let package = "/fixture/dotfiles/pkg";
    let variables = values(&[("home", "/fixture/target"), ("config_home", "/fixture/target/.config")]);
    let plan = PackagePlan::load(
        "/fixture/dotfiles",
        "pkg",
        &variables,
        &listing(
            package,
            vec![directory(
                package,
                "home",
                &[(&["dot-config"], FileKind::Directory), (&["dot-config", "app"], FileKind::Directory), (&["dot-config", "app", "dot-state"], FileKind::File)],
            )],
        ),
    )
    .expect("load package");
    let backup = plan
        .backup_path(&plan.entries[0], &variables, "/fixture/backup")
        .expect("backup path");
    assert_eq!(backup, "/fixture/backup/pkg/config_home/app/dot-state");
}

#[test]
fn backup_paths_restore_to_the_original_path_except_dot_names() {
    let backup = reverse_backup_path(".config/fish/.local").expect("backup path");
    assert_eq!(backup, "dot-config/fish/dot-local");
    assert_eq!(restore_backup_path(&backup).expect("restored path"), ".config/fish/.local");

    let backup = reverse_backup_path("notes//a.txt").expect("backup path");
    assert_eq!(backup, "notes/a.txt");
    assert_eq!(restore_backup_path(&backup).expect("restored path"), "notes/a.txt");

    let backup = reverse_backup_path("dot-x").expect("backup path");
    assert_eq!(backup, "dot-x");
    assert_eq!(restore_backup_path(&backup).expect("restored path"), ".x");

    assert!(matches!(reverse_backup_path("../x"), Err(PackageError::InvalidBackupTarget { .. })));
    assert!(matches!(reverse_backup_path(""), Err(PackageError::InvalidBackupTarget { .. })));
}

fn backup_item(path: &str, names: &[&str], kind: FileKind) -> BackupItem {
    BackupItem {
        path: path.to_owned(),
        names: names.iter().map(|n| (*n).to_owned()).collect(),
        unicode: true,
        kind,
    }
}

#[test]
fn restore_uses_the_nearest_variable_and_reverses_hidden_path_components() {
    let package = "/fixture/dotfiles/pkg";
    let variables = values(&[
        ("home", "/fixture/target"),
        ("config_home", "/fixture/target/.config"),
        ("name", "dtm"),
    ]);
    let plan = PackagePlan::load(
        "/fixture/dotfiles",
        "pkg",
        &variables,
        &listing(
            package,
            vec![
                directory(
                    package,
                    "home",
                    &[
                        (&["dot-config"], FileKind::Directory),
                        (&["dot-config", "app"], FileKind::Directory),
                        (&["dot-config", "app", "dot-state"], FileKind::File),
                    ],
                ),
                directory(
                    package,
                    "config_home",
                    &[(&["app"], FileKind::Directory), (&["app", "settings.tmpl"], FileKind::File)],
                ),
            ],
        ),
    )
    .expect("load package");
    let applied = plan.apply_with_backup(
        &variables,
        &variables,
        ApplyMode::Force,
        "/fixture/backup",
        &vec![
            observe(TargetState::File(Some("old state\n".to_owned()))),
            observe_template("name={=name=}\n", TargetState::File(Some("old settings\n".to_owned()))),
        ],
    );

    let state_backup = "/fixture/backup/pkg/config_home/app/dot-state";
    let settings_backup = "/fixture/backup/pkg/config_home/app/settings";
    assert!(applied.failure.is_none());
    assert_eq!(applied.report.backups.len(), 2);
    assert_eq!(applied.report.backups[0].backup, state_backup);
    assert_eq!(applied.report.backups[1].backup, settings_backup);
    assert!(applied.report.backups.iter().all(|b| !b.backup.starts_with("/fixture/backup/pkg/home")));
    assert_eq!(
        applied.steps[0],
        ApplyStep::Install { replace: Replacement::Backup(state_backup.to_owned()), contents: None }
    );
    assert_eq!(
        applied.steps[1],
        ApplyStep::Install {
            replace: Replacement::Backup(settings_backup.to_owned()),
            contents: Some("name=dtm\n".to_owned()),
        }
    );

    let backups = BackupListing {
        state: BackupRootState::Directory,
        items: vec![
            backup_item("/fixture/backup/pkg/config_home", &["config_home"], FileKind::Directory),
            backup_item("/fixture/backup/pkg/config_home/app", &["config_home", "app"], FileKind::Directory),
            backup_item(state_backup, &["config_home", "app", "dot-state"], FileKind::File),
            backup_item(settings_backup, &["config_home", "app", "settings"], FileKind::File),
        ],
    };
    let installed = vec![
        observe(TargetState::Symlink(Some(format!("{package}/home/dot-config/app/dot-state")))),
        observe_template("name={=name=}\n", TargetState::File(Some("name=dtm\n".to_owned()))),
    ];
    let restored = plan
        .restore(&variables, &variables, "/fixture/backup", &backups, &installed)
        .expect("restore package");
    assert_eq!(restored.restored.len(), 2);
    assert_eq!(restored.restored[0].backup, state_backup);
    assert_eq!(restored.restored[0].target, "/fixture/target/.config/app/.state");
    assert_eq!(restored.restored[1].backup, settings_backup);
    assert_eq!(restored.restored[1].target, "/fixture/target/.config/app/settings");
    assert_eq!(restored.removal.removed.len(), 2);
    assert_eq!(
        restored.directories,
        vec![
            "/fixture/backup/pkg/config_home/app".to_owned(),
            "/fixture/backup/pkg/config_home".to_owned(),
            "/fixture/backup/pkg".to_owned(),
        ]
    );
}

#[test]
fn restore_preflights_every_target_before_moving_any_backup() {
    let package = "/fixture/dotfiles/pkg";
    let variables = values(&[("home", "/fixture/target")]);
    let plan = PackagePlan::load(
        "/fixture/dotfiles",
        "pkg",
        &variables,
        &listing(
            package,
            vec![directory(package, "home", &[(&["one"], FileKind::File), (&["two"], FileKind::File)])],
        ),
    )
    .expect("load package");
    let applied = plan.apply_with_backup(
        &variables,
        &variables,
        ApplyMode::Force,
        "/fixture/backup",
        &vec![
            observe(TargetState::File(Some("old one\n".to_owned()))),
            observe(TargetState::File(Some("old two\n".to_owned()))),
        ],
    );
    assert!(applied.failure.is_none());
    assert_eq!(applied.report.backups.len(), 2);
    assert_eq!(applied.report.backups[0].original, "/fixture/target/one");
    assert_eq!(applied.report.backups[0].backup, "/fixture/backup/pkg/home/one");
    assert_eq!(applied.report.backups[1].original, "/fixture/target/two");
    assert_eq!(applied.report.backups[1].backup, "/fixture/backup/pkg/home/two");

    let backups = BackupListing {
        state: BackupRootState::Directory,
        items: vec![
            backup_item("/fixture/backup/pkg/home", &["home"], FileKind::Directory),
            backup_item("/fixture/backup/pkg/home/one", &["home", "one"], FileKind::File),
            backup_item("/fixture/backup/pkg/home/two", &["home", "two"], FileKind::File),
        ],
    };
    let changed = vec![
        observe(TargetState::Symlink(Some(format!("{package}/home/one")))),
        observe(TargetState::File(Some("user changed\n".to_owned()))),
    ];
    let error = plan
        .restore(&variables, &variables, "/fixture/backup", &backups, &changed)
        .expect_err("changed target must block restore");
    assert!(matches!(
        error,
        PackageError::RestoreTargetNotManaged { path } if path == "/fixture/target/two"
    ));
    // The refusal comes before any action: with both targets still managed
    // the same backups would have been moved back.
    let managed = vec![
        observe(TargetState::Symlink(Some(format!("{package}/home/one")))),
        observe(TargetState::Symlink(Some(format!("{package}/home/two")))),
    ];
    let restored = plan
        .restore(&variables, &variables, "/fixture/backup", &backups, &managed)
        .expect("restore managed targets");
    assert_eq!(restored.restored.len(), 2);
    assert_eq!(restored.restored[0].backup, "/fixture/backup/pkg/home/one");
    assert_eq!(restored.restored[1].backup, "/fixture/backup/pkg/home/two");
    assert_eq!(restored.restored[0].target, "/fixture/target/one");
    assert_eq!(restored.restored[1].target, "/fixture/target/two");
}

#[test]
fn emptied_directories_are_removed_deepest_first_once_each() {
    let dirs = vec![
        "/b/pkg".to_owned(),
        "/b/pkg/home".to_owned(),
        "/b/pkg/home/a".to_owned(),
        "/b/pkg/config".to_owned(),
        "/b/pkg/home/a/".to_owned(),
    ];
    assert_eq!(
        deepest_first(&dirs),
        vec![
            "/b/pkg/home/a".to_owned(),
            "/b/pkg/home".to_owned(),
            "/b/pkg/config".to_owned(),
            "/b/pkg".to_owned(),
        ]
    );
}
