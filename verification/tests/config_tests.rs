use dtm::config::{
    config_file_path, config_path, configured_runtime_config, resolve_backup_dir, resolve_pkgs_dir,
    resolve_values,
    Config, ConfigError, ConfiguredRuntimeConfig, EnvLookup, EvaluationContext, RawConfig,
    RawRuntimeConfig, SystemSnapshot,
};
use dtm::config_update::{update_runtime_path_yaml, update_runtime_path_yaml_with};
use dtm::resolve::EvaluationError;
use dtm::values::Values;

fn values(pairs: &[(&str, &str)]) -> Values {
    let mut v = Values::new();
    for (k, x) in pairs {
        v.insert(k.to_string(), x.to_string());
    }
    v
}

fn context() -> EvaluationContext {
    EvaluationContext {
        home: "/home/tester".to_owned(),
        root: "/".to_owned(),
        current_dir: "/work/dotfiles".to_owned(),
        environment: Values::new(),
    }
}

fn get(v: &Values, key: &str) -> String {
    v.get(key).expect("value present").clone()
}

fn system() -> SystemSnapshot {
    SystemSnapshot {
        home: Some("/home/tester".to_owned()),
        xdg_config_home: None,
        current_dir: Ok("/work/dotfiles".to_owned()),
        environment: Vec::new(),
    }
}

fn raw(pkgs_dir: Option<&str>, backup_dir: Option<&str>, path: &[(&str, &str)], variables: &[(&str, &str)]) -> RawConfig {
    RawConfig {
        config: RawRuntimeConfig {
            pkgs_dir: pkgs_dir.map(str::to_owned),
            backup_dir: backup_dir.map(str::to_owned),
        },
        path: values(path),
        variables: values(variables),
    }
}

#[test]
fn resolves_path_and_variable_references_across_blocks() {
    let raw = raw(
        Some("/repos/dotfiles"),
        None,
        &[
            ("config_home", "${home}/.config"),
            ("local_bin", "${home}/.local/bin"),
            ("dtm_config", "${config_home}/dtm"),
            ("themed_config", "${config_home}/${theme}"),
            ("system_config", "${root}/etc/dtm"),
        ],
        &[("theme", "dark"), ("config_label", "${config_home}/label")],
    );
    let (paths, variables) =
        resolve_values(&raw.path, &raw.variables, &context()).expect("resolve values");

    assert_eq!(raw.config.pkgs_dir, Some("/repos/dotfiles".to_owned()));
    assert_eq!(get(&paths, "home"), "/home/tester");
    assert_eq!(get(&paths, "root"), "/");
    assert_eq!(get(&paths, "config_home"), "/home/tester/.config");
    assert_eq!(get(&paths, "local_bin"), "/home/tester/.local/bin");
    assert_eq!(get(&paths, "dtm_config"), "/home/tester/.config/dtm");
    assert_eq!(get(&paths, "themed_config"), "/home/tester/.config/dark");
    assert_eq!(get(&paths, "system_config"), "/etc/dtm");
    assert_eq!(get(&variables, "theme"), "dark");
    assert_eq!(get(&variables, "config_label"), "/home/tester/.config/label");
}

#[test]
fn configured_paths_override_predefined_paths() {
    let paths = values(&[
        ("home", "/custom/home"),
        ("root", "/custom/root"),
        ("config_home", "${home}/.config"),
        ("system_config", "${root}/etc/dtm"),
    ]);

    let (resolved, variables) =
        resolve_values(&paths, &Values::new(), &context()).expect("resolve paths");

    assert!(variables.is_empty());
    assert_eq!(get(&resolved, "home"), "/custom/home");
    assert_eq!(get(&resolved, "root"), "/custom/root");
    assert_eq!(get(&resolved, "config_home"), "/custom/home/.config");
    assert_eq!(get(&resolved, "system_config"), "/custom/root/etc/dtm");
}

#[test]
fn resolves_pkgs_directory_priority() {
    let context = context();

    assert_eq!(
        resolve_pkgs_dir(Some("/configured"), &context, None).expect("configured path"),
        "/configured"
    );
    assert_eq!(
        resolve_pkgs_dir(Some("/configured"), &context, Some("relative-cli"))
            .expect("command-line path"),
        "/work/dotfiles/relative-cli"
    );
    assert_eq!(
        resolve_pkgs_dir(None, &context, None).expect("current path"),
        "/work/dotfiles"
    );
}

#[test]
fn rejects_relative_configured_pkgs_directory() {
    let error = resolve_pkgs_dir(Some("relative"), &context(), None)
        .expect_err("relative configured path");

    assert!(matches!(error, ConfigError::RelativePkgsDirectory { .. }));
}

#[test]
fn rejects_unknown_references() {
    let paths = values(&[("config_home", "${missing}/dtm")]);
    let error =
        resolve_values(&paths, &Values::new(), &context()).expect_err("unknown reference");

    assert!(matches!(
        error,
        EvaluationError::UnknownReference { reference, .. } if reference == "missing"
    ));
}

#[test]
fn rejects_cyclic_references_across_blocks() {
    let paths = values(&[("a", "${b}")]);
    let variables = values(&[("b", "${a}")]);
    let error = resolve_values(&paths, &variables, &context()).expect_err("cycle");

    assert!(matches!(error, EvaluationError::Cycle { .. }));
}

#[test]
fn rejects_duplicate_names_and_relative_paths() {
    let paths = values(&[("theme", "/theme")]);
    let variables = values(&[("theme", "dark")]);
    assert!(matches!(
        resolve_values(&paths, &variables, &context()),
        Err(EvaluationError::DuplicateName { name }) if name == "theme"
    ));

    let paths = values(&[("cache", "relative/cache")]);
    assert!(matches!(
        resolve_values(&paths, &Values::new(), &context()),
        Err(EvaluationError::RelativePath { name, .. }) if name == "cache"
    ));
}

#[test]
fn loaded_config_separates_paths_and_template_variables() {
    let raw = raw(
        Some("/configured/dotfiles"),
        None,
        &[("config_home", "${home}/.config")],
        &[("theme", "dark")],
    );

    let config = Config::load(Some("/tmp/dtm.yaml"), &raw, system(), None).expect("load config");

    assert_eq!(config.config.pkgs_dir, "/configured/dotfiles");
    assert_eq!(get(&config.paths, "home"), "/home/tester");
    assert_eq!(get(&config.paths, "root"), "/");
    assert_eq!(get(&config.paths, "config_home"), format!("{}/.config", "/home/tester"));
    assert_eq!(get(&config.variables, "theme"), "dark");
    let template_values = config.template_values();
    assert_eq!(get(&template_values, "config_home"), get(&config.paths, "config_home"));
    assert_eq!(get(&template_values, "theme"), "dark");
}

#[test]
fn defaults_pkgs_directory_to_current_directory() {
    let raw = raw(None, None, &[], &[]);

    let config = Config::load(Some("/tmp/dtm.yaml"), &raw, system(), None).expect("load config");

    assert_eq!(config.config.pkgs_dir, "/work/dotfiles");
}

#[test]
fn command_line_pkgs_directory_overrides_config() {
    let raw = raw(Some("/configured/dotfiles"), None, &[], &[]);

    let config = Config::load(Some("/tmp/dtm.yaml"), &raw, system(), Some("/cli/dotfiles"))
        .expect("load config");

    assert_eq!(config.config.pkgs_dir, "/cli/dotfiles");
}

#[test]
fn configured_runtime_config_returns_only_explicit_values() {
    let raw = raw(None, None, &[("config_home", "/tmp/config")], &[("theme", "dark")]);

    let configured =
        configured_runtime_config(Some("/tmp/dtm.yaml"), &raw, system()).expect("read configured runtime");
    assert_eq!(configured, ConfiguredRuntimeConfig::default());

    let loaded = Config::load(Some("/tmp/dtm.yaml"), &raw, system(), None).expect("load defaults");
    assert_eq!(loaded.config.pkgs_dir, "/work/dotfiles");
    assert_eq!(loaded.config.backup_dir, None);
    assert_eq!(get(&loaded.paths, "config_home"), "/tmp/config");
    assert_eq!(get(&loaded.variables, "theme"), "dark");
}

#[test]
fn both_loaders_treat_a_missing_file_as_no_explicit_configuration() {
    let raw = raw(None, None, &[], &[]);

    assert_eq!(
        configured_runtime_config(Some("/tmp/missing.yaml"), &raw, system()).expect("read missing config"),
        ConfiguredRuntimeConfig::default()
    );
    let loaded = Config::load(Some("/tmp/missing.yaml"), &raw, system(), None)
        .expect("load defaults from missing config");
    assert_eq!(loaded.config.pkgs_dir, "/work/dotfiles");
    assert_eq!(loaded.config.backup_dir, None);
}

#[test]
fn configured_runtime_config_preserves_explicit_values_without_loading_defaults() {
    let raw = raw(Some("relative/packages"), Some("relative/backups"), &[], &[]);

    let configured =
        configured_runtime_config(Some("/tmp/dtm.yaml"), &raw, system()).expect("read configured runtime");
    assert_eq!(configured.pkgs_dir, Some("relative/packages".to_owned()));
    assert_eq!(configured.backup_dir, Some("relative/backups".to_owned()));

    let error = Config::load(Some("/tmp/dtm.yaml"), &raw, system(), None).expect_err("relative runtime paths");
    assert!(matches!(error, ConfigError::RelativePkgsDirectory { .. }));
}

#[test]
fn configured_backup_directory_must_be_absolute() {
    assert_eq!(
        resolve_backup_dir(Some("/backup")).expect("absolute backup path"),
        Some("/backup".to_owned())
    );
    assert_eq!(resolve_backup_dir(None).expect("missing backup path"), None);
    assert!(matches!(
        resolve_backup_dir(Some("relative-backup")),
        Err(ConfigError::RelativeBackupDirectory { .. })
    ));
}

#[test]
fn loading_refuses_a_relative_backup_directory() {
    let raw = raw(Some("/packages"), Some("relative/backups"), &[], &[]);
    assert!(matches!(
        Config::load(Some("/tmp/dtm.yaml"), &raw, system(), None),
        Err(ConfigError::RelativeBackupDirectory { path }) if path == "relative/backups"
    ));
}

#[test]
fn environment_references_read_the_snapshot() {
    let raw = raw(Some("${$DOTFILES}/pkgs"), None, &[], &[("user", "${$USER}")]);
    let mut snapshot = system();
    snapshot.environment = vec![
        ("DOTFILES".to_owned(), EnvLookup::Value("/srv/dot".to_owned())),
        ("USER".to_owned(), EnvLookup::Value("tester".to_owned())),
    ];
    let config = Config::load(Some("/tmp/dtm.yaml"), &raw, snapshot, None).expect("load config");
    assert_eq!(config.config.pkgs_dir, "/srv/dot/pkgs");
    assert_eq!(get(&config.variables, "user"), "tester");

    let mut missing = system();
    missing.environment = vec![("USER".to_owned(), EnvLookup::NotPresent)];
    let error = Config::load(Some("/tmp/dtm.yaml"), &raw, missing, None).expect_err("unset variable");
    assert!(matches!(
        error,
        ConfigError::Evaluate { source: EvaluationError::MissingEnvironmentVariable { .. }, .. }
    ));
}

#[test]
fn missing_home_is_reported() {
    let raw = raw(None, None, &[], &[]);
    let mut snapshot = system();
    snapshot.home = None;
    let error = Config::load(Some("/tmp/dtm.yaml"), &raw, snapshot, None).expect_err("no home");
    assert!(matches!(error, ConfigError::HomeNotFound));
}

#[test]
fn default_path_uses_xdg_shape() {
    assert_eq!(
        config_path("/tmp/example-config"),
        "/tmp/example-config/dtm/config.yaml"
    );
}

#[test]
fn default_path_prefers_xdg_then_home() {
    let mut snapshot = system();
    snapshot.xdg_config_home = Some("/xdg".to_owned());
    assert_eq!(config_file_path(None, &snapshot).unwrap(), "/xdg/dtm/config.yaml");
    snapshot.xdg_config_home = Some(String::new());
    assert_eq!(
        config_file_path(None, &snapshot).unwrap(),
        "/home/tester/.config/dtm/config.yaml"
    );
    assert_eq!(config_file_path(Some("/given.yaml"), &snapshot).unwrap(), "/given.yaml");
}

#[test]
fn set_pkgs_directory_preserves_yaml_layout_and_comments() {
    let original = "# Keep this header.\npath:\n  config_home: /tmp/config\n\n# Keep path above config.\nconfig:\n  # Existing package directory.\n  old: value\n\n# Keep this trailing comment.\n";
    let pkgs_dir = "/tmp/fixture/packages";

    let updated = update_runtime_path_yaml(original, "pkgs_dir", pkgs_dir).expect("serialize");

    assert!(updated.starts_with("# Keep this header.\npath:\n"));
    assert!(updated.find("path:").unwrap() < updated.find("config:").unwrap());
    assert!(updated.contains("# Keep path above config.\n"));
    assert!(updated.contains("  # Existing package directory.\n"));
    assert!(updated.contains(&format!(
        "  pkgs_dir: {}\n\n# Keep this trailing comment.\n",
        pkgs_dir
    )));
    assert!(updated.ends_with("# Keep this trailing comment.\n"));
}

#[test]
fn set_backup_directory_preserves_existing_config_layout() {
    let original =
        "path:\n  config_home: /tmp/config\n\nconfig:\n  pkgs_dir: /repos/dotfiles # keep\n";
    let updated =
        update_runtime_path_yaml(original, "backup_dir", "/tmp/fixture/backup").expect("serialize");

    assert!(updated.starts_with("path:\n  config_home: /tmp/config\n\nconfig:\n"));
    assert!(updated.contains("  pkgs_dir: /repos/dotfiles # keep\n"));
    assert!(updated.contains("  backup_dir: /tmp/fixture/backup\n"));
}

#[test]
fn updating_an_existing_key_keeps_its_comment_and_line_end() {
    let original = "config:\n  pkgs_dir: /old # note\r\nother: 1\n";
    assert_eq!(
        update_runtime_path_yaml_with(original, "pkgs_dir", "/new"),
        "config:\n  pkgs_dir: /new # note\r\nother: 1\n"
    );
    assert_eq!(update_runtime_path_yaml_with("", "pkgs_dir", "/p"), "config:\n  pkgs_dir: /p\n");
    assert_eq!(
        update_runtime_path_yaml_with("path: {}", "backup_dir", "/b"),
        "path: {}\nconfig:\n  backup_dir: /b\n"
    );
}

#[test]
fn evaluation_and_config_failures_read_as_their_messages() {
    let cycle = EvaluationError::Cycle {
        variables: vec!["a".to_owned(), "b".to_owned(), "a".to_owned()],
    };
    assert_eq!(cycle.message(), "cyclic variable reference: a -> b -> a");
    assert_eq!(
        EvaluationError::InvalidReference { variable: "v".to_owned(), reference: "x y".to_owned() }
            .message(),
        "variable 'v' contains invalid reference '${x y}'"
    );
    assert_eq!(
        EvaluationError::InvalidEnvironmentReference {
            variable: "v".to_owned(),
            environment: "1X".to_owned(),
        }
        .message(),
        "variable 'v' contains invalid environment reference '${$$1X}'"
    );
    assert_eq!(
        ConfigError::Evaluate { path: "/c/config.yaml".to_owned(), source: cycle }.message(),
        "could not evaluate config /c/config.yaml: cyclic variable reference: a -> b -> a"
    );
    assert_eq!(
        ConfigError::RelativePkgsDirectory { path: "rel".to_owned() }.message(),
        "config.pkgs_dir must be an absolute path: rel"
    );
    assert_eq!(ConfigError::HomeNotFound.message(), "could not determine the home directory");
    let io = std::io::Error::new(std::io::ErrorKind::Other, "gone");
    assert_eq!(
        ConfigError::CurrentDirectory(io).message(),
        "could not determine the current directory: gone"
    );
}

#[test]
fn config_file_failures_name_the_file_before_the_system_text() {
    let io = std::io::Error::new(std::io::ErrorKind::Other, "no access");
    assert_eq!(
        ConfigError::Read { path: "/c/config.yaml".to_owned(), source: io }.message(),
        "could not read config /c/config.yaml: no access"
    );
}
