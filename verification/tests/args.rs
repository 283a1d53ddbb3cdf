use retread_solve::solve::args::{parse, SolveArgs};
use retread_solve::solve::error::{SolveError, EXIT_USAGE};

fn argv(parts: &[&str]) -> Vec<String> {
    parts.iter().map(|s| s.to_string()).collect()
}

fn refused(parts: &[&str]) -> SolveError {
    parse(&argv(parts)).unwrap_err()
}

#[test]
fn parses_repeated_envs_and_smoke_modules() {
    let args = parse(&argv(&[
        "--edit-manifest",
        "--manifest",
        "x.toml",
        "-e",
        "gpu",
        "--environment",
        "cpu",
        "--feature",
        "isaac",
        "--smoke",
        "torch,isaaclab",
        "--smoke",
        "torch",
    ]))
    .unwrap();
    assert_eq!(args.manifest, "x.toml");
    assert_eq!(args.environments, vec!["gpu", "cpu"]);
    assert_eq!(args.feature.as_deref(), Some("isaac"));
    assert_eq!(args.smoke_modules, vec!["torch", "isaaclab"]);
}

#[test]
fn parses_prefer_pypi_flag() {
    let args = parse(&argv(&["--edit-manifest", "--prefer-pypi"])).unwrap();
    assert!(args.prefer_pypi);
    let default_args = parse(&argv(&[])).unwrap();
    assert!(!default_args.prefer_pypi);
}

#[test]
fn parses_audit_and_all_environments_alias() {
    assert!(parse(&argv(&["--audit"])).unwrap().audit);
    assert!(parse(&argv(&["--all-environments"])).unwrap().audit);
}

#[test]
fn default_is_read_only_and_apply_ledger_is_explicit() {
    let default_args = parse(&argv(&[])).unwrap();
    assert!(!default_args.apply_ledger);
    assert!(!default_args.edit_manifest);

    let apply = parse(&argv(&["--apply-ledger"])).unwrap();
    assert!(apply.apply_ledger);
    assert!(!apply.edit_manifest);
}

#[test]
fn legacy_manifest_repair_requires_separate_discouraged_opt_in() {
    let err = parse(&argv(&["-e", "gpu"])).unwrap_err();
    assert!(err.message().contains("requires"));
    assert!(err.message().contains("--edit-manifest"));

    let legacy = parse(&argv(&["--edit-manifest", "-e", "gpu"])).unwrap();
    assert!(legacy.edit_manifest);
    assert_eq!(legacy.environments, ["gpu"]);

    let err = parse(&argv(&["--apply-ledger", "--edit-manifest"])).unwrap_err();
    assert!(err.message().contains("never authorizes"));
    let err = parse(&argv(&["--audit", "--apply-ledger"])).unwrap_err();
    assert!(err.message().contains("explicitly read-only"));
}

#[test]
fn clean_pins_cannot_edit_without_manifest_opt_in() {
    let err = parse(&argv(&["--clean-pins"])).unwrap_err();
    assert!(err.message().contains("--edit-manifest"));
    assert!(
        parse(&argv(&["--clean-pins", "--edit-manifest"]))
            .unwrap()
            .clean_pins
    );
}

#[test]
fn audit_rejects_repair_flags() {
    let err = parse(&argv(&["--audit", "-e", "gpu"])).unwrap_err();
    assert!(err.message().contains("mutually exclusive with -e"));
    let err = parse(&argv(&["--audit", "--clean-pins"])).unwrap_err();
    assert!(
        err.message()
            .contains("--audit is mutually exclusive with --clean-pins")
    );
}

#[test]
fn clean_pins_rejects_other_flags() {
    let err = parse(&argv(&["--clean-pins", "--dry-run"])).unwrap_err();
    assert!(
        err.message()
            .contains("--clean-pins is mutually exclusive")
    );
}

#[test]
fn nothing_asked_for_is_the_default() {
    let args = parse(&argv(&[])).unwrap();
    let default = SolveArgs::default();
    assert_eq!(args.manifest, default.manifest);
    assert_eq!(args.manifest, "pixi.toml");
    assert_eq!(args.max_iters, default.max_iters);
    assert!(args.environments.is_empty());
    assert!(args.feature.is_none());
    assert!(!args.keep_going && !args.dry_run && !args.clean_pins && !args.no_smoke_test);
}

#[test]
fn flags_without_their_value_and_unknown_flags_are_refused() {
    for parts in [
        vec!["--manifest"],
        vec!["-e"],
        vec!["--feature"],
        vec!["--max-iters"],
        vec!["--max-iters", "many"],
        vec!["--smoke"],
        vec!["--bogus"],
    ] {
        let err = refused(&parts);
        assert!(matches!(err, SolveError::Usage(_)), "{parts:?}");
        assert_eq!(err.exit_code(), EXIT_USAGE);
    }
}

#[test]
fn number_of_rounds_is_read() {
    let args = parse(&argv(&["--edit-manifest", "--max-iters", "7"])).unwrap();
    assert_eq!(args.max_iters, 7);
}

#[test]
fn order_of_the_flags_does_not_matter() {
    let groups: [&[&str]; 7] = [
        &["--edit-manifest"],
        &["-e", "gpu"],
        &["--manifest", "x.toml"],
        &["--smoke", "torch,isaaclab"],
        &["--max-iters", "7"],
        &["--keep-going"],
        &["--feature", "isaac"],
    ];
    for first in 0..groups.len() {
        let mut line: Vec<&str> = Vec::new();
        for k in 0..groups.len() {
            line.extend(groups[(first + k * 3) % groups.len()]);
        }
        let args = parse(&argv(&line)).unwrap();
        assert!(args.edit_manifest && args.keep_going, "{line:?}");
        assert!(!args.audit && !args.apply_ledger && !args.clean_pins, "{line:?}");
        assert!(!args.dry_run && !args.no_smoke_test && !args.prefer_pypi, "{line:?}");
        assert_eq!(args.environments, vec!["gpu"]);
        assert_eq!(args.manifest, "x.toml");
        assert_eq!(args.smoke_modules, vec!["torch", "isaaclab"]);
        assert_eq!(args.max_iters, 7);
        assert_eq!(args.feature.as_deref(), Some("isaac"));
    }
    for line in [
        ["--audit", "--dry-run", "--edit-manifest"],
        ["--dry-run", "--edit-manifest", "--audit"],
        ["--edit-manifest", "--audit", "--dry-run"],
    ] {
        assert!(matches!(refused(&line), SolveError::Usage(_)), "{line:?}");
    }
}

#[test]
fn repeated_values_go_by_their_order() {
    let args = parse(&argv(&["--manifest", "a.toml", "--manifest", "b.toml"])).unwrap();
    assert_eq!(args.manifest, "b.toml");
    let args = parse(&argv(&["--manifest", "b.toml", "--manifest", "a.toml"])).unwrap();
    assert_eq!(args.manifest, "a.toml");
}
