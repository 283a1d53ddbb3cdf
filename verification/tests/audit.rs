use retread_solve::solve::audit::{
    AuditApplication, AuditEvent, AuditReport, AuditScopeFailure, RetreadConflictRequirement,
    RetreadConflictSuggestion, RetreadMutuallyUnsatisfiable,
};
use retread_solve::solve::error::{
    EXIT_EXHAUSTED, EXIT_INTERRUPTED, EXIT_OK, EXIT_UNPARSEABLE,
};
use retread_solve::solve::proposals::{
    matching_paths, pack_manifest_at, plan_audit_ledger, resolve_audit_pack_manifest,
    AuditLedgerChoice, PackLookup,
};
use retread_solve::solve::shadow::{
    audit_mutable_path_entries, filtered_audit_manifest, shadow_entry, shadow_name, ShadowEntry,
};

fn track4_conflict(suggestion: RetreadConflictSuggestion) -> RetreadMutuallyUnsatisfiable {
    RetreadMutuallyUnsatisfiable {
        scope: "in environment 'default'".into(),
        bundle: "robotics-output".into(),
        platform: "linux-64".into(),
        python: "3.11".into(),
        package: "numpy".into(),
        requirements: vec![
            RetreadConflictRequirement {
                spec: "==1.26.4".into(),
                source: "wheel `old-extension==1.0.0`".into(),
            },
            RetreadConflictRequirement {
                spec: ">=2,<3".into(),
                source: "wheel `new-extension==2.0.0`".into(),
            },
        ],
        suggestion,
        suggestion_from_backend: true,
        relaxation: "retread-drop-deps = [\"numpy\"]\n".into(),
        provenance: "old-extension==1.0.0; new-extension==2.0.0".into(),
    }
}

fn drop_numpy() -> RetreadMutuallyUnsatisfiable {
    track4_conflict(RetreadConflictSuggestion::DropDependency {
        pack_manifest: "pypi-packs/robotics-pack/pixi.toml".into(),
        alternatives: Vec::new(),
    })
}

fn owned(dir: &str) -> PackLookup {
    PackLookup::Owned {
        pack_pixi: format!("{dir}/pixi.toml"),
        identity: dir.to_string(),
    }
}

fn table(pairs: &[(&str, &str)]) -> Vec<(String, String)> {
    pairs
        .iter()
        .map(|(k, v)| (k.to_string(), v.to_string()))
        .collect()
}

#[test]
fn structured_scope_deduplicates_shared_solve_group_conflicts() {
    let mut conflict = track4_conflict(RetreadConflictSuggestion::DropDependency {
        pack_manifest: "pypi-packs/robotics-pack/pixi.toml".into(),
        alternatives: Vec::new(),
    });
    conflict.scope = "in environments 'cpu', 'gpu'".into();
    let mut report = AuditReport {
        checked: 2,
        ..AuditReport::default()
    };
    report.record_conflicts(vec![conflict.clone()]);
    report.record_conflicts(vec![conflict]);

    assert_eq!(report.conflict_count(), 1);
    assert_eq!(report.conflicting_scope_count(), 1);
    let rendered = report.render(AuditApplication::NotRequested);
    assert_eq!(
        rendered
            .matches("scope in environments 'cpu', 'gpu':")
            .count(),
        1
    );
}

#[test]
fn clashes_stand_in_order_whatever_order_they_come_in() {
    let mut a = drop_numpy();
    a.package = "a".into();
    let mut b = drop_numpy();
    b.package = "b".into();
    let mut one = AuditReport::default();
    one.record_conflicts(vec![a.clone(), b.clone()]);
    let mut two = AuditReport::default();
    two.record_conflicts(vec![b, a]);
    let names = |r: &AuditReport| {
        r.scopes[0]
            .1
            .conflicts
            .iter()
            .map(|c| c.package.clone())
            .collect::<Vec<_>>()
    };
    assert_eq!(names(&one), vec!["a", "b"]);
    assert_eq!(names(&two), vec!["a", "b"]);
}

#[test]
fn report_holds_exactly_what_was_recorded() {
    let of = |scope: &str, package: &str| {
        let mut conflict = drop_numpy();
        conflict.scope = scope.into();
        conflict.package = package.into();
        conflict
    };
    let found = || {
        vec![
            of("in environment 'gpu'", "torch"),
            of("in environment 'cpu'", "numpy"),
            of("in environment 'gpu'", "numpy"),
            of("in environment 'gpu'", "torch"),
        ]
    };
    let mut report = AuditReport {
        checked: 2,
        ..AuditReport::default()
    };
    report.record_conflicts(found());
    let told = |report: &AuditReport| -> Vec<(String, Vec<String>)> {
        report
            .scopes
            .iter()
            .map(|(name, failure)| {
                assert!(failure.fallback.is_none());
                let packages = failure.conflicts.iter().map(|c| c.package.clone());
                (name.clone(), packages.collect())
            })
            .collect()
    };
    let expected = vec![
        ("in environment 'cpu'".to_string(), vec!["numpy".to_string()]),
        (
            "in environment 'gpu'".to_string(),
            vec!["numpy".to_string(), "torch".to_string()],
        ),
    ];
    assert_eq!(told(&report), expected);
    assert_eq!(report.conflict_count(), 3);
    assert_eq!(report.conflicting_scope_count(), 2);

    report.record_conflicts(found());
    assert_eq!(told(&report), expected);
    assert_eq!(report.conflict_count(), 3);
    assert_eq!(report.checked, 2);
    assert!(!report.interrupted);

    let mut in_two_goes = AuditReport::default();
    let mut first = found();
    let second = first.split_off(2);
    in_two_goes.record_conflicts(first);
    in_two_goes.record_conflicts(second);
    assert_eq!(told(&in_two_goes), expected);
}

#[test]
fn scopes_stand_in_order() {
    let mut report = AuditReport::default();
    for name in ["beta", "alpha", "gamma"] {
        report.take_environment(name, AuditEvent::Unchecked("no".into()));
    }
    let names: Vec<&str> = report.scopes.iter().map(|s| s.0.as_str()).collect();
    assert_eq!(
        names,
        vec![
            "in environment 'alpha'",
            "in environment 'beta'",
            "in environment 'gamma'"
        ]
    );
    assert_eq!(report.checked, 3);
}

#[test]
fn report_is_told_line_by_line() {
    let mut report = AuditReport::default();
    assert_eq!(
        report.render(AuditApplication::NotRequested),
        "retread solve: read-only audit passed for all 0 environments\n"
    );
    assert_eq!(report.exit_code(), EXIT_OK);
    assert!(report.apply_blocker().is_none());

    let go_on = report.take_environment(
        "default",
        AuditEvent::Solved {
            success: false,
            raw_stderr: "told already".into(),
            conflicts: vec![drop_numpy()],
        },
    );
    assert!(go_on);
    assert_eq!(report.exit_code(), EXIT_EXHAUSTED);
    assert_eq!(
        report.render(AuditApplication::NotRequested),
        "retread solve: read-only audit checked 1 environments; 1 dependency conflicts across 1 scopes\n\
         \n\
         scope in environment 'default':\n\
         \x20 pack `pypi-packs/robotics-pack/pixi.toml` (bundle `robotics-output`, platform linux-64, python 3.11):\n\
         \x20   package `numpy`\n\
         \x20   conflicting wheels/requirements:\n\
         \x20     - `==1.26.4` required by wheel `old-extension==1.0.0`\n\
         \x20     - `>=2,<3` required by wheel `new-extension==2.0.0`\n\
         \x20   proposed relaxation (not applied):\n\
         \x20     retread-drop-deps = [\"numpy\"]\n\
         \n\
         retread solve: no changes applied; rerun with --apply-ledger to persist these proposals\n"
    );
    assert!(report
        .render(AuditApplication::Applied)
        .contains("    applied to pack-overrides ledger:\n"));
    assert!(report
        .render(AuditApplication::Refused)
        .ends_with("\nretread solve: no changes applied because the audit was incomplete\n"));
}

#[test]
fn failures_without_clashes_are_told_by_what_the_solver_wrote() {
    let mut report = AuditReport::default();
    report.take_environment(
        "one",
        AuditEvent::Solved {
            success: false,
            raw_stderr: "\u{1b}[31mno\n   way\u{1b}[0m ".into(),
            conflicts: Vec::new(),
        },
    );
    report.take_environment(
        "two",
        AuditEvent::Solved {
            success: false,
            raw_stderr: " \n".into(),
            conflicts: Vec::new(),
        },
    );
    report.take_environment(
        "three",
        AuditEvent::Solved {
            success: true,
            raw_stderr: "a warning".into(),
            conflicts: Vec::new(),
        },
    );
    let told: Vec<Option<&str>> = report
        .scopes
        .iter()
        .map(|s| s.1.fallback.as_deref())
        .collect();
    assert_eq!(
        told,
        vec![
            Some("no way"),
            Some("pixi update --dry-run failed without stderr")
        ]
    );
    assert_eq!(report.exit_code(), EXIT_UNPARSEABLE);
    assert_eq!(
        report.apply_blocker().as_deref(),
        Some(
            "the audit did not produce structured conflicts for `in environment 'one'`, `in environment 'two'`; no ledger entries were written"
        )
    );
    assert!(report
        .render(AuditApplication::Refused)
        .contains("  solve failed without a scoped dependency conflict:\n    no way\n"));
}

#[test]
fn interruption_ends_the_check() {
    let mut report = AuditReport::default();
    assert!(!report.take_environment("one", AuditEvent::Interrupted));
    assert!(report.interrupted);
    assert_eq!(report.exit_code(), EXIT_INTERRUPTED);
    assert_eq!(
        report.apply_blocker().as_deref(),
        Some("the audit was interrupted; no ledger entries were written")
    );
    assert!(report
        .render(AuditApplication::NotRequested)
        .ends_with("\naudit interrupted\n"));
    let (application, why, code) = report.verdict(true);
    assert_eq!(application, AuditApplication::Refused);
    assert_eq!(code, EXIT_INTERRUPTED);
    assert_eq!(
        why.as_deref(),
        Some(
            "retread solve: --apply-ledger refused: the audit was interrupted; no ledger entries were written"
        )
    );
}

#[test]
fn proposals_are_taken_only_where_asked_for() {
    let mut report = AuditReport::default();
    report.record_conflicts(vec![drop_numpy()]);
    assert_eq!(
        report.verdict(false),
        (AuditApplication::NotRequested, None, EXIT_EXHAUSTED)
    );
    assert_eq!(
        report.verdict(true),
        (AuditApplication::Applied, None, EXIT_OK)
    );
}

#[test]
fn apply_refuses_incomplete_divergent_or_unowned_proposals_before_writing() {
    let drop = drop_numpy();

    let incomplete = AuditReport {
        checked: 2,
        scopes: vec![
            (
                drop.scope.clone(),
                AuditScopeFailure {
                    conflicts: vec![drop.clone()],
                    fallback: None,
                },
            ),
            (
                "in environment 'other'".into(),
                AuditScopeFailure {
                    fallback: Some("unstructured solver failure".into()),
                    ..AuditScopeFailure::default()
                },
            ),
        ],
        interrupted: false,
    };
    assert!(plan_audit_ledger(&incomplete, &vec![owned("/w/robotics-pack")]).is_err());

    let mut override_conflict = drop.clone();
    override_conflict.scope = "in environment 'peer'".into();
    override_conflict.suggestion = RetreadConflictSuggestion::Override {
        pack_manifest: "pypi-packs/robotics-pack/pixi.toml".into(),
        package: "numpy".into(),
        spec: ">=2,<3".into(),
    };
    let divergent = AuditReport {
        checked: 2,
        scopes: vec![
            (
                drop.scope.clone(),
                AuditScopeFailure {
                    conflicts: vec![drop.clone()],
                    fallback: None,
                },
            ),
            (
                override_conflict.scope.clone(),
                AuditScopeFailure {
                    conflicts: vec![override_conflict],
                    fallback: None,
                },
            ),
        ],
        interrupted: false,
    };
    let err = plan_audit_ledger(
        &divergent,
        &vec![owned("/w/robotics-pack"), owned("/w/robotics-pack")],
    )
    .unwrap_err();
    assert_eq!(
        err,
        "retread solve: divergent Track-2 suggestions target `numpy` in /w/robotics-pack/pixi.toml (DropDependency versus Override { spec: \">=2,<3\" }); no ledger entries were written"
    );

    let unowned = AuditReport {
        checked: 1,
        scopes: vec![(
            drop.scope.clone(),
            AuditScopeFailure {
                conflicts: vec![drop],
                fallback: None,
            },
        )],
        interrupted: false,
    };
    let why = resolve_audit_pack_manifest(
        &vec!["/w/pypi-packs/robotics-pack/pixi.toml".to_string()],
        Some("/w/pypi-packs/not-the-owner/pixi.toml"),
        "/w/pypi-packs/not-the-owner/pixi.toml",
        "robotics-output",
        "/w/pixi.toml",
    )
    .unwrap_err();
    assert_eq!(
        why,
        "retread solve: proposed pack manifest /w/pypi-packs/not-the-owner/pixi.toml does not own bundle `robotics-output`; /w/pypi-packs/robotics-pack/pixi.toml does"
    );
    assert_eq!(
        plan_audit_ledger(&unowned, &vec![PackLookup::Unowned(why.clone())]).unwrap_err(),
        why
    );
}

#[test]
fn agreeing_proposals_become_one() {
    let mut one = drop_numpy();
    one.bundle = "zeta".into();
    one.provenance = "p2".into();
    let mut two = drop_numpy();
    two.bundle = "alpha".into();
    two.provenance = "p1".into();
    let mut other = drop_numpy();
    other.suggestion = RetreadConflictSuggestion::RootPin {
        pack_manifest: "pypi-packs/robotics-pack/pixi.toml".into(),
        package: "Pillow".into(),
        spec: "==11".into(),
        bundle_group: "g".into(),
    };
    let mut report = AuditReport::default();
    report.record_conflicts(vec![one, two, other]);
    let packs: Vec<PackLookup> = (0..3).map(|_| owned("/w/robotics-pack")).collect();
    let plan = plan_audit_ledger(&report, &packs).unwrap();
    assert_eq!(plan.updates.len(), 2);
    assert_eq!(plan.updates[0].package, "numpy");
    assert_eq!(plan.updates[0].bundle, "alpha");
    assert_eq!(plan.updates[0].provenance, "p1; p2");
    assert!(matches!(
        plan.updates[0].action,
        AuditLedgerChoice::DropDependency
    ));
    assert_eq!(plan.updates[1].package, "Pillow");
    assert!(matches!(
        plan.updates[1].action,
        AuditLedgerChoice::RootPin { .. }
    ));
    assert_eq!(plan.also_invalidate, vec!["zeta"]);
}

#[test]
fn clash_without_a_suggestion_is_refused() {
    let mut c = drop_numpy();
    c.suggestion_from_backend = false;
    let mut report = AuditReport::default();
    report.record_conflicts(vec![c]);
    assert_eq!(
        plan_audit_ledger(&report, &vec![owned("/w/robotics-pack")]).unwrap_err(),
        "retread solve: `numpy` has no embedded Track-2 suggestion; refusing to infer an --apply-ledger action (the read-only fallback remains available)"
    );
}

#[test]
fn owner_of_a_bundle_is_one_manifest() {
    let tables = vec![
        table(&[("robotics_output", "pypi-packs/robotics-pack"), ("numpy", "x")]),
        table(&[("Robotics.Output", "pypi-packs/a"), ("robotics-output", "pypi-packs/robotics-pack")]),
    ];
    assert_eq!(
        matching_paths(&tables, "robotics-output"),
        vec!["pypi-packs/a", "pypi-packs/robotics-pack"]
    );
    assert_eq!(pack_manifest_at("/w", "pypi-packs/a"), "/w/pypi-packs/a/pixi.toml");
    assert_eq!(pack_manifest_at("/w", "/elsewhere"), "/elsewhere/pixi.toml");

    let settle = |owned: &[&str], suggested: Option<&str>| {
        resolve_audit_pack_manifest(
            &owned.iter().map(|s| s.to_string()).collect(),
            suggested,
            "/w/p/pixi.toml",
            "b",
            "/w/pixi.toml",
        )
    };
    assert_eq!(settle(&["/w/p", "/w/p"], Some("/w/p")).unwrap(), "/w/p");
    assert_eq!(
        settle(&[], Some("/w/p")).unwrap_err(),
        "retread solve: bundle `b` is not an existing path dependency in /w/pixi.toml"
    );
    assert_eq!(
        settle(&["/w/p", "/w/q"], Some("/w/p")).unwrap_err(),
        "retread solve: bundle `b` resolves to 2 different pack manifests in /w/pixi.toml; refusing an ambiguous ledger write"
    );
    assert_eq!(
        settle(&["/w/p"], None).unwrap_err(),
        "retread solve: proposed pack manifest /w/p/pixi.toml for bundle `b` does not exist"
    );
}

const WORKSPACE: &str = r#"[workspace]
channels = ["conda-forge"]

[environments]
beta = []
alpha = []
default = []

# Kept as it is.
[target.z.dependencies]
python = ">=3.11"

[target.a.dependencies]
python = "<3.13"
"#;

#[test]
fn filtering_keeps_one_environment_and_the_rest_of_the_manifest() {
    let text = filtered_audit_manifest(WORKSPACE, "alpha").unwrap();
    assert!(text.contains("alpha = []"));
    assert!(!text.contains("beta"));
    assert!(text.contains("default = { features = [], no-default-feature = true }"), "{text}");
    assert!(text.contains("# Kept as it is.\n[target.z.dependencies]\npython = \">=3.11\"\n"));
    assert!(text.find("[target.z.dependencies]").unwrap() < text.find("[target.a.dependencies]").unwrap());

    let text = filtered_audit_manifest(WORKSPACE, "default").unwrap();
    assert!(text.contains("default = []"));
    assert!(!text.contains("alpha") && !text.contains("beta"));
}

#[test]
fn filtering_keeps_the_solve_group() {
    let source = "[environments]\na = { features = [\"x\"], solve-group = \"g\" }\nb = { features = [\"y\"], solve_group = \"g\" }\nc = { features = [\"z\"] }\ndefault = { features = [], solve-group = \"g\" }\n";
    let text = filtered_audit_manifest(source, "a").unwrap();
    assert!(text.contains("a = {") && text.contains("b = {"));
    assert!(!text.contains("c = {"));
    assert!(text.contains("default = { features = [], solve-group = \"g\" }"));
    let text = filtered_audit_manifest(source, "c").unwrap();
    assert!(text.contains("c = {"));
    assert!(!text.contains("a = {") && !text.contains("b = {"));
    assert!(text.contains("no-default-feature = true"));
}

#[test]
fn filtering_without_environments_and_with_bad_ones() {
    assert_eq!(
        filtered_audit_manifest("[dependencies]\n", "default").unwrap(),
        "[dependencies]\n"
    );
    assert_eq!(
        filtered_audit_manifest("[dependencies]\n", "gpu").unwrap_err(),
        "retread solve audit: environment `gpu` disappeared while filtering manifest"
    );
    assert_eq!(
        filtered_audit_manifest("environments = 1\n", "default").unwrap_err(),
        "retread solve audit: `environments` must be a TOML table"
    );
    assert_eq!(
        filtered_audit_manifest("[environments\n", "default").unwrap_err(),
        "retread solve audit: failed parsing editable manifest"
    );
    assert_eq!(
        filtered_audit_manifest("environments = { a = [], b = [] }\n", "a").unwrap(),
        "environments = { a = [], default = { features = [], no-default-feature = true } }\n"
    );
}

#[test]
fn directories_of_path_dependencies_are_copied() {
    let tables = vec![
        table(&[("a", "./pypi-packs/a"), ("b", "pypi-packs//b")]),
        table(&[("c", "custom/./c")]),
    ];
    assert_eq!(
        audit_mutable_path_entries("/w", &tables).unwrap(),
        vec!["/w/pypi-packs", "/w/custom"]
    );
    for raw in ["../out", "a/../b", "/abs"] {
        assert_eq!(
            audit_mutable_path_entries("/w", &vec![table(&[("x", raw)])]).unwrap_err(),
            format!(
                "retread solve audit: external path dependency `{raw}` cannot be isolated read-only"
            )
        );
    }
    for raw in [".", "", "./"] {
        assert_eq!(
            audit_mutable_path_entries("/w", &vec![table(&[("x", raw)])]).unwrap_err(),
            format!(
                "retread solve audit: workspace-root path dependency `{raw}` cannot be isolated read-only"
            )
        );
    }
}

#[test]
fn entries_of_the_copy() {
    let copied = vec!["/w/pypi-packs".to_string()];
    for name in ["pixi.toml", "pixi.lock", ".pixi", ".retread", "custom.toml"] {
        assert_eq!(
            shadow_entry(name, Some("custom.toml"), &format!("/w/{name}"), &copied),
            ShadowEntry::LeftOut
        );
    }
    assert_eq!(
        shadow_entry("pypi-packs", None, "/w/pypi-packs", &copied),
        ShadowEntry::Copied
    );
    assert_eq!(
        shadow_entry("src", None, "/w/src", &copied),
        ShadowEntry::Linked
    );
    assert_eq!(shadow_name("ws", 42, 7), ".ws-retread-audit-42-7");
}
