use retread_solve::solve::audit::{RetreadConflictSuggestion, RetreadMutuallyUnsatisfiable};
use retread_solve::solve::driver::{
    after_install, calibration_warning, collapse_diagnostic_whitespace, describe_cleaning,
    describe_failure, describe_round, describe_success, end_environment, failed_round,
    feature_note, outcome_for_code, preference, requested_environments, resolve_feature,
    smoke_verdict, AfterInstall, EnvRun, FailedRound,
};
use retread_solve::solve::error::SolveError;
use retread_solve::solve::ledger::{
    local_date, LedgerAttempt, RelaxPreference, SolveLedger, Strategy, TableKind, TriedState,
};
use retread_solve::solve::manifest::ManifestEditor;
use retread_solve::solve::parse::Conflict;
use retread_solve::solve::repair::RepairPlanner;
use retread_solve::solve::workspace::{EnvironmentDef, Facts, WorkspaceManifest};

fn facts() -> Facts {
    Facts {
        now: "2026-07-08T00:00:00Z".to_string(),
        today: "2026-07-08".to_string(),
        workspace: None,
        packs: Vec::new(),
    }
}

fn open(text: &str) -> ManifestEditor {
    ManifestEditor::open("w/pixi.toml".to_string(), "w".to_string(), text).unwrap()
}

fn gpu_workspace() -> WorkspaceManifest {
    WorkspaceManifest {
        path_dependencies: Vec::new(),
        features: Vec::new(),
        environments: vec![
            (
                "gpu".to_string(),
                EnvironmentDef {
                    features: vec!["cuda".to_string()],
                    no_default_feature: true,
                },
            ),
            (
                "both".to_string(),
                EnvironmentDef {
                    features: vec!["cuda".to_string()],
                    no_default_feature: false,
                },
            ),
        ],
    }
}

fn ledger() -> (SolveLedger, usize) {
    let mut ledger = SolveLedger::empty("pixi.toml".to_string());
    let idx = ledger.start_run("now".into(), "default".into(), "sha".into(), None);
    (ledger, idx)
}

#[test]
fn feature_resolution_uses_single_no_default_feature() {
    let ws = gpu_workspace();
    assert_eq!(resolve_feature(Some(&ws), Some("gpu"), None), "cuda");
    assert_eq!(
        resolve_feature(Some(&ws), Some("gpu"), Some("manual")),
        "manual"
    );
    assert_eq!(resolve_feature(Some(&ws), Some("both"), None), "default");
    assert_eq!(resolve_feature(None, Some("gpu"), None), "default");
    assert_eq!(
        feature_note(Some(&ws), Some("gpu"), None).as_deref(),
        Some("retread solve: targeting feature cuda for env gpu")
    );
    assert_eq!(
        feature_note(Some(&ws), Some("both"), None).as_deref(),
        Some(
            "retread solve: default-feature pins re-solve all environments; use --feature for scoped repair when possible"
        )
    );
    assert!(feature_note(Some(&ws), None, None).is_none());
    assert!(feature_note(Some(&ws), Some("gpu"), Some("manual")).is_none());
}

#[test]
fn environments_default_to_one() {
    assert_eq!(requested_environments(&Vec::new()), vec![None]);
    assert_eq!(
        requested_environments(&vec!["a".to_string(), "b".to_string()]),
        vec![Some("a".to_string()), Some("b".to_string())]
    );
}

#[test]
fn repair_then_unreadable_failure_takes_the_repair_back() {
    let mut editor = open("[dependencies]\n");
    let mut tried = TriedState::default();
    let (mut ledger, idx) = ledger();
    let mut run = EnvRun::new(RepairPlanner::new("default".into()), Some(idx));
    let step = run
        .round(
            &mut editor,
            &mut tried,
            &mut ledger,
            &facts(),
            "these packages are pinned by the conda solve and cannot be changed:\n  numpy==2.3.1\n",
            1,
        )
        .unwrap();
    assert!(step.end.is_none());
    assert!(step.write_manifest);
    assert!(step.lines[0].starts_with("WARNING: editing w/pixi.toml now: "));
    assert_eq!(ledger.runs[idx].attempts.len(), 1);
    assert_ne!(editor.render(), "[dependencies]\n");

    let step = run
        .round(&mut editor, &mut tried, &mut ledger, &facts(), "the disk is full", 2)
        .unwrap();
    assert!(step.write_manifest);
    assert_eq!(
        step.lines,
        vec![
            "retread solve: could not parse solver error; manifest restored",
            "the disk is full"
        ]
    );
    assert!(matches!(step.end, Some(SolveError::Unparseable { .. })));
    let run = &ledger.runs[idx];
    assert_eq!(run.kept_pins, Some(0));
    assert_eq!(run.reverted.len(), 1);
    assert_eq!(run.reverted[0].package, "numpy");
    assert_eq!(
        editor
            .entry_snapshot("default", TableKind::Conda, "numpy")
            .value,
        None
    );
}

#[test]
fn widening_that_fails_is_taken_back_and_the_solve_goes_on() {
    let mut editor = open(
        "[dependencies]\nmujoco = \"==3.5.0\"  # retread:pin 2026-07-07 conda-boundary\n",
    );
    let before = editor.render();
    let mut tried = TriedState::default();
    let (mut ledger, idx) = ledger();
    let mut run = EnvRun::new(RepairPlanner::new("default".into()), Some(idx));
    let conflict = Some(Conflict::CondaWidenNeeded {
        package: "mujoco".into(),
        op: ">=".into(),
        floor: "3.10.3".into(),
        conda_version: "==3.5.0".into(),
        requiring_chain: Vec::new(),
        pack_name: None,
    });
    let step = run.round_on(
        &mut editor, &mut tried, &mut ledger, &facts(), &conflict, false, "raw", 1,
    );
    assert!(step.end.is_none());
    assert!(editor.render().contains("# retread:widen"));
    let step = run.round_on(
        &mut editor, &mut tried, &mut ledger, &facts(), &None, true, "raw", 2,
    );
    assert!(step.end.is_none());
    assert!(step.write_manifest);
    assert_eq!(
        step.lines,
        vec!["retread solve: post-widen conda unsat for mujoco; reverting only that widen"]
    );
    assert_eq!(editor.render(), before);
    assert!(tried.has("mujoco", Strategy::WidenConda));
    assert!(ledger.runs[idx].attempts[0].failed);
}

#[test]
fn exhaustion_ends_an_environment() {
    let mut editor = open("[dependencies]\n");
    let mut tried = TriedState::default();
    let (mut ledger, idx) = ledger();
    let mut run = EnvRun::new(RepairPlanner::new("default".into()), Some(idx));
    let step = run
        .round(
            &mut editor,
            &mut tried,
            &mut ledger,
            &facts(),
            "No candidates were found for python ==3.12.1",
            1,
        )
        .unwrap();
    assert!(matches!(step.end, Some(SolveError::Exhausted { ref package }) if package == "python"));
    assert!(!step.write_manifest);
    assert_eq!(editor.render(), "[dependencies]\n");
}

#[test]
fn preview_tells_what_would_be_done() {
    let mut dry = open("[dependencies]\n");
    let mut tried = TriedState::default();
    let mut run = EnvRun::new(RepairPlanner::new("default".into()), None);
    let conflict = Conflict::CondaBoundary {
        package: "numpy".into(),
        version: "2.3.1".into(),
    };
    let line = run.preview(&mut dry, &mut tried, &facts(), &conflict, 1).unwrap();
    assert!(line.contains("numpy"), "{line}");
    let conflict = Conflict::CondaBoundary {
        package: "python".into(),
        version: "3.12".into(),
    };
    assert!(matches!(
        run.preview(&mut dry, &mut tried, &facts(), &conflict, 2),
        Err(SolveError::Exhausted { .. })
    ));
}

#[test]
fn environments_end_as_their_results_say() {
    let (mut l, idx) = ledger();
    let end = end_environment(&mut l, Some(idx), Ok(0), false, 0);
    assert_eq!((end.exit, end.code_so_far), (None, 0));
    assert_eq!(l.runs[idx].outcome, "converged");

    let (mut l, idx) = ledger();
    let end = end_environment(&mut l, Some(idx), Ok(5), false, 0);
    assert_eq!(end.exit, Some(5));
    assert!(end.settle && l.runs[idx].smoke_failed);

    let (mut l, idx) = ledger();
    let exhausted = || SolveError::Exhausted {
        package: "numpy".into(),
    };
    let end = end_environment(&mut l, Some(idx), Err(exhausted()), false, 0);
    assert_eq!(end.exit, Some(3));
    assert!(end.roll_back_manifest && end.roll_back_overrides && !end.restore_checkpoint);
    assert_eq!(
        end.lines,
        vec!["retread solve: exhausted repair strategies for numpy"]
    );
    assert_eq!(l.runs[idx].outcome, "exhausted");

    let (mut l, idx) = ledger();
    let end = end_environment(&mut l, Some(idx), Err(exhausted()), true, 0);
    assert_eq!((end.exit, end.code_so_far), (None, 3));
    assert!(end.restore_checkpoint && end.roll_back_overrides && !end.roll_back_manifest);
    assert!(end.lines.is_empty());

    let (mut l, idx) = ledger();
    let end = end_environment(&mut l, Some(idx), Err(SolveError::Interrupted), true, 0);
    assert_eq!(end.exit, Some(130));
    assert!(end.roll_back_manifest);
    assert_eq!(l.runs[idx].outcome, "interrupted");

    let (mut l, idx) = ledger();
    let unread = SolveError::Unparseable {
        stderr_tail: "tail".into(),
    };
    let end = end_environment(&mut l, Some(idx), Err(unread), false, 0);
    assert_eq!(end.exit, Some(2));
    assert!(!end.roll_back_manifest && !end.roll_back_overrides);
    assert_eq!(l.runs[idx].outcome, "unparseable");

    let (mut l, idx) = ledger();
    let end = end_environment(&mut l, Some(idx), Err(SolveError::Usage("bad".into())), false, 0);
    assert_eq!(end.exit, Some(1));
    assert!(end.roll_back_manifest);
    assert_eq!(l.runs[idx].outcome, "running");

    let (mut l, idx) = ledger();
    let end = end_environment(&mut l, Some(idx), Err(SolveError::MaxIters(5)), false, 0);
    assert_eq!(end.exit, Some(4));
    assert_eq!(end.lines, vec!["retread solve: max iterations reached (5)"]);
    assert_eq!(l.runs[idx].outcome, "max_iters");
}

#[test]
fn outcomes_have_names() {
    let names: Vec<&str> = [2, 3, 4, 130, 1].iter().map(|c| outcome_for_code(*c)).collect();
    assert_eq!(
        names,
        vec!["unparseable", "exhausted", "max_iters", "interrupted", "failed"]
    );
}

#[test]
fn failures_are_told_with_their_tails() {
    let lines = describe_failure(&SolveError::Unparseable {
        stderr_tail: "t".into(),
    });
    assert_eq!(lines, vec!["retread solve: could not parse conflict", "t"]);
    let (told, end) = smoke_verdict(SolveError::SmokeFailed {
        module: "torch".into(),
        stderr_tail: "boom".into(),
    });
    assert_eq!(told.as_deref(), Some("boom"));
    assert!(matches!(end, Ok(5)));
    let (told, end) = smoke_verdict(SolveError::MaxIters(3));
    assert!(told.is_none());
    assert!(
        matches!(end, Err(SolveError::Usage(ref t)) if t == "retread solve: max iterations reached (3)")
    );
}

#[test]
fn install_is_followed_by_the_smoke_test() {
    let modules = vec!["torch".to_string()];
    assert_eq!(after_install(true, false, &modules), AfterInstall::NothingToDo);
    assert_eq!(after_install(false, false, &modules), AfterInstall::Smoke);
    assert_eq!(after_install(false, true, &modules), AfterInstall::Converged);
    assert_eq!(after_install(false, false, &Vec::new()), AfterInstall::Converged);
}

fn attempt(package: &str, strategy: &str, spec: Option<&str>, version: Option<&str>) -> LedgerAttempt {
    LedgerAttempt {
        iter: 1,
        package: package.into(),
        version: version.map(str::to_string),
        tier: strategy.into(),
        strategy: strategy.into(),
        conflict: "NoCandidates".into(),
        source: "retread".into(),
        ts: "now".into(),
        old_spec: None,
        new_spec: spec.map(str::to_string),
        ceiling_policy: None,
        before: None,
        failed: false,
    }
}

#[test]
fn success_is_told_by_strategy() {
    assert_eq!(
        describe_success(&Vec::new()),
        vec!["retread solve: pixi install converged without manifest repairs"]
    );
    let attempts = vec![
        attempt("torch", "pypi_override", None, Some("2.7.1")),
        attempt("mujoco", "widen-conda", Some(">=3,<4"), None),
        attempt("numpy", "pypi_override", Some("==2"), Some("2")),
    ];
    assert_eq!(
        describe_success(&attempts),
        vec![
            "retread solve: converged repairs",
            "widen-conda:",
            "  mujoco = \">=3,<4\"",
            "pypi_override:",
            "  torch = \"==2.7.1\"",
            "  numpy = \"==2\"",
        ]
    );
}

#[test]
fn small_texts() {
    assert_eq!(
        describe_round(2, 10, Some("gpu")),
        "retread solve: pixi install iteration 2/10 (gpu)"
    );
    assert_eq!(
        describe_round(2, 10, None),
        "retread solve: pixi install iteration 2/10"
    );
    assert_eq!(collapse_diagnostic_whitespace("  a\n b\t c "), "a b c");
    let (before, after) = describe_cleaning("w/pixi.toml", 3);
    assert_eq!(
        before,
        "WARNING: editing w/pixi.toml now: remove 3 retread-managed manifest pins"
    );
    assert_eq!(after, "retread solve: removed 3 retread pins");
    assert!(calibration_warning(Some("pixi 0.70.2")).is_none());
    assert!(calibration_warning(None).is_none());
    assert_eq!(
        calibration_warning(Some("pixi 0.73.0")).as_deref(),
        Some(
            "retread solve: parser calibrated for pixi 0.70.x; running against pixi 0.73.0 -- conflict parsing may fail (exit 2). Capture fixtures and extend CALIBRATED."
        )
    );
    assert_eq!(preference(true, "conda"), RelaxPreference::Pypi);
    assert_eq!(preference(false, "PyPI"), RelaxPreference::Pypi);
    assert_eq!(preference(false, ""), RelaxPreference::Conda);
    assert_eq!(local_date(Some("2026-07-08\n")), "2026-07-08");
    assert_eq!(local_date(Some(" \n")), "1970-01-01");
    assert_eq!(local_date(None), "1970-01-01");
}

fn clash() -> RetreadMutuallyUnsatisfiable {
    RetreadMutuallyUnsatisfiable {
        scope: "in environment 'gpu'".into(),
        bundle: "isaac-pack".into(),
        platform: "linux-64".into(),
        python: "3.11".into(),
        package: "numpy".into(),
        requirements: Vec::new(),
        suggestion: RetreadConflictSuggestion::DropDependency {
            pack_manifest: "packs/isaac/pixi.toml".into(),
            alternatives: Vec::new(),
        },
        suggestion_from_backend: true,
        relaxation: "[a]\nnumpy = \"*\"\n".into(),
        provenance: "backend".into(),
    }
}

#[test]
fn rounds_are_counted_up_to_their_bound() {
    let mut run = EnvRun::new(RepairPlanner::new("default".into()), None);
    assert!(run.begin_round(2).is_none());
    assert_eq!(run.rounds, 1);
    assert!(run.begin_round(2).is_none());
    assert_eq!(run.rounds, 2);
    assert!(matches!(run.begin_round(2), Some(SolveError::MaxIters(2))));
    assert_eq!(run.rounds, 2);
    let mut none = EnvRun::new(RepairPlanner::new("default".into()), None);
    assert!(matches!(none.begin_round(0), Some(SolveError::MaxIters(0))));
}

#[test]
fn clash_within_a_pack_is_told_and_not_repaired() {
    let run = EnvRun::new(RepairPlanner::new("default".into()), None);
    let step = run.refuse_clash(&clash());
    assert_eq!(
        step.lines,
        vec![
            "retread solve: the backend supplied a ledger relaxation for `numpy`; \
             --edit-manifest will not translate it into a pixi.toml edit",
            "proposed relaxation for packs/isaac/pixi.toml (not applied):",
            "  [a]",
            "  numpy = \"*\"",
            "rerun without --edit-manifest for a read-only audit, or use \
             --apply-ledger to persist the proposal",
        ]
    );
    assert!(!step.write_manifest);
    assert!(step.pack_override.is_none());
    assert!(matches!(
        step.end,
        Some(SolveError::Exhausted { package }) if package == "numpy"
    ));
}

#[test]
fn failed_rounds_are_told_apart() {
    let conflict = Some(Conflict::PypiInternal {
        package: "torch".into(),
        version: "2.7.1".into(),
    });
    assert_eq!(failed_round(false, &Some(clash()), &conflict), FailedRound::Refuse);
    assert_eq!(failed_round(true, &None, &conflict), FailedRound::Preview);
    assert_eq!(failed_round(false, &None, &conflict), FailedRound::Repair);
    assert_eq!(failed_round(true, &None, &None), FailedRound::Lost);
}
