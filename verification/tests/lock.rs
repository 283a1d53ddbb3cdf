use retread_solve::solve::ledger::{
    AppliedEdit, EntrySnapshot, LedgerAttempt, RelaxPreference, SolveLedger, Strategy, TableKind,
    TriedState,
};
use retread_solve::solve::lock::args::parse;
use retread_solve::solve::lock::{Fate, LockRun, DEFAULT_MAX_REPAIRS};
use retread_solve::solve::manifest::ManifestEditor;
use retread_solve::solve::parse::Conflict;
use retread_solve::solve::repair::RepairPlanner;
use retread_solve::solve::session::{record_repair, summarize, RepairRecord, LOCK_FEATURE};
use retread_solve::solve::workspace::{Facts, PypiToCondaMap};

fn argv(parts: &[&str]) -> Vec<String> {
    parts.iter().map(|s| s.to_string()).collect()
}

fn facts() -> Facts {
    Facts {
        now: "2026-07-08T00:00:00Z".to_string(),
        today: "2026-07-08".to_string(),
        workspace: None,
        packs: Vec::new(),
    }
}

fn run_on(text: &str, max_repairs: u32) -> LockRun {
    let editor = ManifestEditor::open("w/pixi.toml".to_string(), "w".to_string(), text).unwrap();
    let mut ledger = SolveLedger::empty("pixi.toml".to_string());
    let idx = ledger.start_run("now".to_string(), "lock".to_string(), "sha".to_string(), None);
    LockRun::new(
        RepairPlanner::new(LOCK_FEATURE.to_string()),
        editor,
        TriedState::default(),
        ledger,
        idx,
        max_repairs,
    )
}

const BOUNDARY: &str =
    "these packages are pinned by the conda solve and cannot be changed:\n  numpy==2.3.1\n";

#[test]
fn defaults_are_manifest_and_fifty_repairs() {
    let args = parse(&argv(&[])).unwrap();
    assert_eq!(args.manifest, "pixi.toml");
    assert_eq!(args.max_repairs, DEFAULT_MAX_REPAIRS);
    assert_eq!(args.max_repairs, 50);
    assert!(!args.no_repair);
}

#[test]
fn parses_all_flags() {
    let args = parse(&argv(&["--manifest", "x.toml", "--max-repairs", "3"])).unwrap();
    assert_eq!(args.manifest, "x.toml");
    assert_eq!(args.max_repairs, 3);

    let args = parse(&argv(&["--no-repair"])).unwrap();
    assert!(args.no_repair);
}

#[test]
fn rejects_unknown_flag() {
    assert!(parse(&argv(&["--bogus"])).is_err());
}

#[test]
fn bad_lock_flags_are_told() {
    let told = |parts: &[&str]| parse(&argv(parts)).unwrap_err();
    assert_eq!(told(&["--bogus"]), "retread lock: unknown arg --bogus");
    assert_eq!(told(&["--manifest"]), "retread lock: --manifest <path> required");
    assert_eq!(told(&["--max-repairs"]), "retread lock: --max-repairs <N> required");
    assert_eq!(
        told(&["--max-repairs", "-1"]),
        "retread lock: bad --max-repairs value -1"
    );
    assert_eq!(
        told(&["--max-repairs", "4294967296"]),
        "retread lock: bad --max-repairs value 4294967296"
    );
}

#[test]
fn record_repair_labels_feature_the_edit_actually_landed_in() {
    let applied = vec![AppliedEdit {
        package: "torchvision".to_string(),
        strategy: Strategy::PypiOverride,
        table: TableKind::Override,
        before: EntrySnapshot {
            value: None,
            suffix: None,
        },
        feature: "feature.gpu".to_string(),
    }];
    let attempt = LedgerAttempt {
        iter: 2,
        package: "torchvision".to_string(),
        version: Some("0.25.0".to_string()),
        tier: "pypi_override".to_string(),
        strategy: "pypi_override".to_string(),
        conflict: "CondaWidenNeeded".to_string(),
        source: "retread".to_string(),
        ts: "2026-07-08T00:00:00Z".to_string(),
        old_spec: None,
        new_spec: Some("==0.25.0".to_string()),
        ceiling_policy: None,
        before: None,
        failed: false,
    };
    let mut records: Vec<RepairRecord> = Vec::new();
    record_repair(&mut records, &attempt, &applied, None);
    assert_eq!(records.len(), 1);
    assert_eq!(records[0].feature, "feature.gpu");
    assert_ne!(records[0].feature, LOCK_FEATURE);
}

#[test]
fn lock_planner_resolves_torch_to_pytorch_gpu_via_name_map() {
    let mut editor = ManifestEditor::open(
        "w/pixi.toml".to_string(),
        "w".to_string(),
        "[dependencies]\npytorch-gpu = \"==2.10.0\"\n",
    )
    .unwrap();
    let mut tried = TriedState::default();
    let mut name_map = PypiToCondaMap::new();
    name_map.insert("torch".to_string(), vec!["pytorch-gpu".to_string()]);
    assert!(name_map
        .get("torch")
        .is_some_and(|c| c.iter().any(|n| n == "pytorch-gpu")));
    let relax_preference = RelaxPreference::from_config_str("conda");
    let mut planner =
        RepairPlanner::configured(LOCK_FEATURE.to_string(), name_map, relax_preference);

    let conflict = Conflict::CondaWidenNeeded {
        package: "torch".into(),
        op: ">=".into(),
        floor: "2.11.0".into(),
        conda_version: "==2.10.0".into(),
        requiring_chain: Vec::new(),
        pack_name: None,
    };
    let out = planner
        .repair(&mut editor, &mut tried, &facts(), &conflict, 1)
        .unwrap();
    assert_eq!(out.attempt.strategy, "pypi_override");
    assert_eq!(out.attempt.new_spec.as_deref(), Some("==2.10.0"));

    let text = editor.render();
    assert!(text.contains("pytorch-gpu = \"==2.10.0\"\n"));
    assert!(text.contains("[pypi-options.dependency-overrides]"));
    assert!(text.contains("torch = \"==2.10.0\"  # retread:override"));
    assert_eq!(text.matches("torch = ").count(), 1);
}

#[test]
fn repair_goes_on_and_success_settles() {
    let mut run = run_on("[dependencies]\n", 5);
    assert!(run.begin_round().is_none());
    let step = run.round(&facts(), BOUNDARY).unwrap();
    assert_eq!(step.exit, None);
    assert!(step.write_manifest);
    assert_eq!(step.fate, Fate::Keep);
    assert_eq!(run.repairs_applied, 1);
    assert!(run.editor.render().contains("numpy = \"==2.3.1\""));
    assert_eq!(run.ledger.runs[0].attempts.len(), 1);
    let end = run.on_success();
    assert_eq!(end.exit, Some(0));
    assert_eq!(end.fate, Fate::Settle);
    assert_eq!(run.ledger.runs[0].outcome, "converged");
    assert!(end.lines.is_empty());
    assert_eq!(end.summary, summarize(&run.records));
    assert!(end.summary.iter().any(|l| l.contains("numpy")));
}

#[test]
fn used_up_repairs_keep_what_was_written() {
    let mut run = run_on("[dependencies]\n", 0);
    let step = run.round(&facts(), BOUNDARY).unwrap();
    assert_eq!(step.exit, Some(4));
    assert_eq!(step.fate, Fate::Keep);
    assert!(!step.write_manifest);
    assert_eq!(
        step.lines[0],
        "retread lock: max repairs (0) reached; last conflict unresolved for manifest w/pixi.toml"
    );
    assert_eq!(run.ledger.runs[0].outcome, "max_repairs");
    assert_eq!(run.editor.render(), "[dependencies]\n");
}

#[test]
fn exhaustion_takes_everything_back() {
    let mut run = run_on("[dependencies]\n", 50);
    let mut last = run.round(&facts(), BOUNDARY).unwrap();
    let mut rounds = 1;
    while last.exit.is_none() {
        assert!(rounds < 20);
        last = run.round(&facts(), BOUNDARY).unwrap();
        rounds += 1;
    }
    assert_eq!(last.exit, Some(3));
    assert_eq!(last.fate, Fate::Rollback);
    assert_eq!(
        last.lines,
        vec!["retread lock: exhausted repair strategies for numpy"]
    );
    assert_eq!(last.summary, summarize(&run.records));
    assert_eq!(run.ledger.runs[0].outcome, "exhausted");
}

#[test]
fn anchors_are_left_to_the_user() {
    let mut run = run_on("[dependencies]\n", 50);
    let step = run
        .round(&facts(), "No candidates were found for python ==3.12.1")
        .unwrap();
    assert_eq!(step.exit, Some(3));
    assert_eq!(
        step.lines[0],
        "retread lock: ABI-anchor package python cannot be auto-repaired; edit the manifest manually"
    );
    assert_eq!(run.editor.render(), "[dependencies]\n");
}

#[test]
fn unreadable_failures_take_everything_back() {
    let mut run = run_on("[dependencies]\n", 50);
    let step = run.round(&facts(), "the disk is full").unwrap();
    assert_eq!(step.exit, Some(2));
    assert_eq!(step.fate, Fate::Rollback);
    assert_eq!(
        step.lines,
        vec![
            "retread lock: could not parse solver error; manifest kept as-is",
            "the disk is full",
        ]
    );
    assert_eq!(step.summary, vec!["retread lock: no manifest repairs applied"]);
    assert_eq!(run.ledger.runs[0].outcome, "unparseable");
}

#[test]
fn rounds_are_bounded() {
    let mut run = run_on("[dependencies]\n", 1);
    for _ in 0..10 {
        assert!(run.begin_round().is_none());
    }
    let step = run.begin_round().unwrap();
    assert_eq!(step.exit, Some(4));
    assert_eq!(
        step.lines[0],
        "retread lock: internal loop bound reached without converging"
    );
    assert_eq!(run.ledger.runs[0].outcome, "max_iters");
}

#[test]
fn interruption_and_crash_take_everything_back() {
    let mut run = run_on("[dependencies]\n", 1);
    let step = run.on_interrupt();
    assert_eq!(step.exit, Some(130));
    assert_eq!(step.fate, Fate::Rollback);
    assert_eq!(run.ledger.runs[0].outcome, "interrupted");
    let mut run = run_on("[dependencies]\n", 1);
    assert_eq!(run.on_crash(), Fate::Rollback);
    assert_eq!(run.ledger.runs[0].outcome, "crashed");
}
