use retread_solve::solve::error::{
    SolveError, EXIT_EXHAUSTED, EXIT_INTERRUPTED, EXIT_MAX_ITERS, EXIT_SMOKE_FAILED,
    EXIT_UNPARSEABLE, EXIT_USAGE,
};
use retread_solve::solve::ledger::{
    mark_last_widen_failed, parse_strategy, timestamp, AttemptSet, LedgerAttempt, Reason,
    SolveLedger, Strategy, TriedState,
};
use retread_solve::solve::order::{in_their_order, lists_come_before, texts_come_before};
use retread_solve::solve::paths::{
    conflict_trace_path, ledger_path, manifest_sha256, retread_dir, snapshot_path,
};
use retread_solve::solve::smoke::{smoke_arguments, smoke_failure};
use retread_solve::solve::workspace::{
    canonical_conda_name, conda_name_family, resolve_pack_dir, resolve_pack_feature, FeatureDef,
    PypiToCondaMap, WorkspaceManifest,
};
use retread_solve::text::{
    contains, decimal_text, eq_ignore_ascii_case, join, lines, parse_number, replace, rfind, split,
    split_whitespace, starts_with, trim,
};

fn texts(parts: &[&str]) -> Vec<String> {
    parts.iter().map(|s| s.to_string()).collect()
}

#[test]
fn failures_have_codes_and_messages() {
    let cases = [
        (SolveError::Usage("bad".into()), EXIT_USAGE, "bad"),
        (
            SolveError::Unparseable { stderr_tail: "t".into() },
            EXIT_UNPARSEABLE,
            "retread solve: could not parse conflict",
        ),
        (
            SolveError::Exhausted { package: "numpy".into() },
            EXIT_EXHAUSTED,
            "retread solve: exhausted repair strategies for numpy",
        ),
        (
            SolveError::MaxIters(7),
            EXIT_MAX_ITERS,
            "retread solve: max iterations reached (7)",
        ),
        (
            SolveError::SmokeFailed { module: "torch".into(), stderr_tail: "t".into() },
            EXIT_SMOKE_FAILED,
            "retread solve: smoke test failed importing torch",
        ),
        (SolveError::Interrupted, EXIT_INTERRUPTED, "retread solve: interrupted"),
    ];
    for (e, code, message) in cases {
        assert_eq!(e.exit_code(), code);
        assert_eq!(e.message(), message);
    }
}

#[test]
fn strategies_are_named_and_read() {
    for s in [
        Strategy::WidenConda,
        Strategy::Conda,
        Strategy::PypiDep,
        Strategy::PypiOverride,
    ] {
        assert_eq!(parse_strategy(s.as_str()), s);
    }
    assert_eq!(parse_strategy("anything else"), Strategy::Conda);
    assert_eq!(Reason::CondaBoundary.slug(), "conda-boundary");
}

#[test]
fn tried_pairs_are_kept() {
    let mut tried = TriedState::default();
    assert!(!tried.has("numpy", Strategy::Conda));
    tried.mark("numpy", Strategy::Conda, false);
    assert!(tried.has("numpy", Strategy::Conda));
    assert!(!tried.has("numpy", Strategy::PypiDep));
    let mut set = AttemptSet::new();
    assert!(set.insert("numpy", "==1", Strategy::Conda));
    assert!(!set.insert("numpy", "==1", Strategy::Conda));
    assert!(set.holds("numpy", "==1", Strategy::Conda));
    assert!(!set.holds("numpy", "==2", Strategy::Conda));
}

#[test]
fn last_widening_is_marked() {
    let mut ledger = SolveLedger::empty("pixi.toml".into());
    let idx = ledger.start_run("now".into(), "default".into(), "sha".into(), None);
    let attempt = |package: &str, strategy: &str| LedgerAttempt {
        iter: 1,
        package: package.into(),
        version: None,
        tier: strategy.into(),
        strategy: strategy.into(),
        conflict: "c".into(),
        source: "retread".into(),
        ts: "now".into(),
        old_spec: None,
        new_spec: None,
        ceiling_policy: None,
        before: None,
        failed: false,
    };
    for (p, s) in [("a", "widen-conda"), ("a", "widen-conda"), ("b", "widen-conda"), ("a", "conda")] {
        ledger.runs[idx].attempts.push(attempt(p, s));
    }
    mark_last_widen_failed(&mut ledger, idx, "a");
    let failed: Vec<bool> = ledger.runs[idx].attempts.iter().map(|a| a.failed).collect();
    assert_eq!(failed, vec![false, true, false, false]);
    ledger.finish_run(idx, "converged");
    assert_eq!(ledger.runs[idx].outcome, "converged");
    let adopted = ledger.adopted("other.toml".into());
    assert_eq!(adopted.manifest, "other.toml");
    assert_eq!(adopted.version, 1);
}

#[test]
fn time_moves_on() {
    let first = timestamp();
    assert!(!first.is_empty());
    assert_ne!(first, "0");
}

#[test]
fn digest_is_that_of_the_bytes() {
    assert_eq!(
        manifest_sha256(b""),
        "e3b0c44298fc1c149afbf4c8996fb92427ae41e4649b934ca495991b7852b855"
    );
    assert_eq!(
        manifest_sha256(b"abc"),
        "ba7816bf8f01cfea414140de5dae2223b00361a396177a9cb410ff61f20015ad"
    );
}

#[test]
fn paths_lie_under_the_project() {
    assert_eq!(retread_dir("/w"), "/w/.retread");
    assert_eq!(ledger_path("/w"), "/w/.retread/solve-ledger.json");
    assert!(snapshot_path("/w").starts_with("/w/.retread/"));
    let trace = conflict_trace_path("/w", "a b/c", 3);
    assert!(trace.starts_with("/w/.retread/solve-conflicts/"), "{trace}");
    assert!(trace.ends_with("-3.txt"), "{trace}");
    assert!(!trace["/w/.retread/solve-conflicts/".len()..].contains('/'));
}

#[test]
fn smoke_test_imports_each_module() {
    let args = smoke_arguments(&Some("gpu".into()), &texts(&["torch", "isaaclab.app"]))
        .unwrap()
        .unwrap();
    assert!(args.contains(&"gpu".to_string()));
    assert!(args.iter().any(|a| a.contains("torch") && a.contains("isaaclab.app")), "{args:?}");
    assert!(smoke_arguments(&None, &Vec::new()).unwrap().is_none());
    assert!(matches!(
        smoke_arguments(&None, &texts(&["os; rm"])),
        Err(SolveError::Usage(_))
    ));
    let failed = smoke_failure(&texts(&["torch"]), "boom".to_string());
    assert!(matches!(failed, SolveError::SmokeFailed { .. }));
}

#[test]
fn names_of_a_wheel_in_conda() {
    assert_eq!(canonical_conda_name("Foo_.Bar"), "foo-bar");
    let mut map = PypiToCondaMap::new();
    map.insert("torch".into(), texts(&["pytorch"]));
    let family = conda_name_family("torch", &map);
    assert!(family.contains(&"pytorch".to_string()), "{family:?}");
    assert!(family.contains(&"pytorch-gpu".to_string()), "{family:?}");
    assert!(family.contains(&"torch".to_string()), "{family:?}");
}

#[test]
fn packs_resolve_to_their_directories() {
    let ws = WorkspaceManifest {
        path_dependencies: vec![("a".into(), "packs/a".into())],
        features: vec![(
            "gpu".into(),
            FeatureDef {
                path_dependencies: vec![("b".into(), "/abs/b".into())],
            },
        )],
        environments: Vec::new(),
    };
    assert_eq!(resolve_pack_dir(&ws, "/w", "a").as_deref(), Some("/w/packs/a"));
    assert_eq!(resolve_pack_dir(&ws, "/w", "b").as_deref(), Some("/abs/b"));
    assert!(resolve_pack_dir(&ws, "/w", "c").is_none());
    assert_eq!(resolve_pack_feature(&ws, "a").as_deref(), Some("default"));
    assert_eq!(resolve_pack_feature(&ws, "b").as_deref(), Some("gpu"));
    assert!(resolve_pack_feature(&ws, "c").is_none());
}

#[test]
fn lists_are_ordered_by_their_parts() {
    assert!(texts_come_before(&texts(&["a"]), &texts(&["a", "b"])));
    assert!(texts_come_before(&texts(&["a", "b"]), &texts(&["a-b"])));
    assert!(!texts_come_before(&texts(&["a"]), &texts(&["a"])));
    assert!(lists_come_before(
        &vec![texts(&["a"]), texts(&["z"])],
        &vec![texts(&["b"]), texts(&["a"])]
    ));
    assert_eq!(in_their_order(&texts(&["b", "a", "b"])), vec!["a", "b"]);
}

#[test]
fn texts_are_cut_and_joined() {
    assert_eq!(split("a,,b", ','), vec!["a", "", "b"]);
    assert_eq!(lines("a\r\nb\n\nc\n"), vec!["a", "b", "", "c"]);
    assert_eq!(split_whitespace(" a \u{a0}b\t"), vec!["a", "b"]);
    assert_eq!(join(&texts(&["a", "b"]), ", "), "a, b");
    assert_eq!(replace("aXbX", "X", "--"), "a--b--");
    assert_eq!(trim("\u{2003}x "), "x");
    assert_eq!(rfind("abab", "ab"), Some(2));
    assert!(contains("abc", "bc") && !contains("abc", "cb"));
    assert!(starts_with("abc", "ab"));
    assert!(eq_ignore_ascii_case("PyPI", "pypi"));
    assert_eq!(decimal_text(0), "0");
    assert_eq!(decimal_text(18446744073709551615), "18446744073709551615");
    assert_eq!(parse_number("42", 100), Some(42));
    assert_eq!(parse_number("101", 100), None);
    assert_eq!(parse_number("", 100), None);
    assert_eq!(parse_number("4x", 100), None);
}
