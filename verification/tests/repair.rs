use retread_solve::solve::fallback::FallbackCandidate;
use retread_solve::solve::ledger::{
    LedgerAttempt, RelaxPreference, SolveLedger, Strategy, TriedState,
};
use retread_solve::solve::manifest::ManifestEditor;
use retread_solve::solve::ownership::Ownership;
use retread_solve::solve::parse::{Conflict, Mention, RegexConflictParser};
use retread_solve::solve::paths::manifest_sha256;
use retread_solve::solve::repair::{PackOverrideKind, RepairPlanner};
use retread_solve::solve::workspace::{
    EnvironmentDef, Facts, FeatureDef, PackFacts, PypiToCondaMap, WorkspaceManifest,
};

fn open(text: &str) -> ManifestEditor {
    ManifestEditor::open("w/pixi.toml".to_string(), "w".to_string(), text).unwrap()
}

/// A feature with the packs that it depends on.
fn feature(name: &str, packs: &[&str]) -> (String, FeatureDef) {
    (
        name.to_string(),
        FeatureDef {
            path_dependencies: packs
                .iter()
                .map(|p| (p.to_string(), format!("./pypi-packs/{p}")))
                .collect(),
        },
    )
}

fn environment(name: &str, features: &[&str], alone: bool) -> (String, EnvironmentDef) {
    (
        name.to_string(),
        EnvironmentDef {
            features: features.iter().map(|f| f.to_string()).collect(),
            no_default_feature: alone,
        },
    )
}

fn pack_dir(pack: &str) -> String {
    format!("w/./pypi-packs/{pack}")
}

fn facts(
    features: Vec<(String, FeatureDef)>,
    environments: Vec<(String, EnvironmentDef)>,
    packs: Vec<(String, PackFacts)>,
) -> Facts {
    Facts {
        now: "2026-07-08T00:00:00Z".to_string(),
        today: "2026-07-08".to_string(),
        workspace: Some(WorkspaceManifest {
            path_dependencies: Vec::new(),
            features,
            environments,
        }),
        packs,
    }
}

fn bare() -> Facts {
    facts(Vec::new(), Vec::new(), Vec::new())
}

/// What is known of a pack whose ledger holds these overrides.
fn with_overrides(pack: &str, overrides: &[(&str, &str)]) -> (String, PackFacts) {
    (
        pack_dir(pack),
        PackFacts {
            overrides: overrides
                .iter()
                .map(|(k, v)| (k.to_string(), v.to_string()))
                .collect(),
            exact_pins: Vec::new(),
            env_dependencies: Vec::new(),
        },
    )
}

/// What is known of a pack whose upstream requirements pin these exactly.
fn with_exact_pins(pack: &str, pins: &[&str]) -> (String, PackFacts) {
    (
        pack_dir(pack),
        PackFacts {
            overrides: Vec::new(),
            exact_pins: pins.iter().map(|p| p.to_string()).collect(),
            env_dependencies: Vec::new(),
        },
    )
}

fn widen_needed(package: &str, floor: &str, conda_version: &str) -> Conflict {
    Conflict::CondaWidenNeeded {
        package: package.into(),
        op: ">=".into(),
        floor: floor.into(),
        conda_version: conda_version.into(),
        requiring_chain: Vec::new(),
        pack_name: None,
    }
}

fn nested_cap(demand: &str) -> Conflict {
    Conflict::NestedCondaCap {
        package: "setuptools".into(),
        pack_name: "isaaclab-2.3x-pack".into(),
        pack_demand: demand.into(),
        cap_op: "<".into(),
        cap_version: "76".into(),
        via: "pytorch".into(),
    }
}

const SETUPTOOLS: &str = "[dependencies]\nsetuptools = \">=68,<81\"\n\n\
     [feature.gpu.dependencies]\n\
     \"isaaclab-2.3x-pack\" = { path = \"./pypi-packs/isaaclab-2.3x-pack\" }\n";

fn setuptools_facts(packs: Vec<(String, PackFacts)>) -> Facts {
    facts(vec![feature("gpu", &["isaaclab-2.3x-pack"])], Vec::new(), packs)
}

#[test]
fn ladder_widens_then_pins_then_migrates_then_overrides() {
    let mut editor = open("[dependencies]\n");
    let mut tried = TriedState::default();
    let mut planner = RepairPlanner::new("default".into());
    let facts = bare();

    let widen = widen_needed("mujoco", "3.10.3", "3.5.0");
    let out = planner.repair(&mut editor, &mut tried, &facts, &widen, 1).unwrap();
    assert_eq!(out.attempt.strategy, "widen-conda");
    assert_eq!(out.attempt.new_spec.as_deref(), Some(">=3.10.3,<4"));

    let boundary = Conflict::CondaBoundary {
        package: "numpy".into(),
        version: "2.3.1".into(),
    };
    assert_eq!(
        planner
            .repair(&mut editor, &mut tried, &facts, &boundary, 2)
            .unwrap()
            .attempt
            .strategy,
        "conda"
    );
    let no_candidates = Conflict::NoCandidates {
        package: "numpy".into(),
        version: "2.3.1".into(),
    };
    assert_eq!(
        planner
            .repair(&mut editor, &mut tried, &facts, &no_candidates, 3)
            .unwrap()
            .attempt
            .strategy,
        "pypi_dep"
    );
    assert_eq!(
        planner
            .repair(&mut editor, &mut tried, &facts, &no_candidates, 4)
            .unwrap()
            .attempt
            .strategy,
        "pypi_override"
    );
}

#[test]
fn user_owned_conda_pin_skips_tier_one() {
    let mut editor = open("[dependencies]\nnumpy = \"==1.26.4\"\n");
    let mut tried = TriedState::default();
    let mut planner = RepairPlanner::new("default".into());
    let conflict = Conflict::CondaBoundary {
        package: "numpy".into(),
        version: "2.3.1".into(),
    };
    let out = planner
        .repair(&mut editor, &mut tried, &bare(), &conflict, 1)
        .unwrap();
    assert_eq!(out.attempt.strategy, "pypi_dep");
    assert!(tried.has("numpy", Strategy::Conda));
}

fn attempt(package: &str, strategy: &str, conflict: &str, failed: bool) -> LedgerAttempt {
    LedgerAttempt {
        iter: 1,
        package: package.into(),
        version: Some("1.0.0".into()),
        tier: strategy.into(),
        strategy: strategy.into(),
        conflict: conflict.into(),
        source: "retread".into(),
        ts: "2026-07-08T00:00:00Z".into(),
        old_spec: None,
        new_spec: None,
        ceiling_policy: None,
        before: None,
        failed,
    }
}

#[test]
fn ledger_round_trips_and_seeds_from_hash_or_sentinels() {
    let text = "[dependencies]\nnumpy = \"==2.3.1\"  # retread:pin 2026-07-07 conda-boundary\n";
    let editor = open(text);
    let manifest_hash = manifest_sha256(text.as_bytes());
    let mut ledger = SolveLedger::empty("pixi.toml".into());
    let run = ledger.start_run(
        "now".into(),
        "default".into(),
        manifest_hash.clone(),
        Some("pixi 0.70.0".into()),
    );
    ledger.runs[run]
        .attempts
        .push(attempt("torch", "conda", "CondaBoundary", true));
    let loaded = SolveLedger::load(Some(ledger), "pixi.toml".into());
    let sentinels = editor.sentinel_strategies();
    let tried = loaded.seed_tried_state(&manifest_hash, &sentinels);
    assert!(tried.has("torch", Strategy::Conda));

    let tried_from_sentinels = loaded.seed_tried_state("different", &sentinels);
    assert!(tried_from_sentinels.has("numpy", Strategy::Conda));
    assert!(!tried_from_sentinels.has("torch", Strategy::Conda));
}

#[test]
fn seed_tried_state_only_seeds_failed_ledger_entries() {
    let text = "[dependencies]\n";
    let editor = open(text);
    let manifest_hash = manifest_sha256(text.as_bytes());
    let mut ledger = SolveLedger::empty("pixi.toml".into());
    let run = ledger.start_run(
        "now".into(),
        "default".into(),
        manifest_hash.clone(),
        Some("pixi 0.70.0".into()),
    );
    ledger.runs[run]
        .attempts
        .push(attempt("sentry-sdk", "pypi_override", "DepsFromPin", false));
    ledger.runs[run]
        .attempts
        .push(attempt("antlr4", "pypi_override", "DepsFromPin", true));
    let loaded = ledger.adopted("pixi.toml".into());
    let tried = loaded.seed_tried_state(&manifest_hash, &editor.sentinel_strategies());
    assert!(
        !tried.has("sentry-sdk", Strategy::PypiOverride),
        "successful-but-unpersisted repair must be retried, not treated as exhausted"
    );
    assert!(
        tried.has("antlr4", Strategy::PypiOverride),
        "genuinely failed repair must still block retry (oscillation protection)"
    );
}

#[test]
fn conda_widen_needed_user_pin_emits_override_and_leaves_conda_pin_untouched() {
    let mut editor = open("[dependencies]\ntorch = \"==2.10.0\"\n");
    let mut tried = TriedState::default();
    let mut planner = RepairPlanner::new("default".into());
    assert_eq!(planner.relax_preference, RelaxPreference::Conda);

    let conflict = widen_needed("torch", "2.11.0", "==2.10.0");
    let out = planner
        .repair(&mut editor, &mut tried, &bare(), &conflict, 1)
        .unwrap();
    assert_eq!(out.attempt.strategy, "pypi_override");
    assert_eq!(out.attempt.new_spec.as_deref(), Some("==2.10.0"));
    assert!(!tried.has("torch", Strategy::Conda));
    assert!(!tried.has("torch", Strategy::WidenConda));
    assert!(tried.has("torch", Strategy::PypiOverride));

    let text = editor.render();
    assert!(text.contains("torch = \"==2.10.0\"\n"));
    assert!(text.contains("[pypi-options.dependency-overrides]"));
    assert!(text.contains("torch = \"==2.10.0\"  # retread:override"));
}

#[test]
fn conda_widen_needed_matches_conda_pin_via_name_map_pytorch_gpu() {
    let mut editor = open("[dependencies]\npytorch-gpu = \"==2.10.0\"\n");
    let mut tried = TriedState::default();
    let mut map = PypiToCondaMap::new();
    map.insert(
        "torch".to_string(),
        vec!["pytorch".to_string(), "pytorch-cpu".to_string(), "pytorch-gpu".to_string()],
    );
    let mut planner = RepairPlanner::new("default".into()).with_conda_name_map(map);
    assert_eq!(planner.relax_preference, RelaxPreference::Conda);

    let conflict = widen_needed("torch", "2.11.0", "==2.10.0");
    let out = planner
        .repair(&mut editor, &mut tried, &bare(), &conflict, 1)
        .unwrap();
    assert_eq!(out.attempt.strategy, "pypi_override");
    assert_eq!(out.attempt.new_spec.as_deref(), Some("==2.10.0"));
    assert!(!tried.has("torch", Strategy::Conda));
    assert!(!tried.has("torch", Strategy::WidenConda));
    assert!(tried.has("torch", Strategy::PypiOverride));

    let text = editor.render();
    assert!(text.contains("pytorch-gpu = \"==2.10.0\"\n"));
    assert!(text.contains("[pypi-options.dependency-overrides]"));
    assert!(text.contains("torch = \"==2.10.0\"  # retread:override"));
    assert_eq!(text.matches("torch = ").count(), 1);
}

#[test]
fn conda_widen_needed_sentineled_pin_takes_widen_tier() {
    let mut editor = open(
        "[dependencies]\nmujoco = \"==3.5.0\"  # retread:pin 2026-07-07 conda-boundary\n",
    );
    let mut tried = TriedState::default();
    let mut planner = RepairPlanner::new("default".into());

    let conflict = widen_needed("mujoco", "3.10.3", "==3.5.0");
    let out = planner
        .repair(&mut editor, &mut tried, &bare(), &conflict, 1)
        .unwrap();
    assert_eq!(out.attempt.strategy, "widen-conda");
}

#[test]
fn backend_closure_conflict_writes_pack_table_not_workspace() {
    let manifest_text = "[dependencies]\ntorch = \"==2.10.0\"\n\n\
         [feature.gpu.dependencies]\n\
         isaac-pack-latest = { path = \"./pypi-packs/isaac-pack-latest\" }\n";
    let mut editor = open(manifest_text);
    let mut tried = TriedState::default();
    let mut planner = RepairPlanner::new("default".into());
    let facts = facts(
        vec![feature("gpu", &["isaac-pack-latest"])],
        Vec::new(),
        vec![(
            pack_dir("isaac-pack-latest"),
            PackFacts {
                overrides: Vec::new(),
                exact_pins: Vec::new(),
                env_dependencies: vec![("torch".to_string(), vec!["==2.10.0".to_string()])],
            },
        )],
    );

    let conflict = Conflict::CondaWidenNeeded {
        package: "torch".into(),
        op: ">=".into(),
        floor: "2.11.0".into(),
        conda_version: "==2.10.0".into(),
        requiring_chain: Vec::new(),
        pack_name: Some("isaac-pack-latest".into()),
    };
    let out = planner
        .repair(&mut editor, &mut tried, &facts, &conflict, 1)
        .unwrap();
    assert_eq!(out.attempt.strategy, "pypi_override");
    assert!(
        out.applied.is_empty(),
        "a backend-closure override must not touch any workspace table"
    );
    let po = out.pack_override.expect("expected a pack-override write");
    assert_eq!(po.bundle, "isaac-pack-latest");
    assert_eq!(po.package, "torch");
    assert_eq!(po.spec, "==2.10.0");
    assert_eq!(po.pack_pixi, format!("{}/pixi.toml", pack_dir("isaac-pack-latest")));
    assert_eq!(editor.render(), manifest_text);
}

#[test]
fn conda_range_vs_pack_pin_injects_workspace_range_into_pack_not_workspace() {
    let mut editor = open(SETUPTOOLS);
    let mut tried = TriedState::default();
    let mut planner = RepairPlanner::new("default".into());

    let conflict = Conflict::CondaRangeVsPackPin {
        package: "setuptools".into(),
        conda_range: ">=68,<81".into(),
        pack_demand: "83.0.0".into(),
        pack_name: "isaaclab-2.3x-pack".into(),
    };
    let out = planner
        .repair(&mut editor, &mut tried, &setuptools_facts(Vec::new()), &conflict, 1)
        .unwrap();
    assert_eq!(out.attempt.strategy, "pypi_override");
    assert_eq!(out.attempt.old_spec.as_deref(), Some("==83.0.0"));
    assert_eq!(out.attempt.new_spec.as_deref(), Some(">=68,<81"));
    assert!(
        out.applied.is_empty(),
        "must not touch the workspace manifest"
    );
    let po = out.pack_override.expect("expected a pack-override write");
    assert_eq!(po.bundle, "isaaclab-2.3x-pack");
    assert_eq!(po.package, "setuptools");
    assert_eq!(po.spec, ">=68,<81");
    assert_eq!(po.pack_pixi, format!("{}/pixi.toml", pack_dir("isaaclab-2.3x-pack")));
    assert_eq!(editor.render(), SETUPTOOLS);
}

#[test]
fn conda_range_vs_pack_pin_fires_once_per_distinct_pack_owner() {
    let mut editor = open(SETUPTOOLS);
    let mut tried = TriedState::default();
    let mut planner = RepairPlanner::new("default".into());
    let facts = facts(
        vec![feature("gpu", &["isaaclab-2.3x-pack", "unitree-rl-gym"])],
        Vec::new(),
        Vec::new(),
    );

    let conflict_for = |pack: &str| Conflict::CondaRangeVsPackPin {
        package: "setuptools".into(),
        conda_range: ">=68,<81".into(),
        pack_demand: "83.0.0".into(),
        pack_name: pack.into(),
    };

    let out1 = planner
        .repair(
            &mut editor,
            &mut tried,
            &facts,
            &conflict_for("isaaclab-2.3x-pack"),
            1,
        )
        .expect("first pack owner must repair");
    assert_eq!(
        out1.pack_override.as_ref().unwrap().bundle,
        "isaaclab-2.3x-pack"
    );
    let out2 = planner
        .repair(&mut editor, &mut tried, &facts, &conflict_for("unitree-rl-gym"), 2)
        .expect("a DIFFERENT pack owner of the same package must also repair");
    assert_eq!(
        out2.pack_override.as_ref().unwrap().bundle,
        "unitree-rl-gym"
    );
    assert!(
        planner
            .repair(
                &mut editor,
                &mut tried,
                &facts,
                &conflict_for("isaaclab-2.3x-pack"),
                3
            )
            .is_err(),
        "a repeat of an already-repaired pair must exhaust (repair didn't stick)"
    );
}

#[test]
fn conda_range_vs_pack_pin_refuses_when_pack_is_not_ours() {
    let mut editor = open("[dependencies]\nsetuptools = \">=68,<81\"\n");
    let mut tried = TriedState::default();
    let mut planner = RepairPlanner::new("default".into());

    let conflict = Conflict::CondaRangeVsPackPin {
        package: "setuptools".into(),
        conda_range: ">=68,<81".into(),
        pack_demand: "83.0.0".into(),
        pack_name: "not-a-real-pack".into(),
    };
    let result = planner.repair(&mut editor, &mut tried, &bare(), &conflict, 1);
    assert!(result.is_err());
}

#[test]
fn conda_range_vs_pack_pin_exempts_abi_anchors() {
    let mut editor = open("[dependencies]\npython = \">=3.10,<3.12\"\n");
    let mut tried = TriedState::default();
    let mut planner = RepairPlanner::new("default".into());

    let conflict = Conflict::CondaRangeVsPackPin {
        package: "python".into(),
        conda_range: ">=3.10,<3.12".into(),
        pack_demand: "3.13.0".into(),
        pack_name: "isaaclab-2.3x-pack".into(),
    };
    let result = planner.repair(&mut editor, &mut tried, &bare(), &conflict, 1);
    assert!(result.is_err(), "ABI anchors must never be auto-repaired");
}

#[test]
fn nested_conda_cap_narrows_an_existing_pack_override() {
    let mut editor = open(SETUPTOOLS);
    let mut tried = TriedState::default();
    let mut planner = RepairPlanner::new("default".into());
    let facts = setuptools_facts(vec![with_overrides(
        "isaaclab-2.3x-pack",
        &[("setuptools", ">=68,<81")],
    )]);

    let out = planner
        .repair(&mut editor, &mut tried, &facts, &nested_cap("80.10.2"), 1)
        .expect("must narrow the existing override, not exhaust");
    assert_eq!(out.attempt.strategy, "pypi_override");
    assert_eq!(out.attempt.old_spec.as_deref(), Some(">=68,<81"));
    assert_eq!(out.attempt.new_spec.as_deref(), Some(">=68,<76"));
    let po = out.pack_override.expect("expected a pack-override write");
    assert_eq!(po.bundle, "isaaclab-2.3x-pack");
    assert_eq!(po.package, "setuptools");
    assert_eq!(po.spec, ">=68,<76");
}

#[test]
fn nested_conda_cap_refuses_to_originate_a_range_from_scratch() {
    let mut editor = open(SETUPTOOLS);
    let mut tried = TriedState::default();
    let mut planner = RepairPlanner::new("default".into());
    let result = planner.repair(
        &mut editor,
        &mut tried,
        &setuptools_facts(Vec::new()),
        &nested_cap("80.10.2"),
        1,
    );
    assert!(result.is_err());
}

#[test]
fn nested_conda_cap_convergence_loop_is_bounded_by_oscillation_guard() {
    let mut editor = open(SETUPTOOLS);
    let mut tried = TriedState::default();
    let mut planner = RepairPlanner::new("default".into());
    let facts = setuptools_facts(vec![with_overrides(
        "isaaclab-2.3x-pack",
        &[("setuptools", ">=68,<76")],
    )]);
    planner
        .repair(&mut editor, &mut tried, &facts, &nested_cap("75.9.0"), 1)
        .expect("first narrowing attempt succeeds even though it's a no-op change");
    assert!(
        planner
            .repair(&mut editor, &mut tried, &facts, &nested_cap("75.9.0"), 2)
            .is_err(),
        "repeating the identical narrowed spec must be refused, not loop forever"
    );
}

#[test]
fn pack_override_scoped_to_consuming_env_uses_gpu_pin_not_holosoma() {
    let manifest_text = r#"[dependencies]

[feature.gpu.dependencies]
pytorch-gpu = "==2.10.0"  # retread:pin 2026-07-08 conda-boundary

[feature.holosoma.dependencies]
pytorch-gpu = "==9.9.9"

[feature.isaaclab-latest.dependencies]
isaac-pack-latest = { path = "./pypi-packs/isaac-pack-latest" }

[environments]
isaaclab-gpu-latest = { features = ["gpu", "isaaclab-latest"] }
holosoma-gpu = { features = ["holosoma"] }
"#;
    let mut editor = open(manifest_text);
    let mut tried = TriedState::default();
    let mut map = PypiToCondaMap::new();
    map.insert("torch".to_string(), vec!["pytorch-gpu".to_string()]);
    let mut planner = RepairPlanner::new("default".into()).with_conda_name_map(map);
    let facts = facts(
        vec![
            feature("gpu", &[]),
            feature("holosoma", &[]),
            feature("isaaclab-latest", &["isaac-pack-latest"]),
        ],
        vec![
            environment("isaaclab-gpu-latest", &["gpu", "isaaclab-latest"], false),
            environment("holosoma-gpu", &["holosoma"], false),
        ],
        vec![(
            pack_dir("isaac-pack-latest"),
            PackFacts {
                overrides: Vec::new(),
                exact_pins: Vec::new(),
                env_dependencies: vec![(
                    "pytorch-gpu".to_string(),
                    vec!["==2.10.0".to_string()],
                )],
            },
        )],
    );

    let conflict = Conflict::CondaWidenNeeded {
        package: "cuda-bindings".into(),
        op: ">=".into(),
        floor: "13.0.3".into(),
        conda_version: ">=12".into(),
        requiring_chain: vec!["torch".into(), "isaacsim-core".into()],
        pack_name: Some("isaac-pack-latest".into()),
    };
    let out = planner
        .repair(&mut editor, &mut tried, &facts, &conflict, 1)
        .unwrap();
    assert_eq!(out.attempt.strategy, "pypi_override");
    let po = out.pack_override.expect("expected a pack-override write");
    assert_eq!(po.package, "torch");
    assert_eq!(
        po.spec, "==2.10.0",
        "must use feature.gpu's consuming-env pin, NOT holosoma's ==9.9.9"
    );
    assert!(out.applied.is_empty());
    assert_eq!(editor.render(), manifest_text);
}

#[test]
fn relax_preference_pypi_restores_widen_first_even_for_user_pin() {
    let mut editor = open("[dependencies]\ntorch = \"==2.10.0\"\n");
    let mut tried = TriedState::default();
    let mut planner =
        RepairPlanner::new("default".into()).with_relax_preference(RelaxPreference::Pypi);

    let conflict = widen_needed("torch", "2.11.0", "==2.10.0");
    let out = planner
        .repair(&mut editor, &mut tried, &bare(), &conflict, 1)
        .unwrap();
    assert_eq!(out.attempt.strategy, "widen-conda");
}

fn deps_from_facts(pins: &[&str]) -> Facts {
    facts(
        vec![feature("pm", &["deps-from-pack"])],
        vec![environment("pm", &["pm"], false)],
        vec![with_exact_pins("deps-from-pack", pins)],
    )
}

const DEPS_FROM: &str = "[dependencies]\n\n\
     [feature.pm.dependencies]\n\
     deps-from-pack = { path = \"./pypi-packs/deps-from-pack\" }\n\n\
     [environments]\n\
     pm = { features = [\"pm\"] }\n";

fn sentry_pin() -> Conflict {
    Conflict::DepsFromPin {
        package: "sentry-sdk".into(),
        pinned_version: "1.38.0".into(),
        op: ">=".into(),
        floor: "2.0.0".into(),
        requirer: "wandb".into(),
        pack_name: Some("deps-from-pack".into()),
    }
}

fn hydra_pin() -> Conflict {
    Conflict::NoWheelTransitive {
        package: "antlr4-python3-runtime".into(),
        range: ">=4.9,<=4.9.3".into(),
        requirer: "hydra-core".into(),
        requirer_pin: "1.3.2".into(),
        pack_name: Some("deps-from-pack".into()),
    }
}

#[test]
fn deps_from_pin_conflict_relaxes_owned_exact_pin_to_floor() {
    let mut editor = open(DEPS_FROM);
    let mut tried = TriedState::default();
    let mut planner = RepairPlanner::new("default".into());
    let facts = deps_from_facts(&["sentry-sdk", "wandb"]);
    let out = planner
        .repair(&mut editor, &mut tried, &facts, &sentry_pin(), 1)
        .expect("deps-from-owned exact pin must relax, not exhaust");
    assert_eq!(out.attempt.strategy, "pypi_override");
    assert_eq!(out.attempt.package, "sentry-sdk");
    assert_eq!(out.attempt.new_spec.as_deref(), Some(">=2.0.0"));
    assert!(
        out.applied.is_empty(),
        "workspace manifest must stay untouched"
    );

    let po = out.pack_override.expect("expected a pack-override write");
    assert_eq!(po.bundle, "deps-from-pack");
    assert_eq!(po.package, "sentry-sdk");
    assert_eq!(po.spec, ">=2.0.0");
    assert_eq!(editor.render(), DEPS_FROM);
}

#[test]
fn deps_from_pin_conflict_refuses_non_deps_from_participant() {
    let mut editor = open(DEPS_FROM);
    let mut tried = TriedState::default();
    let mut planner = RepairPlanner::new("default".into());
    let err = planner
        .repair(&mut editor, &mut tried, &deps_from_facts(&["numpy"]), &sentry_pin(), 1)
        .expect_err("non-deps-from-owned pin must not be auto-relaxed");
    assert_eq!(err, "sentry-sdk");
}

#[test]
fn deps_from_pin_conflict_exempts_abi_anchor_before_any_disk_io() {
    let mut editor = open("[dependencies]\n");
    let mut tried = TriedState::default();
    let mut planner = RepairPlanner::new("default".into());

    let conflict = Conflict::DepsFromPin {
        package: "python".into(),
        pinned_version: "3.11.15".into(),
        op: ">=".into(),
        floor: "3.12".into(),
        requirer: "some-pkg".into(),
        pack_name: Some("no-such-pack".into()),
    };
    let err = planner
        .repair(&mut editor, &mut tried, &bare(), &conflict, 1)
        .expect_err("ABI anchor must never be relaxed");
    assert_eq!(err, "python");
}

#[test]
fn no_wheel_transitive_relaxes_owned_requirer_pin_to_floor() {
    let mut editor = open(DEPS_FROM);
    let mut tried = TriedState::default();
    let mut planner = RepairPlanner::new("default".into());
    let out = planner
        .repair(&mut editor, &mut tried, &deps_from_facts(&["hydra-core"]), &hydra_pin(), 1)
        .expect("deps-from-owned requirer pin must relax, not exhaust");
    assert_eq!(out.attempt.strategy, "pypi_override");
    assert_eq!(out.attempt.package, "hydra-core");
    assert_eq!(out.attempt.new_spec.as_deref(), Some(">=1.3.2"));
    assert!(
        out.applied.is_empty(),
        "workspace manifest must stay untouched"
    );

    let po = out.pack_override.expect("expected a pack-override write");
    assert_eq!(po.bundle, "deps-from-pack");
    assert_eq!(po.package, "hydra-core");
    assert_eq!(po.spec, ">=1.3.2");
    assert_eq!(editor.render(), DEPS_FROM);
}

#[test]
fn no_wheel_transitive_refuses_non_deps_from_requirer() {
    let mut editor = open(DEPS_FROM);
    let mut tried = TriedState::default();
    let mut planner = RepairPlanner::new("default".into());
    let err = planner
        .repair(&mut editor, &mut tried, &deps_from_facts(&["numpy"]), &hydra_pin(), 1)
        .expect_err("non-deps-from-owned requirer pin must not be auto-relaxed");
    assert_eq!(err, "hydra-core");
}

#[test]
fn no_wheel_transitive_exempts_abi_anchor_before_any_disk_io() {
    let mut editor = open("[dependencies]\n");
    let mut tried = TriedState::default();
    let mut planner = RepairPlanner::new("default".into());

    let conflict = Conflict::NoWheelTransitive {
        package: "antlr4-python3-runtime".into(),
        range: ">=4.9,<=4.9.3".into(),
        requirer: "python".into(),
        requirer_pin: "3.11.15".into(),
        pack_name: Some("no-such-pack".into()),
    };
    let err = planner
        .repair(&mut editor, &mut tried, &bare(), &conflict, 1)
        .expect_err("ABI anchor must never be relaxed");
    assert_eq!(err, "python");
}

#[test]
fn classify_mention_ownership_abi_anchor_wins_regardless_of_pack() {
    let editor = open("[dependencies]\n");
    let planner = RepairPlanner::new("default".into());
    assert_eq!(
        planner.classify_mention_ownership(&editor, &bare(), Some("some-pack"), "python"),
        Ownership::AbiAnchor
    );
    assert_eq!(
        planner.classify_mention_ownership(&editor, &bare(), None, "python"),
        Ownership::AbiAnchor
    );
}

#[test]
fn classify_mention_ownership_workspace_pin_when_no_pack_context() {
    let editor = open("[dependencies]\nnumpy = \">=1.26,<2\"\n");
    let planner = RepairPlanner::new("default".into());
    assert_eq!(
        planner.classify_mention_ownership(&editor, &bare(), None, "numpy"),
        Ownership::WorkspacePin
    );
    assert_eq!(
        planner.classify_mention_ownership(&editor, &bare(), None, "some-other-package"),
        Ownership::Unowned
    );
}

#[test]
fn classify_mention_ownership_unowned_when_pack_unresolvable() {
    let editor = open("[dependencies]\n");
    let planner = RepairPlanner::new("default".into());
    assert_eq!(
        planner.classify_mention_ownership(&editor, &bare(), Some("no-such-pack"), "setuptools"),
        Ownership::Unowned
    );
}

const ONE_PACK: &str = "[dependencies]\n\n\
     [feature.gpu.dependencies]\n\
     \"isaaclab-2.3x-pack\" = { path = \"./pypi-packs/isaaclab-2.3x-pack\" }\n";

#[test]
fn classify_mention_ownership_auto_routed_pack_pin_when_named_pack_resolves() {
    let editor = open(ONE_PACK);
    let planner = RepairPlanner::new("default".into());
    assert_eq!(
        planner.classify_mention_ownership(
            &editor,
            &setuptools_facts(Vec::new()),
            Some("isaaclab-2.3x-pack"),
            "setuptools"
        ),
        Ownership::AutoRoutedPackPin
    );
}

#[test]
fn classify_mention_ownership_ledgered_override_when_a_prior_repair_already_wrote_one() {
    let editor = open(ONE_PACK);
    let planner = RepairPlanner::new("default".into());
    let facts = setuptools_facts(vec![with_overrides(
        "isaaclab-2.3x-pack",
        &[("setuptools", ">=68,<81")],
    )]);
    assert_eq!(
        planner.classify_mention_ownership(
            &editor,
            &facts,
            Some("isaaclab-2.3x-pack"),
            "setuptools"
        ),
        Ownership::LedgeredOverride
    );
}

#[test]
fn classify_mention_ownership_deps_from_exact_pin_when_bundle_owns_it() {
    let editor = open(DEPS_FROM);
    let planner = RepairPlanner::new("default".into());
    assert_eq!(
        planner.classify_mention_ownership(
            &editor,
            &deps_from_facts(&["sentry-sdk"]),
            Some("deps-from-pack"),
            "sentry-sdk"
        ),
        Ownership::DepsFromExactPin
    );
}

fn mention(package: &str, spec: &str, requirer: Option<&str>) -> Mention {
    Mention {
        package: package.into(),
        spec: spec.into(),
        requirer: requirer.map(str::to_string),
    }
}

#[test]
fn generate_fallback_candidates_orders_by_doctrine_tier() {
    let editor = open(SETUPTOOLS);
    let planner = RepairPlanner::new("default".into());
    let facts = setuptools_facts(vec![with_overrides(
        "isaaclab-2.3x-pack",
        &[("pillow", ">=9.2.0,<11.3.0")],
    )]);
    let mentions = vec![
        mention("pillow", "<11.0,>=9.2.0", Some("moviepy")),
        mention("moviepy", "==2.2.1", None),
        mention("pillow", "<10.0", Some("some-other-dep")),
        mention("setuptools", "==83.0.0", Some("isaaclab-2.3x-pack")),
    ];
    let candidates: Vec<FallbackCandidate> = planner.generate_fallback_candidates(
        &editor,
        &facts,
        Some("isaaclab-2.3x-pack"),
        &mentions,
    );
    let tiers: Vec<u8> = candidates.iter().map(|c| c.tier).collect();
    let mut sorted = tiers.clone();
    sorted.sort();
    assert_eq!(tiers, sorted, "candidates must already be in tier order");
    assert!(
        tiers.contains(&1),
        "expected a tier-1 (workspace-range) candidate: {candidates:?}"
    );
    assert!(
        tiers.contains(&2),
        "expected a tier-2 (ledgered-override intersect) candidate: {candidates:?}"
    );
    assert!(
        tiers.contains(&5),
        "expected a tier-5 (un-route) candidate: {candidates:?}"
    );
}

#[test]
fn terminal_unroute_writes_scope_to_failing_env_and_respect_workspace_pins() {
    let manifest_text = "[environments]\n\
         viral-gpu = { features = [\"isaaclab-viral\"], no-default-feature = true }\n\
         other-env = { features = [\"other\"], no-default-feature = true }\n\
         \n\
         [feature.isaaclab-viral.dependencies]\n\
         pytorch-gpu = \"==2.7.0\"\n\
         \"isaaclab-2.3x-pack\" = { path = \"./pypi-packs/isaaclab-2.3x-pack\" }\n\
         \n\
         [feature.other.dependencies]\n\
         \"other-pack\" = { path = \"./pypi-packs/other-pack\" }\n";
    let editor = open(manifest_text);
    let planner = RepairPlanner::new("default".into());
    let facts = facts(
        vec![
            feature("isaaclab-viral", &["isaaclab-2.3x-pack"]),
            feature("other", &["other-pack"]),
        ],
        vec![
            environment("viral-gpu", &["isaaclab-viral"], true),
            environment("other-env", &["other"], true),
        ],
        Vec::new(),
    );
    let stderr = "Error:   × failed to solve the pypi requirements of \
                  environment 'viral-gpu' for platform 'linux-64'";

    let writes = planner.terminal_unroute_writes(&editor, &facts, stderr, "huggingface-hub");
    assert_eq!(
        writes.iter().map(|w| w.bundle.as_str()).collect::<Vec<_>>(),
        vec!["isaaclab-2.3x-pack"],
        "only the failing env's pack, not other-env's"
    );
    assert!(writes.iter().all(|w| w.kind == PackOverrideKind::Unroute));

    assert!(
        planner
            .terminal_unroute_writes(&editor, &facts, stderr, "pytorch")
            .is_empty()
    );
    assert!(
        planner
            .terminal_unroute_writes(&editor, &facts, stderr, "python")
            .is_empty()
    );
    let writes_all =
        planner.terminal_unroute_writes(&editor, &facts, "some unrelated error", "huggingface-hub");
    assert_eq!(writes_all.len(), 2, "{writes_all:?}");
}

#[test]
fn tier1_workspace_pin_matches_via_name_family_pytorch_gpu() {
    let manifest_text = "[feature.pm-isaaclab.dependencies]\n\
         pytorch-gpu = \"==2.7.0\"\n\
         \"protomotions-deps-pack\" = { path = \"./pypi-packs/protomotions-deps-pack\" }\n";
    let editor = open(manifest_text);
    let facts = facts(
        vec![feature("pm-isaaclab", &["protomotions-deps-pack"])],
        Vec::new(),
        Vec::new(),
    );
    let parser = RegexConflictParser::new();

    let text = "protomotions-deps-pack 0.1.0 would require\n\
         pytorch ==2.10.0, which cannot be installed because there are no viable options\n";
    let mentions = parser.extract_generic_mentions(text);
    let planner = RepairPlanner::new("default".into());
    let candidates = planner.generate_fallback_candidates(
        &editor,
        &facts,
        Some("protomotions-deps-pack"),
        &mentions,
    );
    let cand = candidates
        .iter()
        .find(|c| c.package == "pytorch" && c.tier == 1)
        .expect("tier 1 must see the pytorch-gpu pin for a pytorch mention");
    assert_eq!(cand.new_spec, "==2.7.0");
    assert_eq!(cand.pack_name, "protomotions-deps-pack");

    let text_torch = "protomotions-deps-pack 0.1.0 would require\n\
         torch ==2.10.0, which cannot be installed because there are no viable options\n";
    let mentions_torch = parser.extract_generic_mentions(text_torch);
    let mut map = PypiToCondaMap::new();
    map.insert("torch".to_string(), vec!["pytorch".to_string()]);
    let planner_mapped = RepairPlanner::new("default".into()).with_conda_name_map(map);
    let candidates_torch = planner_mapped.generate_fallback_candidates(
        &editor,
        &facts,
        Some("protomotions-deps-pack"),
        &mentions_torch,
    );
    let cand_torch = candidates_torch
        .iter()
        .find(|c| c.package == "torch" && c.tier == 1)
        .expect("tier 1 must map pypi `torch` to the pytorch-gpu workspace pin");
    assert_eq!(
        cand_torch.new_spec, "==2.7.0",
        "the injected override must target the workspace's 2.7.0 line"
    );
}

#[test]
fn generic_fallback_repair_returns_none_when_no_mentions_found() {
    let editor = open("[dependencies]\n");
    let mut tried = TriedState::default();
    let mut planner = RepairPlanner::new("default".into());
    assert!(
        planner
            .generic_fallback_repair(&editor, &mut tried, &bare(), "totally unrelated text", 1)
            .is_none()
    );
}

#[test]
fn ledger_is_read_with_its_runs_under_the_present_name() {
    let mut written = SolveLedger::empty("old.toml".into());
    written.version = 7;
    let _ = written.start_run("now".into(), "gpu".into(), "hash".into(), None);
    let read = SolveLedger::load(Some(written), "pixi.toml".into());
    assert_eq!(read.version, 1);
    assert_eq!(read.manifest, "pixi.toml");
    assert_eq!(read.runs.len(), 1);
    assert_eq!(read.runs[0].env, "gpu");
    let fresh = SolveLedger::load(None, "pixi.toml".into());
    assert_eq!((fresh.version, fresh.runs.len()), (1, 0));
    assert_eq!(fresh.manifest, "pixi.toml");
}

#[test]
fn refused_repair_leaves_the_text_of_the_manifest() {
    let text = "# a workspace\n[dependencies]\n# pinned\npython = \"3.11\"\nnumpy = \"==1\"\n";
    let mut editor = open(text);
    let mut tried = TriedState::default();
    let mut planner = RepairPlanner::new("default".into());
    let conflict = Conflict::CondaBoundary {
        package: "python".into(),
        version: "3.12".into(),
    };
    let known = facts(Vec::new(), Vec::new(), Vec::new());
    let result = planner.repair(&mut editor, &mut tried, &known, &conflict, 1);
    assert!(result.is_err());
    assert_eq!(editor.render(), text);
}
