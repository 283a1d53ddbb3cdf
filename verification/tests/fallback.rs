use retread_solve::solve::ledger::TriedState;
use retread_solve::solve::manifest::ManifestEditor;
use retread_solve::solve::parse::Mention;
use retread_solve::solve::repair::{PackOverrideKind, RepairPlanner};
use retread_solve::solve::unroute::environment_of;
use retread_solve::solve::workspace::{Facts, FeatureDef, WorkspaceManifest};

fn mention(package: &str, spec: &str, requirer: &str) -> Mention {
    Mention {
        package: package.into(),
        spec: spec.into(),
        requirer: Some(requirer.into()),
    }
}

/// A workspace with two packs in one feature.
fn two_packs() -> (ManifestEditor, Facts) {
    let text = "[dependencies]\n\n\
         [feature.pm-isaaclab.dependencies]\n\
         numpy = \">=1.26,<1.27\"\n\
         \"protomotions-deps-pack\" = { path = \"./pypi-packs/protomotions-deps-pack\" }\n\
         \"isaaclab-2.3x-pack\" = { path = \"./pypi-packs/isaaclab-2.3x-pack\" }\n";
    let editor = ManifestEditor::open("w/pixi.toml".to_string(), "w".to_string(), text).unwrap();
    let facts = Facts {
        now: "2026-07-08T00:00:00Z".to_string(),
        today: "2026-07-08".to_string(),
        workspace: Some(WorkspaceManifest {
            path_dependencies: Vec::new(),
            features: vec![(
                "pm-isaaclab".to_string(),
                FeatureDef {
                    path_dependencies: ["protomotions-deps-pack", "isaaclab-2.3x-pack"]
                        .iter()
                        .map(|p| (p.to_string(), format!("./pypi-packs/{p}")))
                        .collect(),
                },
            )],
            environments: Vec::new(),
        }),
        packs: Vec::new(),
    };
    (editor, facts)
}

#[test]
fn overlapping_ranges_of_two_packs_float() {
    let (editor, facts) = two_packs();
    let mut tried = TriedState::default();
    let mut planner = RepairPlanner::new("default".into());
    let mentions = vec![
        mention("wrapt", ">=1.16.0,<3", "isaaclab-2.3x-pack"),
        mention("wrapt", ">=2.2.2,<3", "protomotions-deps-pack"),
    ];
    let applied = planner
        .repair_mentions_batch(&editor, &mut tried, &facts, Some("isaaclab-2.3x-pack"), &mentions, 1)
        .expect("actionable")
        .expect("applied");
    let of_wrapt: Vec<_> = applied
        .iter()
        .filter(|(o, _)| o.attempt.package == "wrapt")
        .collect();
    assert_eq!(of_wrapt.len(), 1);
    let (outcome, po) = of_wrapt[0];
    assert_eq!(outcome.attempt.old_spec.as_deref(), Some(">=1.16.0,<3"));
    assert_eq!(outcome.attempt.new_spec.as_deref(), Some(">=1.16.0"));
    let po = po.as_ref().unwrap();
    assert_eq!(po.bundle, "isaaclab-2.3x-pack");
    assert_eq!(po.kind, PackOverrideKind::Override);

    let again = planner
        .repair_mentions_batch(&editor, &mut tried, &facts, Some("isaaclab-2.3x-pack"), &mentions, 2)
        .expect("still recognised");
    assert_eq!(again.unwrap_err(), "wrapt");
}

#[test]
fn disjoint_ranges_of_two_packs_are_unrouted_on_both_sides() {
    let (editor, facts) = two_packs();
    let mut tried = TriedState::default();
    let mut planner = RepairPlanner::new("default".into());
    let mentions = vec![
        mention("wrapt", ">=1.16.0,<2", "isaaclab-2.3x-pack"),
        mention("wrapt", ">=2.2.2,<3", "protomotions-deps-pack"),
    ];
    let applied = planner
        .repair_mentions_batch(&editor, &mut tried, &facts, Some("isaaclab-2.3x-pack"), &mentions, 1)
        .expect("actionable")
        .expect("applied");
    let mut bundles: Vec<&str> = applied
        .iter()
        .filter(|(o, _)| o.attempt.package == "wrapt")
        .filter_map(|(_, po)| po.as_ref())
        .filter(|po| po.kind == PackOverrideKind::Unroute)
        .map(|po| po.bundle.as_str())
        .collect();
    bundles.sort();
    assert_eq!(bundles, vec!["isaaclab-2.3x-pack", "protomotions-deps-pack"]);
}

#[test]
fn disjoint_ranges_are_read_out_of_a_report() {
    let (editor, facts) = two_packs();
    let mut tried = TriedState::default();
    let mut planner = RepairPlanner::new("default".into());
    let stderr = "\
  × failed to solve
  ├─ isaaclab-2.3x-pack 0.54.2 would require
  │  └─ wrapt >=1.16.0,<2, which cannot be
  │     installed because there are no viable options
  └─ protomotions-deps-pack 3.1 would require
     └─ wrapt >=2.2.2,<3, for which no candidates were found
";
    let applied = planner
        .generic_fallback_repair_batch(&editor, &mut tried, &facts, stderr, 3)
        .expect("actionable")
        .expect("applied");
    let mut bundles: Vec<&str> = applied
        .iter()
        .filter_map(|(_, po)| po.as_ref())
        .filter(|po| po.package == "wrapt" && po.kind == PackOverrideKind::Unroute)
        .map(|po| po.bundle.as_str())
        .collect();
    bundles.sort();
    assert_eq!(bundles, vec!["isaaclab-2.3x-pack", "protomotions-deps-pack"]);
    assert!(applied.iter().all(|(o, _)| o.attempt.iter == 3));
}

#[test]
fn pin_of_the_users_own_wins_over_a_packs_exact_demand() {
    let (editor, facts) = two_packs();
    let planner = RepairPlanner::new("default".into());
    let mentions = vec![mention("numpy", "==2.4.6", "protomotions-deps-pack")];
    let candidates = planner.generate_fallback_candidates(
        &editor,
        &facts,
        Some("isaaclab-2.3x-pack"),
        &mentions,
    );
    let first = candidates.first().expect("a candidate");
    assert_eq!(first.tier, 1);
    assert_eq!(first.package, "numpy");
    assert_eq!(first.pack_name, "protomotions-deps-pack");
    assert_eq!(first.new_spec, ">=1.26,<1.27");
}

#[test]
fn pin_of_the_users_own_bars_the_tiers_below_it() {
    let (editor, facts) = two_packs();
    let planner = RepairPlanner::new("default".into());
    let mentions = vec![
        mention("numpy", "==1.25.0", "isaaclab-2.3x-pack"),
        mention("numpy", ">=2,<3", "protomotions-deps-pack"),
    ];
    let candidates = planner.generate_fallback_candidates(
        &editor,
        &facts,
        Some("isaaclab-2.3x-pack"),
        &mentions,
    );
    assert!(!candidates.is_empty());
    assert!(candidates.iter().all(|c| c.tier == 1));
}

#[test]
fn pin_of_what_needs_an_anchor_bars_its_unrouting() {
    let (editor, facts) = two_packs();
    let planner = RepairPlanner::new("default".into());
    let needs_anchor = |package: &str| {
        planner.generate_fallback_candidates(
            &editor,
            &facts,
            Some("isaaclab-2.3x-pack"),
            &vec![
                mention(package, "==3.6.0", "isaaclab-2.3x-pack"),
                mention("cuda-version", ">=12.9,<13", package),
            ],
        )
    };
    let free = needs_anchor("triton");
    let unrouted = free.iter().find(|c| c.tier == 6).expect("a candidate");
    assert_eq!(unrouted.package, "triton");
    assert_eq!(unrouted.pack_name, "isaaclab-2.3x-pack");
    assert!(needs_anchor("numpy").iter().all(|c| c.tier != 6));
}

#[test]
fn anchors_and_strangers_get_no_candidate() {
    let (editor, facts) = two_packs();
    let planner = RepairPlanner::new("default".into());
    let mentions = vec![
        mention("python", "==3.12.1", "isaaclab-2.3x-pack"),
        mention("stranger", ">=1", "nobody"),
    ];
    assert!(planner
        .generate_fallback_candidates(&editor, &facts, None, &mentions)
        .is_empty());
}

#[test]
fn failing_environment_is_read() {
    assert_eq!(
        environment_of(
            "failed to solve the pypi requirements of environment 'viral-gpu' for platform 'linux-64'"
        )
        .as_deref(),
        Some("viral-gpu")
    );
    assert!(environment_of("something else").is_none());
}

#[test]
fn last_resort_is_recorded() {
    let attempt = RepairPlanner::terminal_unroute_attempt(4, "huggingface-hub", "a-pack", "now");
    assert_eq!(attempt.iter, 4);
    assert_eq!(attempt.package, "huggingface-hub");
    assert_eq!(attempt.ts, "now");
    assert!(!attempt.failed);
}
