use retread_solve::solve_check::{extract_blocking_chains, extract_blocking_dep_names, SolveOutcome};

#[test]
fn extract_blocking_dep_names_pulls_top_level_only() {
    let unsat = vec![
        "The following packages are incompatible\n\
         ├─ triton >=3.7.0,<3.8 cannot be installed because there are no viable options:\n\
         │  ├─ triton 3.7.0 | 3.7.0 would require\n\
         │  │  └─ cuda-version >=13.0,<14, which cannot be installed because there are no viable options:\n\
         │  │     ├─ cuda-version 13.2, which conflicts with the versions reported above.\n\
         └─ another-pkg >=1.0 cannot be installed because there are no viable options:\n\
         │  └─ stuff"
            .to_string(),
    ];
    let blocking = extract_blocking_dep_names(&unsat);
    assert!(
        blocking.contains(&"triton".to_string()),
        "expected triton in {blocking:?}"
    );
    assert!(
        blocking.contains(&"another-pkg".to_string()),
        "expected another-pkg in {blocking:?}"
    );
    assert!(
        !blocking.contains(&"cuda-version".to_string()),
        "cuda-version is nested, not top-level: {blocking:?}"
    );
}

#[test]
fn extract_blocking_dep_names_dedups() {
    let unsat = vec!["├─ pkg cannot be installed\n├─ pkg also cannot be installed".to_string()];
    let blocking = extract_blocking_dep_names(&unsat);
    assert_eq!(blocking, vec!["pkg".to_string()]);
}

#[test]
fn extract_blocking_chains_captures_versions_and_transitive() {
    let unsat = vec![
        "The following packages are incompatible\n\
         └─ torchvision >=0.22.0 cannot be installed because there are no viable options:\n   \
            ├─ torchvision 0.25.0 | 0.25.0 | 0.26.0 would require\n   \
            │  └─ pytorch >=2.10.0,<2.11.0a0, which cannot be installed because there are no viable options:\n   \
            │     └─ pytorch 2.10.0 would require\n   \
            │        └─ cuda-version >=12.9,<13, for which no candidates were found."
            .to_string(),
    ];
    let chains = extract_blocking_chains(&unsat);
    assert_eq!(chains.len(), 1);
    let c = &chains[0];
    assert_eq!(c.name, "torchvision");
    assert_eq!(c.current_spec, ">=0.22.0");
    assert!(
        c.rejected_versions.contains(&"0.25.0".to_string())
            && c.rejected_versions.contains(&"0.26.0".to_string()),
        "rejected_versions = {:?}",
        c.rejected_versions,
    );
    assert!(
        c.transitive_requirement.starts_with("pytorch "),
        "transitive_requirement = {:?}",
        c.transitive_requirement,
    );
    assert_eq!(c.rejected_versions, vec!["0.25.0", "0.26.0", "2.10.0"]);
}

#[test]
fn extract_blocking_chains_handles_multiple_top_levels() {
    let unsat = vec![
        "The following packages are incompatible\n\
         ├─ pkga >=1 cannot be installed because there are no viable options:\n   \
            └─ stuff\n\
         └─ pkgb cannot be installed because there are no viable options:\n   \
            └─ more stuff"
            .to_string(),
    ];
    let chains = extract_blocking_chains(&unsat);
    let names: Vec<&str> = chains.iter().map(|c| c.name.as_str()).collect();
    assert!(names.contains(&"pkga"), "names = {names:?}");
    assert!(names.contains(&"pkgb"), "names = {names:?}");
}

#[test]
fn extract_blocking_chains_empty_fields_when_unparseable() {
    let unsat = vec!["├─ foo cannot be installed because reasons".to_string()];
    let chains = extract_blocking_chains(&unsat);
    assert_eq!(chains.len(), 1);
    assert_eq!(chains[0].name, "foo");
    assert!(chains[0].rejected_versions.is_empty());
    assert!(chains[0].transitive_requirement.is_empty());
}

#[test]
fn extract_blocking_dep_names_skips_specifier_tokens() {
    let unsat = vec!["├─ >=1.0 noisy".to_string()];
    assert!(extract_blocking_dep_names(&unsat).is_empty());
}

#[test]
fn solve_outcome_unreachable_default() {
    let o = SolveOutcome::unreachable();
    assert!(!o.satisfiable);
    assert_eq!(o.unsat_explanations.len(), 1);
}

#[test]
fn run_solve_check_with_no_channels_abstains() {
    let outcome = SolveOutcome::of_check(Vec::new(), 1, 0, None);
    assert!(outcome.skipped, "no channels -> the check must abstain");
    assert!(!outcome.satisfiable, "skipped is not a sat verdict either");
    assert!(outcome.terminal_classification.is_none());
    assert_eq!(
        outcome.unsat_explanations,
        vec!["solve-check skipped: no repodata available from disk cache"]
    );
}

#[test]
fn check_that_ran_tells_its_verdict() {
    let good = SolveOutcome::of_check(vec!["conda-forge".to_string()], 2, 9, None);
    assert!(good.satisfiable && !good.skipped);
    assert!(good.unsat_explanations.is_empty());
    assert_eq!((good.specs_count, good.records_count), (2, 9));
    let bad = SolveOutcome::of_check(
        vec!["conda-forge".to_string()],
        2,
        9,
        Some(vec!["no way".to_string()]),
    );
    assert!(!bad.satisfiable && !bad.skipped);
    assert_eq!(bad.unsat_explanations, vec!["no way"]);
    assert_eq!(bad.channels_consulted, vec!["conda-forge"]);
}

#[test]
fn package_that_can_be_installed_needs_no_spec_to_say_so() {
    let chains = extract_blocking_chains(&vec![
        "├─ foo can be installed with any of the following options:".to_string(),
    ]);
    assert_eq!(chains.len(), 1);
    assert_eq!(chains[0].name, "foo");
    assert_eq!(chains[0].current_spec, "");
    assert!(chains[0].rejected_versions.is_empty());
    assert_eq!(chains[0].transitive_requirement, "");
    assert!(chains[0].installable);
}

#[test]
fn chain_ends_where_its_sibling_begins() {
    let chains = extract_blocking_chains(&vec![
        "├─ a >=1 cannot be installed because x:\n\
         └─ b >=2 cannot be installed because y:\n   \
         └─ b 2.0 would require\n      \
         └─ c >=3, which cannot be installed"
            .to_string(),
    ]);
    assert_eq!(chains.len(), 2);
    assert_eq!(chains[0].name, "a");
    assert_eq!(chains[0].current_spec, ">=1");
    assert!(chains[0].rejected_versions.is_empty());
    assert_eq!(chains[0].transitive_requirement, "");
    assert!(!chains[0].installable);
    assert_eq!(chains[1].name, "b");
    assert_eq!(chains[1].current_spec, ">=2");
    assert_eq!(chains[1].rejected_versions, vec!["2.0"]);
    assert_eq!(chains[1].transitive_requirement, "c >=3");
    assert!(!chains[1].installable);
}

#[test]
fn spec_is_what_follows_the_name() {
    let chains = extract_blocking_chains(&vec![
        "├─  größe[cuda] >=1,<2 cannot be installed because x:".to_string(),
    ]);
    assert_eq!(chains.len(), 1);
    assert_eq!(chains[0].name, "größe");
    assert_eq!(chains[0].current_spec, ">=1,<2");
    assert!(!chains[0].installable);
}
