use retread_solve::solve::parse::{
    diagnose_abi_build_tail, diagnose_constrained_renamed_companion, tail, Conflict,
    ConflictParser, RegexConflictParser,
};

fn closure(bundle: &str, text: &str) -> String {
    format!(
        "Error:   × failed\n  ╰─▶ ErrorObject {{ code: ServerError(-32000), message: \"computing \
         uv closure for bundle `{bundle}`:\n      │ {text}\", data: None }}"
    )
}

#[test]
fn parses_range_pinned_conda_conflict_with_no_named_pack_to_workspace_widen() {
    const NO_PACK_NAME: &str = "setuptools >=68,<81 cannot be installed because there are no viable options:\n  would require setuptools ==83.0.0, which cannot be installed";
    let p = RegexConflictParser::new();
    assert_eq!(
        p.parse(NO_PACK_NAME),
        Some(Conflict::CondaWidenNeeded {
            package: "setuptools".into(),
            op: ">=".into(),
            floor: "83.0.0".into(),
            conda_version: "<81".into(),
            requiring_chain: Vec::new(),
            pack_name: None,
        })
    );
}

#[test]
fn colours_are_stripped_before_reading() {
    let p = RegexConflictParser::new();
    let colored = "\u{1b}[31mNo candidates were found for numpy == 2.3.1\u{1b}[0m";
    assert_eq!(
        p.strip_ansi(colored),
        "No candidates were found for numpy == 2.3.1"
    );
    assert_eq!(
        p.parse(&p.strip_ansi(colored)),
        Some(Conflict::NoCandidates {
            package: "numpy".into(),
            version: "2.3.1".into(),
        })
    );
    assert_eq!(p.parse("connection reset by peer"), None);
}

#[test]
fn named_pack_with_exact_demand_outside_the_range_is_told() {
    let p = RegexConflictParser::new();
    let text = "├─ isaaclab-2.3x-pack 0.54.2 would require\n│  └─ setuptools ==83.0.0, which cannot be installed\n└─ setuptools >=68,<81 cannot be installed because there are no viable options:\n";
    assert_eq!(
        p.parse(text),
        Some(Conflict::CondaRangeVsPackPin {
            package: "setuptools".into(),
            conda_range: ">=68,<81".into(),
            pack_demand: "83.0.0".into(),
            pack_name: "isaaclab-2.3x-pack".into(),
        })
    );
}

#[test]
fn upstream_pin_is_read_from_a_closure() {
    let p = RegexConflictParser::new();
    let text = closure(
        "protomotions-deps-pack",
        "Because wandb==0.25.0 depends on sentry-sdk>=2.0.0 and your project depends on \
         sentry-sdk==1.38.0, we can conclude that your project's requirements are \
         unsatisfiable. no generated conda constraint was named in uv's message",
    );
    assert_eq!(
        p.parse(&text),
        Some(Conflict::DepsFromPin {
            package: "sentry-sdk".into(),
            pinned_version: "1.38.0".into(),
            op: ">=".into(),
            floor: "2.0.0".into(),
            requirer: "wandb".into(),
            pack_name: Some("protomotions-deps-pack".into()),
        })
    );
    assert_eq!(
        p.extract_bundle_name(&text).as_deref(),
        Some("protomotions-deps-pack")
    );
}

#[test]
fn missing_wheel_is_read_from_a_closure() {
    let p = RegexConflictParser::new();
    let text = closure(
        "protomotions-deps-pack",
        "Because antlr4-python3-runtime>=4.9,<=4.9.3 has no usable wheels and because \
         hydra-core==1.3.2 depends on antlr4-python3-runtime==4.9.*, it fails. no generated \
         conda constraint was named in uv's message",
    );
    assert_eq!(
        p.parse(&text),
        Some(Conflict::NoWheelTransitive {
            package: "antlr4-python3-runtime".into(),
            range: ">=4.9,<=4.9.3".into(),
            requirer: "hydra-core".into(),
            requirer_pin: "1.3.2".into(),
            pack_name: Some("protomotions-deps-pack".into()),
        })
    );
}

#[test]
fn chain_of_requirers_is_walked_nearest_first() {
    let p = RegexConflictParser::new();
    let text = closure(
        "isaac-pack-latest",
        "Because torch==2.11.0 depends on cuda-bindings>=13.0.3,<14 and cuda-bindings>=12,<13 \
         it fails. And because torchvision==0.26.0 depends on cuda-bindings it fails. And \
         because isaacsim-core==6.0.0.1 depends on torch it fails. package `cuda-bindings` is \
         named in the conflict but conda pins `cuda-bindings >=12,<13`",
    );
    assert_eq!(
        p.parse(&text),
        Some(Conflict::CondaWidenNeeded {
            package: "cuda-bindings".into(),
            op: ">=".into(),
            floor: "13.0.3".into(),
            conda_version: ">=12".into(),
            requiring_chain: vec!["torch".into(), "torchvision".into(), "isaacsim-core".into()],
            pack_name: Some("isaac-pack-latest".into()),
        })
    );
}

#[test]
fn version_that_does_not_exist_is_internal_to_wheels() {
    let p = RegexConflictParser::new();
    let text = closure(
        "a-pack",
        "Because there is no version of tinyobjloader==2.0.0rc13 and your project needs it, it \
         fails. no generated conda constraint was named in uv's message",
    );
    assert_eq!(
        p.parse(&text),
        Some(Conflict::PypiInternal {
            package: "tinyobjloader".into(),
            version: "2.0.0rc13".into(),
        })
    );
}

#[test]
fn closure_that_is_no_conflict_is_not_read() {
    let p = RegexConflictParser::new();
    let text = closure("a-pack", "package foo has no wheels in the exported closure");
    assert_eq!(p.parse(&text), None);
}

#[test]
fn kinds_are_named() {
    let c = Conflict::NoCandidates {
        package: "a".into(),
        version: "1".into(),
    };
    assert_eq!(c.kind(), "NoCandidates");
    let c = Conflict::NestedCondaCap {
        package: "a".into(),
        pack_name: "p".into(),
        pack_demand: "1".into(),
        cap_op: "<".into(),
        cap_version: "1".into(),
        via: "b".into(),
    };
    assert_eq!(c.kind(), "NestedCondaCap");
}

#[test]
fn mentions_come_once_each_with_their_requirer() {
    let p = RegexConflictParser::new();
    let text = "wandb 0.25.0 would require sentry-sdk >=2.0.0,<3 and sentry-sdk >=2.0.0,<3 \
                clashes with sentry-sdk ==1.38.0";
    let mentions = p.extract_generic_mentions(text);
    let found: Vec<(String, String)> = mentions
        .iter()
        .map(|m| (m.package.clone(), m.spec.clone()))
        .collect();
    assert!(
        found.contains(&("sentry-sdk".to_string(), ">=2.0.0,<3".to_string())),
        "{found:?}"
    );
    assert!(
        found.contains(&("sentry-sdk".to_string(), "==1.38.0".to_string())),
        "{found:?}"
    );
    for (i, a) in mentions.iter().enumerate() {
        for b in &mentions[i + 1..] {
            assert!((&a.package, &a.spec, &a.requirer) != (&b.package, &b.spec, &b.requirer));
        }
    }
    assert_eq!(
        mentions
            .iter()
            .find(|m| m.spec == ">=2.0.0,<3")
            .unwrap()
            .requirer
            .as_deref(),
        Some("wandb")
    );
}

#[test]
fn wrong_build_tail_is_diagnosed() {
    let text = "torchaudio ==2.10.0 cannot be installed because there are no viable options:\n└─ torchaudio 2.10.0 would require\n   └─ python_abi 3.10.* *_cp310, for which no candidates were found";
    let told = diagnose_abi_build_tail(text).unwrap();
    assert!(told.contains("torchaudio"), "{told}");
    assert!(diagnose_abi_build_tail("all is well").is_none());
    assert!(diagnose_constrained_renamed_companion("all is well").is_none());
}

#[test]
fn tail_counts_characters() {
    assert_eq!(tail("abcdef", 3), "def");
    assert_eq!(tail("│├╰", 2), "├╰");
    assert_eq!(tail("ab", 3), "ab");
    assert_eq!(tail("ab", 0), "");
}

#[test]
fn refused_widening_is_recognised() {
    assert!(!RegexConflictParser::is_post_widen_conda_unsat("the disk is full"));
}
