use rattler_conda_types::{MatchSpec, RepoDataRecord};
use rattler_solve::{ChannelPriority, SolveStrategy};
use retread_solve::solver::{
    build_virtual_packages, first_seen, parse_match_specs, reasons_of, selection_of,
    solve_selected_records_from_records, virtual_packages_over, SolverFailure, VirtualPackage,
};

fn requirements(pairs: &[(&str, &str)]) -> Vec<(String, String)> {
    pairs
        .iter()
        .map(|(k, v)| (k.to_string(), v.to_string()))
        .collect()
}

fn specs(texts: &[&str]) -> Vec<MatchSpec> {
    parse_match_specs(&texts.iter().map(|t| t.to_string()).collect())
}

fn vp_lookup<'a>(vps: &'a [VirtualPackage], name: &str) -> Option<&'a VirtualPackage> {
    vps.iter().find(|vp| vp.name == name)
}

fn repo_record(name: &str, version: &str, depends: &[&str]) -> RepoDataRecord {
    let depends = depends
        .iter()
        .map(|d| format!("\"{d}\""))
        .collect::<Vec<_>>()
        .join(",");
    let file = format!("{name}-{version}-h123456_0.conda");
    let text = format!(
        "{{\"name\":\"{name}\",\"version\":\"{version}\",\"build\":\"h123456_0\",\
         \"build_number\":0,\"subdir\":\"linux-64\",\"depends\":[{depends}],\
         \"fn\":\"{file}\",\"url\":\"https://example.invalid/linux-64/{file}\",\
         \"channel\":\"https://example.invalid\"}}"
    );
    serde_json::from_str(&text).unwrap()
}

#[test]
fn build_virtual_packages_injects_cpython_from_target_python() {
    let sysreqs = requirements(&[]);
    let vps = build_virtual_packages("3.11", &sysreqs);
    let cp = vp_lookup(&vps, "__cpython").expect("__cpython must be present");
    assert!(cp.version.to_string().starts_with("3.11"));
}

#[test]
fn build_virtual_packages_maps_workspace_cuda_to_double_underscore() {
    let sysreqs = requirements(&[("cuda", "12")]);
    let vps = build_virtual_packages("3.11", &sysreqs);
    let cuda = vp_lookup(&vps, "__cuda").expect("__cuda must be injected");
    assert!(
        cuda.version.to_string().starts_with("12"),
        "expected __cuda 12.x, got {}",
        cuda.version,
    );
}

#[test]
fn build_virtual_packages_maps_libc_to_glibc() {
    let sysreqs = requirements(&[("libc", "2.35")]);
    let vps = build_virtual_packages("3.11", &sysreqs);
    let glibc = vp_lookup(&vps, "__glibc").expect("__glibc must be injected");
    assert_eq!(glibc.version.to_string(), "2.35");
}

#[test]
fn build_virtual_packages_overrides_host_detection() {
    let sysreqs = requirements(&[("libc", "9.99")]);
    let vps = build_virtual_packages("3.11", &sysreqs);
    let count = vps.iter().filter(|vp| vp.name == "__glibc").count();
    assert_eq!(count, 1, "must replace, not append, the host's __glibc");
    let glibc = vp_lookup(&vps, "__glibc").unwrap();
    assert_eq!(glibc.version.to_string(), "9.99");
}

#[test]
fn build_virtual_packages_archspec_encodes_as_build_string() {
    let sysreqs = requirements(&[("archspec", "x86_64")]);
    let vps = build_virtual_packages("3.11", &sysreqs);
    let arch = vp_lookup(&vps, "__archspec").expect("__archspec must be injected");
    assert_eq!(arch.build_string, "x86_64");
}

#[test]
fn build_virtual_packages_skips_unknown_keys() {
    let sysreqs = requirements(&[("something-new-in-pixi", "12")]);
    let vps_baseline = build_virtual_packages("3.11", &requirements(&[]));
    let vps = build_virtual_packages("3.11", &sysreqs);
    assert_eq!(
        vps.len(),
        vps_baseline.len(),
        "unknown system-requirement keys must not add virtual packages"
    );
}

#[test]
fn solve_selected_records_can_pick_lowest_direct_torch_line() {
    let all_records = vec![
        repo_record("python", "3.11.5", &[]),
        repo_record("pytorch", "2.7.0", &["python >=3.11,<3.12.0a0"]),
        repo_record("pytorch", "2.10.0", &["python >=3.11,<3.12.0a0"]),
        repo_record("pytorch", "2.11.0", &["python >=3.11,<3.12.0a0"]),
        repo_record("pytorch-gpu", "2.7.1", &["pytorch 2.7.0"]),
        repo_record("pytorch-gpu", "2.11.0", &["pytorch 2.11.0"]),
        repo_record("torchvision", "0.22.0", &["pytorch >=2.7.0,<2.8.0a0"]),
        repo_record("torchvision", "0.25.0", &["pytorch >=2.10.0,<2.11.0a0"]),
        repo_record("torchvision", "0.26.0", &["pytorch >=2.11.0,<2.12.0a0"]),
    ];
    let specs = specs(&["pytorch-gpu >=2.7.1,<3", "torchvision >=0.22.0"]);
    let solved = solve_selected_records_from_records(
        &specs,
        &all_records,
        "3.11",
        ChannelPriority::Strict,
        &requirements(&[]),
        SolveStrategy::LowestVersionDirect,
    )
    .expect("torch family should solve coherently");

    let pytorch_gpu = solved
        .iter()
        .find(|r| r.package_record.name.as_normalized() == "pytorch-gpu")
        .expect("pytorch-gpu must be selected");
    let torchvision = solved
        .iter()
        .find(|r| r.package_record.name.as_normalized() == "torchvision")
        .expect("torchvision must be selected");
    let pytorch = solved
        .iter()
        .find(|r| r.package_record.name.as_normalized() == "pytorch")
        .expect("pytorch must be selected");

    assert_eq!(pytorch_gpu.package_record.version.as_str(), "2.7.1");
    assert_eq!(torchvision.package_record.version.as_str(), "0.22.0");
    assert_eq!(pytorch.package_record.version.as_str(), "2.7.0");
    for r in &solved {
        assert!(all_records.contains(r));
    }
}

#[test]
fn specs_without_a_solution_come_with_reasons() {
    let all_records = vec![repo_record("python", "3.11.5", &[])];
    let reasons = solve_selected_records_from_records(
        &specs(&["python >=3.12"]),
        &all_records,
        "3.11",
        ChannelPriority::Strict,
        &requirements(&[]),
        SolveStrategy::Highest,
    )
    .unwrap_err();
    assert!(reasons.iter().any(|r| r.contains("python")), "{reasons:?}");
}

#[test]
fn texts_that_are_no_specs_are_left_out() {
    let read = specs(&["python >=3.11", "==== nonsense [[", "numpy"]);
    let names: Vec<&str> = read
        .iter()
        .map(|s| s.name.as_exact().expect("a name").as_normalized())
        .collect();
    assert_eq!(names, vec!["python", "numpy"]);
    assert!(read[0].version.is_some());
    assert!(read[1].version.is_none());
}

#[test]
fn requirements_replace_what_the_host_has() {
    let host = vec![
        VirtualPackage {
            name: "__glibc".to_string(),
            version: "2.31".to_string(),
            build_string: "0".to_string(),
        },
        VirtualPackage {
            name: "__unix".to_string(),
            version: "0".to_string(),
            build_string: "0".to_string(),
        },
    ];
    let told = virtual_packages_over(host, "not a version", &requirements(&[("libc", "2.35")]));
    assert_eq!(told.len(), 2);
    assert_eq!(vp_lookup(&told, "__glibc").unwrap().version, "2.35");
    assert_eq!(vp_lookup(&told, "__unix").unwrap().version, "0");
    assert!(vp_lookup(&told, "__cpython").is_none());
}

#[test]
fn solver_failures_are_told() {
    assert_eq!(
        reasons_of(SolverFailure::Unsolvable(vec!["a".to_string(), "b".to_string()])),
        vec!["a", "b"]
    );
    assert_eq!(
        reasons_of(SolverFailure::Other("time is up".to_string())),
        vec!["solver error: time is up"]
    );
}

#[test]
fn first_channel_wins() {
    let names = ["a.conda", "b.conda", "a.conda", "c.conda"]
        .iter()
        .map(|s| s.to_string())
        .collect::<Vec<_>>();
    assert_eq!(first_seen(&names), vec![0, 1, 3]);
}

#[test]
fn selection_is_the_answer_or_its_reasons() {
    assert!(selection_of(Ok(Vec::new())).expect("a selection").is_empty());
    assert_eq!(
        selection_of(Err(SolverFailure::Unsolvable(vec!["no numpy".to_string()]))).err(),
        Some(vec!["no numpy".to_string()]),
    );
    assert_eq!(
        selection_of(Err(SolverFailure::Other("time is up".to_string()))).err(),
        Some(vec!["solver error: time is up".to_string()]),
    );
}

#[test]
fn spec_with_a_pattern_for_its_name_is_not_asked_for() {
    let pattern = "https://example.com/fo*-1-0.conda";
    let asked = specs(&["python", pattern]);
    assert_eq!(asked.len(), 2);
    let reasons = solve_selected_records_from_records(
        &asked,
        &vec![repo_record("python", "3.11.5", &[])],
        "3.11",
        ChannelPriority::Strict,
        &requirements(&[]),
        SolveStrategy::Highest,
    )
    .unwrap_err();
    assert_eq!(reasons.len(), 1);
    assert!(reasons[0].starts_with("solver error: the spec `fo*"), "{reasons:?}");
    assert!(reasons[0].ends_with("` does not name one package exactly"), "{reasons:?}");
}

#[test]
fn records_with_dependencies_that_cannot_be_read_are_not_offered() {
    let all_records = vec![
        repo_record("python", "3.11.5", &[]),
        repo_record("python", "3.11.9", &["https://example.com/fo*-1-0.conda"]),
        repo_record("python", "3.11.8", &["numpy[when='https://example.com/fo*-1-0.conda']"]),
        repo_record("python", "3.11.7", &["missing[when='absent >=3']"]),
        repo_record("python", "3.11.10", &["~/here::python-base"]),
        repo_record("python", "3.11.6", &["conda-forge::missing"]),
    ];
    let solved = solve_selected_records_from_records(
        &specs(&["python"]),
        &all_records,
        "3.11",
        ChannelPriority::Strict,
        &requirements(&[]),
        SolveStrategy::Highest,
    )
    .expect("python alone is asked for");
    let versions: Vec<String> = solved
        .iter()
        .map(|r| r.package_record.version.as_str().to_string())
        .collect();
    assert_eq!(versions, vec!["3.11.7"]);
}
