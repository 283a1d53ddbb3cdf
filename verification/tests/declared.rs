use retread_solve::solve::declared::{audited_environments, dependency_tables, workspace_of};

const MANIFEST: &str = "\
[environments]
gpu = { features = [\"cuda\", \"base\"], no-default-feature = true }
cpu = [\"base\"]

[dependencies]
python = \"3.11\"
zeta-pack = { path = \"./packs/zeta\" }
alpha-pack = { path = \"./packs/alpha\" }

[target.linux-64.dependencies]
linux-pack = { path = \"./packs/linux\" }

[feature.cuda.dependencies]
cuda-pack = { path = \"./packs/cuda\" }

[feature.cuda.target.win-64.dependencies]
win-pack = { path = \"./packs/win\" }

[feature.base]
channels = []
";

fn pair(name: &str, path: &str) -> (String, String) {
    (name.to_string(), path.to_string())
}

#[test]
fn every_environment_is_audited_and_the_default_one_too() {
    let names = audited_environments(MANIFEST).expect("a manifest");
    assert_eq!(names, vec!["cpu", "default", "gpu"]);
    assert_eq!(audited_environments("").expect("a manifest"), vec!["default"]);
    let declared = "[environments]\nzz = []\ndefault = [\"a\"]\n";
    let names = audited_environments(declared).expect("a manifest");
    assert_eq!(names, vec!["default", "zz"]);
}

#[test]
fn workspace_is_read_in_the_order_of_names() {
    let ws = workspace_of(MANIFEST).expect("a manifest");
    assert_eq!(
        ws.path_dependencies,
        vec![pair("alpha-pack", "./packs/alpha"), pair("zeta-pack", "./packs/zeta")]
    );
    assert_eq!(ws.features.len(), 2);
    assert_eq!(ws.features[0].0, "base");
    assert!(ws.features[0].1.path_dependencies.is_empty());
    assert_eq!(ws.features[1].0, "cuda");
    assert_eq!(
        ws.features[1].1.path_dependencies,
        vec![pair("cuda-pack", "./packs/cuda")]
    );
    let names: Vec<&str> = ws.environments.iter().map(|(n, _)| n.as_str()).collect();
    assert_eq!(names, vec!["cpu", "default", "gpu"]);
    assert_eq!(ws.environments[0].1.features, vec!["base"]);
    assert!(!ws.environments[0].1.no_default_feature);
    assert!(ws.environments[1].1.features.is_empty());
    assert!(!ws.environments[1].1.no_default_feature);
    assert_eq!(ws.environments[2].1.features, vec!["cuda", "base"]);
    assert!(ws.environments[2].1.no_default_feature);
}

#[test]
fn tables_of_targets_and_features_are_all_read() {
    let tables = dependency_tables(MANIFEST).expect("a manifest");
    assert_eq!(
        tables,
        vec![
            vec![pair("alpha-pack", "./packs/alpha"), pair("zeta-pack", "./packs/zeta")],
            vec![pair("linux-pack", "./packs/linux")],
            vec![],
            vec![pair("cuda-pack", "./packs/cuda")],
            vec![pair("win-pack", "./packs/win")],
        ]
    );
}

#[test]
fn manifest_that_cannot_be_read_is_an_error() {
    assert!(audited_environments("[environments\n").is_err());
    assert!(workspace_of("= 1\n").is_err());
    assert!(dependency_tables("a = \n").is_err());
}
