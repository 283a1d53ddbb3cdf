use retread_solve::solve::ledger::{EntrySnapshot, Reason, Strategy, TableKind};
use retread_solve::solve::manifest::ManifestEditor;

const DATE: &str = "2026-07-07";

fn open(text: &str) -> ManifestEditor {
    ManifestEditor::open("w/pixi.toml".to_string(), "w".to_string(), text).unwrap()
}

#[test]
fn adds_feature_scoped_sentinel_pins_and_migrates_owned_entries_only() {
    let mut editor = open(
        r#"[workspace]
channels = ["conda-forge"]

[feature.gpu.dependencies]
numpy = "==1.26.4"
"#,
    );
    assert!(editor.has_user_entry("gpu", TableKind::Conda, "numpy"));
    editor.set_conda_pin("gpu", "torch", "2.7.1", Reason::CondaBoundary, DATE);
    editor.remove_retread_entry("gpu", TableKind::Conda, "numpy");
    editor.set_pypi_pin("gpu", "torch", "2.7.1", Reason::NoCandidatesEscalation, DATE);
    let out = editor.render();
    assert!(out.contains("numpy = \"==1.26.4\""));
    assert!(out.contains("torch = \"==2.7.1\"  # retread:pin"));
    assert!(out.contains("[feature.gpu.pypi-dependencies]"));
}

#[test]
fn clean_pins_removes_only_retread_sentinels() {
    let mut editor = open(
        r#"[dependencies]
numpy = "==1.26.4"  # user-owned
mujoco = ">=3.10.3,<4"  # retread:widen 2026-07-07

[pypi-dependencies]
torch = "==2.7.1"  # retread:pin 2026-07-07 conda-boundary
"#,
    );
    assert_eq!(editor.clean_pins(), 2);
    let out = editor.render();
    assert!(out.contains("numpy = \"==1.26.4\""));
    assert!(!out.contains("mujoco"));
    assert!(!out.contains("torch"));
}

#[test]
fn restore_entry_reverts_single_widen() {
    let mut editor = open(
        r#"[dependencies]
mujoco = "==3.5.0"
"#,
    );
    let edit = editor.set_conda_widen("default", "mujoco", ">=3.10.3,<4", DATE);
    editor.restore_entry("default", edit.table, "mujoco", &edit.before);
    let out = editor.render();
    assert!(out.contains("mujoco = \"==3.5.0\""));
    assert!(!out.contains("retread:widen"));
}

#[test]
fn marks_tell_date_and_reason() {
    let mut editor = open("[dependencies]\n");
    editor.set_conda_pin("default", "numpy", "2.3.1", Reason::CondaBoundary, DATE);
    assert_eq!(
        editor.render(),
        "[dependencies]\nnumpy = \"==2.3.1\"  # retread:pin 2026-07-07 conda-boundary\n"
    );
    let snapshot = editor.entry_snapshot("default", TableKind::Conda, "numpy");
    assert_eq!(snapshot.value.as_deref(), Some("==2.3.1"));
    assert_eq!(
        snapshot.suffix.as_deref(),
        Some("  # retread:pin 2026-07-07 conda-boundary")
    );
    assert!(!editor.has_user_entry("default", TableKind::Conda, "numpy"));
    assert_eq!(
        editor.sentinel_strategies(),
        vec![("numpy".to_string(), Strategy::Conda)]
    );
}

#[test]
fn widening_is_marked() {
    let mut editor = open("[dependencies]\nmujoco = \"==3.5.0\"\n");
    let edit = editor.set_conda_widen("default", "mujoco", ">=3.10.3,<4", DATE);
    assert_eq!(edit.before.value.as_deref(), Some("==3.5.0"));
    assert_eq!(
        editor.render(),
        "[dependencies]\nmujoco = \">=3.10.3,<4\"  # retread:widen 2026-07-07\n"
    );
}

#[test]
fn overrides_have_their_own_table() {
    let mut editor = open("[dependencies]\n");
    editor.set_pypi_override("default", "torch", "2.7.1", Reason::PypiInternal, DATE);
    let out = editor.render();
    assert!(out.contains("[pypi-options.dependency-overrides]"), "{out}");
    assert!(out.contains("torch = \"==2.7.1\"  # retread:pin"), "{out}");
    assert_eq!(
        editor
            .entry_snapshot("default", TableKind::Override, "torch")
            .value
            .as_deref(),
        Some("==2.7.1")
    );
    assert!(editor
        .entry_snapshot("default", TableKind::Conda, "torch")
        .value
        .is_none());
}

#[test]
fn restoring_nothing_takes_the_entry_out() {
    let mut editor = open("[dependencies]\nkept = \"*\"\n");
    let edit = editor.set_conda_pin("default", "numpy", "2.3.1", Reason::CondaBoundary, DATE);
    assert!(edit.before.value.is_none());
    editor.restore_entry(
        "default",
        TableKind::Conda,
        "numpy",
        &EntrySnapshot {
            value: None,
            suffix: None,
        },
    );
    assert_eq!(editor.render(), "[dependencies]\nkept = \"*\"\n");
}

#[test]
fn features_and_smoke_modules_are_read() {
    let editor = open(
        r#"[feature.gpu.dependencies]
a = "*"

[feature.cpu.dependencies]
b = "*"
"#,
    );
    assert_eq!(editor.feature_names(), vec!["default", "gpu", "cpu"]);
    assert!(editor.smoke_modules().is_empty());
    assert_eq!(editor.manifest_path(), "w/pixi.toml");
    assert_eq!(editor.project_dir(), "w");
}

#[test]
fn text_that_is_no_toml_is_refused() {
    assert!(ManifestEditor::open("p".to_string(), "d".to_string(), "[dependencies\n").is_err());
    let mut editor = open("[dependencies]\n");
    assert!(editor.reload("a = = 1").is_err());
    assert!(editor.reload("[feature.x.dependencies]\n").is_ok());
    assert_eq!(editor.feature_names(), vec!["default", "x"]);
}

#[test]
fn inline_tables_refuse_edits_and_leave_the_others() {
    let mut editor = open("dependencies = { numpy = \"*\" }\n\n[feature.gpu.dependencies]\n");
    assert!(!editor.was_refused());
    editor.set_conda_pin("gpu", "torch", "2.7.1", Reason::CondaBoundary, DATE);
    assert!(!editor.was_refused());
    assert!(editor.render().contains("torch = \"==2.7.1\""));
    let before = editor.render();
    editor.set_conda_pin("default", "numpy", "1.26.4", Reason::CondaBoundary, DATE);
    assert!(editor.was_refused());
    assert_eq!(editor.render(), before);
}

#[test]
fn edits_keep_the_order_of_what_is_there() {
    let mut editor = open(
        r#"[dependencies]
# the first
alpha = "==1"
beta = "==1"

[feature.gpu.dependencies]
gamma = "==1"
"#,
    );
    editor.set_conda_pin("default", "alpha", "2", Reason::CondaBoundary, DATE);
    editor.set_conda_pin("default", "aaa", "3", Reason::CondaBoundary, DATE);
    let out = editor.render();
    let place = |text: &str| out.find(text).expect(text);
    assert!(place("# the first") < place("alpha = \"==2\""));
    assert!(place("alpha = \"==2\"") < place("beta = \"==1\""));
    assert!(place("beta = \"==1\"") < place("aaa = \"==3\""));
    assert!(place("aaa = \"==3\"") < place("gamma = \"==1\""));
    editor.remove_retread_entry("default", TableKind::Conda, "alpha");
    assert_eq!(editor.feature_names(), vec!["default", "gpu"]);
    let out = editor.render();
    let place = |text: &str| out.find(text).expect(text);
    assert!(place("beta = \"==1\"") < place("aaa = \"==3\""));
}
