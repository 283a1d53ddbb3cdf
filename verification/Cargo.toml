[package]
name = "retread_solve"
version = "0.1.0"
edition = "2021"
publish = false

[dependencies]
regex = "1"
sha2 = "0.10"
toml_edit = "*"
toml = "*"
anyhow = "1"
thiserror = "2"
tracing = "0.1"
serde = { version = "1", features = ["derive"] }
serde_json = "1"
tokio = { version = "1", features = ["rt-multi-thread", "macros", "process", "io-util", "time", "signal", "fs"] }
rattler_conda_types = { version = "*", default-features = false }
rattler_solve = { version = "*", default-features = false, features = ["resolvo"] }
rattler_virtual_packages = { version = "*", default-features = false }
