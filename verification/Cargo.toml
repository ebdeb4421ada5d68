[package]
name = "strandmap"
version = "1.3.1"
edition = "2021"
publish = false

[dependencies]
anyhow = "1"
blake3 = "1"
chrono = { version = "0.4", features = ["serde"] }
clap = { version = "4", features = ["derive", "env"] }
clap_complete = "4"
clap_mangen = "*"
fs2 = "0.4"
globset = "0.4"
ignore = "0.4"
regex = "1"
schemars = { version = "1", features = ["chrono04"] }
serde = { version = "1", features = ["derive"] }
serde_json = "1"
serde_yaml_ng = "*"
shlex = "1"
tempfile = "3"
toml = "*"
tree-sitter = "*"
tree-sitter-bash = "*"
tree-sitter-javascript = "*"
tree-sitter-python = "*"
tree-sitter-rust = "*"
uuid = { version = "1", features = ["v7"] }
