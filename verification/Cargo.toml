[package]
name = "aurashell"
version = "0.1.0"
edition = "2021"
publish = false

[dependencies]
libc = "0.2"
nix = { version = "0.27", features = ["fs", "process", "signal", "term"] }
reqwest = { version = "0.12", features = ["json"] }
rustyline = "14"
serde_json = "1"
tokio = { version = "1", features = ["macros", "rt"] }
