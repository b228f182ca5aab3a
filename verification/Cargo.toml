[package]
name = "optdbg"
version = "0.1.0"
edition = "2021"
publish = false

[dependencies]
anyhow = "1"
asciigraph = "=0.10.1"
async-recursion = "1"
async-trait = "0.1"
clap = { version = "4", features = ["derive"] }
datafusion-common = { version = "=45.0.0", default-features = false }
futures = "0.3"
gag = "1"
glob = "0.3"
itertools = "=0.14.0"
rayon = "1"
serde = { version = "=1.0.229", features = ["derive"] }
serde_json = "=1.0.154"
tempfile = "3"
thiserror = "2"
tokio = { version = "1", features = ["rt-multi-thread", "macros"] }
wait-timeout = "0.2"
