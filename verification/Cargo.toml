[package]
name = "block_pipeline"
version = "0.1.0"
edition = "2021"
publish = false

[dependencies]
async-channel = "=2.5.0"
async-trait = "=0.1.92"
clap = { version = "=4.6.7", features = ["derive"] }
futures = "=0.3.34"
kaspa-consensus-core = "=2.1.0"
kaspa-core = "=2.1.0"
kaspa-hashes = "=2.1.1"
num_cpus = "=1.17.0"
tokio = { version = "=1.54.1", features = ["rt-multi-thread", "macros"] }

[dev-dependencies]
itertools = "=0.15.0"
kaspa-math = "=2.1.0"
