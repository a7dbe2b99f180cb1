[package]
name = "zmaxion"
version = "0.1.0"
edition = "2021"
publish = false

[dependencies]
bevy_ecs = "=0.8.1"
anyhow = "=1.0.104"
thiserror = "=1.0.69"
tokio = { version = "=1.54.1", features = ["sync"] }
fixedbitset = "=0.4.2"
num_cpus = "=1.17.0"
rand = "0.8"
syn = { version = "=1.0.109", features = ["full"] }
quote = "=1.0.47"
proc-macro2 = "=1.0.107"
