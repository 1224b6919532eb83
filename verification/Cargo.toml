[package]
name = "rsomics_binned_statistic"
version = "0.1.0"
edition = "2021"
publish = false

[dependencies]
clap = { version = "=4.6.7", features = ["derive"] }
serde = { version = "=1.0.229", features = ["derive"] }
fast-float2 = "=0.2.4"
