[package]
name = "flatland"
version = "0.1.0"
edition = "2021"
publish = false

[dependencies]
blake3 = { version = "=1.8.7", default-features = false, features = ["pure", "std"] }
serde = { version = "=1.0.229", features = ["derive"] }
serde_json = "=1.0.154"
clipper2 = "=0.6.0"
clap = { version = "=4.6.7", features = ["derive"] }
miette = "=7.6.0"
thiserror = "=1.0.69"
strsim = "=0.11.1"
indexmap = { version = "=2.14.2", features = ["serde"] }
time = "0.3"
