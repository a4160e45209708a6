[package]
name = "vfstool_lib"
version = "0.1.0"
edition = "2021"
publish = false

[dependencies]
ba2 = "=3.0.1"
clap = { version = "=4.6.7", features = ["derive"] }
openmw-config = "=3.0.2"
rayon = "=1.12.0"
regex = "=1.13.1"
serde = { version = "=1.0.229", features = ["derive"] }
serde_json = "=1.0.154"
serde_yaml_with_quirks = "=0.8.24"
toml = "=1.1.8"
walkdir = "=2.5.0"
