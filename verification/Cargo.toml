[package]
name = "repotracer"
version = "0.1.0"
edition = "2021"
publish = false

[dependencies]
url = "=2.5.8"
globset = "=0.4.21"
grep = "=0.3.2"
tokei = "=12.1.2"
chrono = "=0.4.45"
serde = { version = "=1.0.229", features = ["derive"] }
serde_json = "=1.0.154"
clap = "=4.6.7"
anyhow = "=1.0.104"
gix = "=0.90.0"
walkdir = "=2.5.0"
comfy-table = "=7.2.2"
dialoguer = "=0.11.0"
rayon = "=1.12.0"
csv = "=1.4.0"
tiny_http = "=0.12.0"
indicatif = "=0.17.11"
plotters = { version = "=0.3.7", default-features = false, features = ["svg_backend", "line_series", "datetime"] }
jaq-core = "=2.2.1"
jaq-json = { version = "=1.1.3", features = ["serde_json"] }
jaq-std = "=2.1.2"
indexmap = "=2.14.2"
