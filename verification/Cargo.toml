[package]
name = "presemble"
version = "0.31.0"
edition = "2021"
publish = false

[dependencies]
im = "=15.1.0"
pulldown-cmark = { version = "=0.13.6", default-features = false }
serde = { version = "=1.0.229", features = ["derive"] }
serde_json = "=1.0.154"
nng = { version = "=1.0.1", default-features = false }
rayon = "=1.12.0"
thiserror = "=2.0.21"
time = { version = "=0.3.55", features = ["formatting"] }

[dev-dependencies]
tempfile = "=3.27.0"
