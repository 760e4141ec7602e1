[package]
name = "roomeq_temporal"
version = "0.1.0"
edition = "2021"
publish = false

[dependencies]
autoeq-artifacts = "=0.5.1"
autoeq-measurements = "=0.5.3"
hound = "=3.5.1"
rustfft = "=6.4.1"
schemars = "=1.2.3"
serde = { version = "=1.0.229", features = ["derive"] }
serde_json = { version = "=1.0.154", features = ["preserve_order"] }
sha2 = "=0.10.9"
zarrs = { version = "=0.23.14", default-features = false, features = ["filesystem", "gzip"] }
