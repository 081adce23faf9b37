[package]
name = "atlas"
version = "0.1.0"
edition = "2021"
publish = false

[dependencies]
globset = "0.4"
blake3 = { version = "1", features = ["pure"] }
sha2 = "0.10"
hmac = "0.12"
rand = "0.8"
regex = "1"
ulid = "1"
url = "2"
argon2 = "0.5"
toml = "0.8"
serde = { version = "1", features = ["derive"] }
serde_json = "1"
serde_yaml = "0.9"
chrono = "0.4"
thiserror = "2"
tokio = { version = "1", features = ["full"] }
ignore = "0.4"
notify = "6"
tracing = "0.1"
futures-util = "0.3"
sqlx = { version = "0.8", default-features = false, features = ["sqlite", "runtime-tokio", "macros", "migrate"] }
axum = "0.8"
reqwest = { version = "0.12", default-features = false, features = ["json", "rustls-tls"] }
jsonschema = { version = "0.26", default-features = false }
