[package]
name = "pingora-enclavia"
version = "0.1.0"
edition = "2021"
publish = false

[dependencies]
anyhow = "1"
async-trait = "0.1"
ciborium = "=0.2.2"
clap = { version = "4", default-features = false, features = ["std", "help", "usage", "error-context", "derive", "env"] }
enclavia = "=0.2.0"
enclavia-protocol = { version = "=0.2.0", default-features = false, features = ["test-utils"] }
futures-util = { version = "0.3", default-features = false, features = ["sink", "std"] }
hex = "=0.4.3"
notify = "8"
pingora-http = { version = "=0.9.1", default-features = false }
rustls = { version = "0.23", default-features = false, features = ["ring", "std", "tls12"] }
serde = { version = "1", features = ["derive"] }
serde_json = "1"
thiserror = "2"
tokio = { version = "1", features = ["full"] }
tokio-tungstenite = { version = "0.26", default-features = false, features = ["handshake"] }
toml = { version = "0.8", default-features = false, features = ["parse"] }
tracing = { version = "0.1", default-features = false, features = ["std"] }
tracing-subscriber = { version = "0.3", default-features = false, features = ["env-filter", "fmt", "json", "std"] }
uuid = { version = "=1.29.0", features = ["v4", "serde"] }
