[package]
name = "telesthete"
version = "1.2.0"
edition = "2021"
publish = false

[dependencies]
anyhow = "1"
bytes = "1"
chacha20poly1305 = "0.10"
futures-util = "0.3"
getrandom = "0.2"
hkdf = "0.12"
hmac = "0.12"
nix = { version = "0.29", features = ["socket", "uio", "net", "fs"] }
rand_core = { version = "0.6", features = ["getrandom"] }
rcgen = "0.13"
rustls = { version = "0.23", default-features = false, features = ["ring", "std", "tls12"] }
rustls-pki-types = "1"
serde = { version = "1", features = ["derive"] }
serde_json = "1"
sha2 = "0.10"
socket2 = { version = "0.5", features = ["all"] }
thiserror = "1"
time = "0.3"
tokio = { version = "1", features = ["full"] }
tokio-rustls = { version = "0.26", default-features = false, features = ["ring"] }
tokio-tungstenite = "0.26"
tracing = "0.1"
tracing-subscriber = { version = "0.3", features = ["env-filter"] }
wtransport = "0.6"
x25519-dalek = "2"
