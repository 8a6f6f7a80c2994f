[package]
name = "revelation_chain"
version = "0.3.2"
edition = "2021"
publish = false

[dependencies]
sha2 = "0.10"
ed25519-dalek = "2"
num-bigint = "0.4"
serde = { version = "1", features = ["derive"] }
serde_json = "1"
bincode = "1"
time = "0.3"
rand = "0.8"
zeroize = "1"
memsec = "0.6"
aes-gcm = "0.10"
pbkdf2 = "0.12"
bip39 = "2"
rpassword = "7"
tokio = { version = "1", features = ["rt-multi-thread", "net", "time", "macros"] }
axum = "0.7"
tower-http = { version = "0.5", features = ["cors"] }
futures = "0.3"
uuid = "1"
btleplug = "0.11"
