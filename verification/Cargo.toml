[package]
name = "boxednix"
version = "0.1.0"
edition = "2021"
publish = false

[dependencies]
age = { version = "0.11", features = ["armor", "cli-common"] }
anyhow = "1"
bcrypt = "0.15"
blake3 = "1"
clap = { version = "4", features = ["derive"] }
clap_complete = "4"
directories-next = "2"
hex = "0.4"
log = "0.4"
notify = "6"
pbkdf2 = "0.12"
resolve-path = "0.1"
rnix = "0.11"
rowan = "0.15"
serde = { version = "1", features = ["derive"] }
sha-crypt = "0.5"
sha1 = "0.10"
simplelog = "0.12"
tempfile = "3"
toml = "0.8"
