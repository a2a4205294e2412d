[package]
name = "romm_fuse"
version = "0.1.0"
edition = "2021"
publish = false

[dependencies]
anyhow = "=1.0.104"
atty = "=0.2.14"
clap = { version = "=4.6.7", features = ["derive", "env"] }
env_logger = "=0.11.11"
fuser = "=0.17.0"
libc = "=0.2.191"
log = "=0.4.35"
reqwest = { version = "=0.12.28", default-features = false, features = ["blocking", "json", "rustls-tls"] }
serde = { version = "=1.0.229", features = ["derive"] }
sha2 = "=0.10.9"
toml = "=0.8.23"
urlencoding = "=2.1.3"
