[package]
name = "capsule_fs"
version = "0.1.0"
edition = "2021"
publish = false

[dependencies]
lru = "*"
rsa = { version = "0.9", features = ["sha2"] }
ring = "*"
data-encoding = "*"
prost = "0.13"
tonic = { version = "0.12", features = ["tls"] }
tokio = { version = "1", features = ["rt-multi-thread", "macros", "sync"] }
fuser = { version = "0.14", default-features = false }
clap = "4"
config = { version = "0.14", default-features = false, features = ["toml"] }
serde = { version = "1", features = ["derive"] }
futures = "0.3"
env_logger = "0.10"
log = "0.4"
libc = "0.2"

[dev-dependencies]
rand = "0.8"
