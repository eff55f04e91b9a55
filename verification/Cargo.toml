[package]
name = "term_translator"
version = "0.1.0"
edition = "2021"
publish = false

[dependencies]
anyhow = "=1.0.104"
async-trait = "=0.1.92"
fancy-regex = "=0.19.2"
log = "=0.4.34"
md5 = "=0.8.1"
once_cell = "=1.21.4"
pretty_env_logger = "=0.5.0"
rand = "=0.10.3"
regex = "=1.13.1"
reqwest = { version = "=0.13.5", features = ["form", "json"] }
rustbreak = { version = "=2.0.0", features = ["other_errors"] }
serde = { version = "=1.0.229", features = ["derive"] }
serde_json = "=1.0.154"
tokio = { version = "=1.54.1", features = ["macros", "rt-multi-thread"] }
toml = "=1.1.8"
warp = { version = "=0.4.3", features = ["server"] }
