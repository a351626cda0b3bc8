[package]
name = "tachyon"
version = "0.1.0"
edition = "2021"
publish = false

[dependencies]
memchr = "2"
rayon = "1"
regex = "1"
memmap2 = "0.9"
serde = { version = "1", features = ["derive"] }
serde_json = "1"
thiserror = "2"
clap = { version = "4", features = ["derive"] }
tracing-subscriber = { version = "0.3", features = ["env-filter"] }

[dev-dependencies]
tempfile = "3"
