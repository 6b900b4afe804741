[package]
name = "o-dns"
version = "0.1.0"
edition = "2021"
publish = false

[dependencies]
sha1 = "0.10"
regex = "1"
hashlink = "0.9"
anyhow = "1"
tokio = { version = "1", features = ["rt-multi-thread", "macros", "net", "io-util", "sync", "time", "fs"] }
clap = { version = "4", features = ["derive"] }
tracing = "0.1"
tracing-subscriber = { version = "0.3", features = ["env-filter"] }
dirs = "5"
serde = { version = "1", features = ["derive"] }
axum = "0.7"
sqlx = { version = "0.8", default-features = false, features = ["sqlite", "runtime-tokio"] }
futures = "0.3"
tower-http = { version = "0.5", features = ["cors"] }
