[package]
name = "stratsync"
version = "0.1.0"
edition = "2021"
publish = false

[dependencies]
uuid = { version = "=1.27.0", features = ["v4"] }
bcrypt = "=0.19.3"
jsonwebtoken = { version = "=11.1.0", features = ["rust_crypto"] }
serde_json = "=1.0.151"
tokio = { version = "=1.53.2", features = ["full"] }
tokio-stream = "=0.1.19"
tonic = "=0.14.6"
moka = { version = "=0.12.16", features = ["sync"] }
sqlx = { version = "=0.9.0", features = ["runtime-tokio", "postgres", "uuid"], default-features = false }
dotenvy = "=0.15.7"
tracing-subscriber = "=0.3.23"
