[package]
name = "x402_router"
version = "0.1.0"
edition = "2021"
publish = false

[dependencies]
sha2 = "=0.11.0"
hex = "=0.4.3"
base64 = "=0.23.1"
serde_json = "=1.0.151"
serde = { version = "=1.0.229", features = ["derive"] }
ron = "=0.12.2"
dotenvy = "=0.15.7"
reqwest = { version = "=0.13.5", default-features = false, features = ["blocking", "json"] }
chrono = "=0.4.45"
tokio = { version = "=1.53.2", features = ["rt", "rt-multi-thread", "time", "sync", "net", "macros"] }
sqlx = { version = "*", default-features = false, features = ["runtime-tokio", "postgres", "chrono", "uuid"] }
uuid = { version = "=1.27.0", features = ["v4"] }
aws-sdk-s3 = "*"
aws-credential-types = "*"
