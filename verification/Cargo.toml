[package]
name = "login_core"
version = "0.1.0"
edition = "2021"
publish = false

[dependencies]
sha2 = "*"
tokio = { version = "*", features = ["rt-multi-thread", "net", "io-util", "time", "macros"] }
clap = { version = "*", features = ["derive"] }
num_cpus = "*"
owo-colors = "*"
sqlx = { version = "*", default-features = false, features = ["runtime-tokio", "postgres"] }

[dev-dependencies]
serde_json = "*"
