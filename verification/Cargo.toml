[package]
name = "lookup_table_registry_client"
version = "0.1.0"
edition = "2021"
publish = false

[dependencies]
endorphin = "*"
solana-program = "1"
anyhow = "1"
thiserror = "1"
async-trait = "0.1"
tokio = { version = "1", features = ["macros", "rt-multi-thread"] }
axum = "0.6"
serde = { version = "1", features = ["derive"] }
serde_with = { version = "3", default-features = false, features = ["macros", "std"] }
tower-http = { version = "0.4", features = ["cors"] }
tracing = "0.1"
tracing-subscriber = "0.3"
dotenv = "0.15"
