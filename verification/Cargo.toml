[package]
name = "easydc"
version = "0.1.6"
edition = "2021"
publish = false

[dependencies]
bcrypt = "0.15"
uuid = { version = "1", features = ["v4"] }
ldap3 = { version = "0.11", default-features = false, features = ["tls-native"] }
axum = "0.7"
serde = { version = "1", features = ["derive"] }
sqlx = { version = "0.7", default-features = false, features = ["runtime-tokio", "sqlite", "macros"] }
tera = { version = "1", default-features = false }
tokio = { version = "1", features = ["macros", "rt-multi-thread", "net"] }
tracing-subscriber = "0.3"
