[package]
name = "michelledb"
version = "0.1.0"
edition = "2021"
publish = false

[dependencies]
sha1_smol = "1"
uuid = { version = "1", features = ["v4"] }
serde = { version = "1", features = ["derive"] }
serde_json = "1"
actix-web = { version = "4", default-features = false, features = ["macros"] }
tokio = { version = "1", features = ["macros", "rt-multi-thread"] }
walkdir = "2"
