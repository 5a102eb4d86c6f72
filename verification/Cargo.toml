[package]
name = "sitegen"
version = "0.1.0"
edition = "2021"
publish = false

[dependencies]
pulldown-cmark = "*"
base64 = "*"
serde_json = "*"
reqwest = { version = "*", default-features = false, features = ["json", "rustls-tls"] }
tokio = { version = "*", features = ["macros", "rt-multi-thread"] }
chrono = "*"
yup-oauth2 = "*"
vercel_runtime = "*"
include_dir = "*"
