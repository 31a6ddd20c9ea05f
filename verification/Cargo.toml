[package]
name = "stellar_api"
version = "0.1.0"
edition = "2021"
publish = false

[dependencies]
zip = { version = "*", default-features = false, features = ["deflate"] }
globset = "*"
tempfile = "*"
walkdir = "*"
serde = { version = "*", features = ["derive"] }
log = "*"
env_logger = "*"
dotenvy = "*"
libc = "*"
actix-web = "*"
actix-cors = "*"
actix-governor = "*"
