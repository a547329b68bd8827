[package]
name = "sagittarius"
version = "0.1.0"
edition = "2021"
publish = false

[dependencies]
evdev = "=0.13.2"
ureq = { version = "=2.12.1", default-features = false }
input = "=0.10.0"
libc = "0.2"
dotenv = "0.15"
env_logger = "*"
actix-web = { version = "=4.15.0", default-features = false, features = ["macros"] }
sqlx = { version = "=0.9.0", default-features = false, features = ["runtime-tokio", "sqlite"] }
serde_json = "1"
