[package]
name = "lunafinder"
version = "0.1.0"
edition = "2021"
publish = false

[dependencies]
argon2 = "0.5"
bcrypt = "0.15"
sha2 = "0.10"
rand = "0.8"
anyhow = "1"
serde = { version = "1", features = ["derive"] }
toml = "0.8"
actix-web = { version = "4", default-features = false, features = ["macros", "cookies"] }
actix-files = "0.6"
actix-multipart = { version = "0.7", default-features = false }
env_logger = { version = "0.11", default-features = false }
futures-util = { version = "0.3", default-features = false, features = ["std"] }
pulldown-cmark = { version = "0.10", default-features = false, features = ["html"] }
tera = { version = "1", default-features = false }
