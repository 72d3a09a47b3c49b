[package]
name = "lorevault"
version = "0.1.0"
edition = "2021"
publish = false

[dependencies]
sha3 = "*"
serde = { version = "*", features = ["derive"] }
toml = "*"
anyhow = "*"
clap = { version = "*", features = ["derive"] }
git2 = { version = "*", default-features = false }
auth-git2 = "*"
reqwest = { version = "*", default-features = false, features = ["blocking"] }
ssh2 = "*"
ctrlc = "*"
dirs = "*"
once_cell = "*"
tempfile = "*"
