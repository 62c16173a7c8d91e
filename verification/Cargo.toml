[package]
name = "rs_dotfiles"
version = "0.1.0"
edition = "2021"
publish = false

[dependencies]
anyhow = "1"
clap = { version = "4", features = ["derive", "env"] }
clap_complete = "4"
colored = "*"
directories = "*"
serde = { version = "1", features = ["derive"] }
serde_json = "1"
symlink = "*"

[dev-dependencies]
tempfile = "3"
