[package]
name = "drive_inventory"
version = "0.1.0"
edition = "2021"
publish = false

[dependencies]
anyhow = "*"
clap = { version = "*", features = ["derive"] }
ctrlc = "*"
fs-err = "*"
google-drive3 = "*"
log = "*"
simplelog = "*"
tokio = { version = "*", features = ["macros", "rt-multi-thread"] }
