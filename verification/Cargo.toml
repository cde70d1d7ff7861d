[package]
name = "ccmk4"
version = "0.1.0"
edition = "2021"
publish = false

[dependencies]
serde = { version = "1", features = ["derive"] }
serde_json = "1"
thiserror = "*"
rand = "*"
tokio = { version = "1", features = ["macros", "rt-multi-thread", "sync"] }
color-eyre = "*"
piston-mc = "0.1.5-beta"
simple_download_utility = "*"
zip = "*"
