[package]
name = "shai_hulud_v2_checker"
version = "0.1.0"
edition = "2021"
publish = false

[dependencies]
async-lock = "3"
chrono = "0.4"
clap = { version = "4", features = ["derive"] }
csv = "1"
serde = { version = "1", features = ["derive"] }
serde_json = "1"
smol = "2"
ureq = "3"
