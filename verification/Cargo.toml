[package]
name = "ls_plus"
version = "0.1.0"
edition = "2021"
publish = false

[dependencies]
chrono = "0.4"
clap = { version = "4", features = ["derive"] }
glob = "0.3"
owo-colors = "*"
serde = { version = "1", features = ["derive"] }
serde_json = "1"
tabled = "*"
termcolor = "1"
users = "0.11"
