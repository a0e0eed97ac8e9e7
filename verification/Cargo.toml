[package]
name = "git_codeowners"
version = "0.1.0"
edition = "2021"
publish = false

[dependencies]
atty = "0.2"
clap = { version = "4", features = ["derive"] }
clap-help = "*"
codeowners = "0.1"
