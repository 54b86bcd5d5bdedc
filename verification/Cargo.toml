[package]
name = "tr"
version = "0.1.0"
edition = "2021"
publish = false

[dependencies]
clap = { version = "4", default-features = false, features = ["std", "derive", "help", "usage", "error-context", "cargo"] }
deunicode = "1.6"
gettext-rs = { version = "0.7", features = ["gettext-system"] }
