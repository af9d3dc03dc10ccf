[package]
name = "zsplit"
version = "0.4.0"
edition = "2021"
publish = false

[dependencies]
bool_ext = "*"
clap = { version = "3", features = ["derive"] }
error-stack = "0.2"
exitcode = "1"
human-panic = "1"
sysexits = "*"
thiserror = "1"
