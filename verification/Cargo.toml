[package]
name = "c6"
version = "0.1.0"
edition = "2021"
publish = false

[dependencies]
base64 = "0.21"
crossterm = "0.25"
thiserror = "1"
tui = "0.19"
