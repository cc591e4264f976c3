[package]
name = "aldoc"
version = "0.1.0"
edition = "2021"
publish = false

[dependencies]
numerals = "=0.1.4"
regex = "1"
thiserror = "1"
clap = { version = "4", features = ["derive"] }
tectonic = { version = "0.17", default-features = false }
