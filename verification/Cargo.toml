[package]
name = "yota"
version = "0.1.0"
edition = "2021"
publish = false

[dependencies]
cookie = "=0.18.2"
time = "=0.3.55"
url = "=2.5.8"
serde = "=1.0.229"
serde_derive = "=1.0.229"
serde_json = "=1.0.151"
clap = "=4.6.7"
dirs = "=7.0.0"
reqwest = { version = "=0.13.5", default-features = false, features = ["blocking", "form"] }
