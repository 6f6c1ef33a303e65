[package]
name = "data_acquisition"
version = "0.1.0"
edition = "2021"
publish = false

[dependencies]
chrono = "=0.4.45"
clap = "=4.6.7"
flate2 = "=1.1.10"
ftp = "=3.0.1"
postgres = { version = "=0.19.14", features = ["with-chrono-0_4"] }
rpassword = "=7.5.4"
serde = { version = "=1.0.229", features = ["derive"] }
tar = "=0.4.46"
toml = "=1.1.7"
ureq = { version = "=3.4.2", features = ["json"] }
walkdir = "=2.5.0"
