[package]
name = "fit"
version = "0.1.0"
edition = "2021"
publish = false

[dependencies]
clap = { version = "4", features = ["derive"] }
diff = "0.1"
flate2 = "1"
sha1 = "0.10"
