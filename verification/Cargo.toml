[package]
name = "git_transport"
version = "0.1.0"
edition = "2021"
publish = false

[dependencies]
bytes = "1"
url = "2"
sha1 = "0.10"
chrono = { version = "0.4", default-features = false, features = ["std", "now"] }
reqwest = { version = "0.12", default-features = false, features = ["stream"] }
futures-util = "0.3"
