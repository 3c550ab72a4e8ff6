[package]
name = "http_downloader"
version = "0.1.0"
edition = "2021"
publish = false

[dependencies]
anyhow = "1"
bounded_join_set = "*"
chksum-md5 = "*"
log = "0.4"
reqwest = { version = "0.12", default-features = false, features = ["rustls-tls"] }
tokio = { version = "1", features = ["macros", "rt", "sync", "time"] }
url = "2"
zip = { version = "*", default-features = false, features = ["deflate"] }
