[package]
name = "torrent"
version = "0.1.0"
edition = "2021"
publish = false

[dependencies]
clap = "=2.34.0"
prettytable-rs = "=0.10.0"
reqwest = { version = "=0.11.27", default-features = false, features = ["blocking", "rustls-tls"] }
select = "=0.6.1"
tokio = { version = "=1.54.1", features = ["macros", "rt-multi-thread"] }
url = "=2.5.8"

[dev-dependencies]
regex = "1"
