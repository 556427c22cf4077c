[package]
name = "bundle_cat"
version = "0.1.0"
edition = "2021"
publish = false

[dependencies]
anyhow = "1"
bstr = "1"
clap = { version = "4", features = ["derive"] }
glob = "0.3"
jiff = { version = "0.2", features = ["serde"] }
serde = { version = "1", features = ["derive"] }
serde_json = "1"
zip = { version = "4", default-features = false, features = ["deflate", "jiff-02"] }
