[package]
name = "opencc_jieba_rs"
version = "0.1.0"
edition = "2021"
publish = false

[dependencies]
jieba-rs = { version = "=0.7.4", features = ["tfidf", "textrank"] }
clap = "=4.6.7"
encoding_rs = "=0.8.42"
encoding_rs_io = "=0.1.8"
serde = { version = "=1.0.229", features = ["derive"] }
serde_json = "=1.0.151"
zstd = "=0.13.3"
zip = "=8.6.0"
tempfile = "=3.27.0"
walkdir = "=2.5.0"
regex = "=1.13.1"
