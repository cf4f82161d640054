[package]
name = "genre_tagger"
version = "0.1.0"
edition = "2021"
publish = false

[dependencies]
anyhow = "1"
dotenvy = "0.15"
env_logger = "0.11"
ffmpeg-next = "*"
futures = "0.3"
log = "0.4"
rand = "0.9"
rspotify = "*"
tokio = { version = "1", features = ["full"] }
