[package]
name = "music_snobster"
version = "0.1.0"
edition = "2021"
publish = false

[dependencies]
bytes = "*"
tokio = { version = "*", features = ["full"] }
tokio-util = { version = "*", features = ["codec"] }
futures = "*"
clap = "*"
ring = "*"
mp3-metadata = "*"
lewton = "*"
cursive = "*"
