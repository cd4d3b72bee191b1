[package]
name = "osu_song_manager"
version = "0.1.0"
edition = "2021"
publish = false

[dependencies]
sha2 = "=0.10.9"
md-5 = "=0.10.6"
serde = { version = "=1.0.229", features = ["derive"] }
serde_json = "=1.0.154"
zip = { version = "=2.6.1", default-features = false, features = ["deflate"] }
csv = "=1.4.0"
trash = "=5.2.9"
image = { version = "=0.25.10", default-features = false, features = ["jpeg", "png", "webp"] }
reqwest = { version = "=0.13.5", features = ["blocking", "form"] }
