[package]
name = "dub"
version = "0.1.0"
edition = "2021"
publish = false

[dependencies]
anyhow = "1"
assert_no_alloc = "1"
realfft = "3"
ringbuf = "0.4"
symphonia = { version = "0.5", features = ["aac", "aiff", "alac", "flac", "isomp4", "mp3", "pcm", "wav"] }
thiserror = "1"
uniffi = { version = "0.28", features = ["cli"] }
