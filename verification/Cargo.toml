[package]
name = "rodio_scheduler"
version = "0.1.0"
edition = "2021"
publish = false

[dependencies]
rodio = { version = "=0.21.1", default-features = false, features = ["wav", "wav_output"] }
