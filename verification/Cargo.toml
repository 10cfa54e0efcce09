[package]
name = "meeting_scribe"
version = "0.1.0"
edition = "2021"
publish = false

[dependencies]
anyhow = "1"
cpal = "*"
ctrlc = "3"
hound = "3"
serde_json = "1"
