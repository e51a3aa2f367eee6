[package]
name = "multisync"
version = "0.1.0"
edition = "2021"
publish = false

[dependencies]
hound = "3"
minimp3 = "0.5"
opus = "0.3"
ringbuf = "0.2"
rodio = { version = "0.15", default-features = false }
slotmap = "1"
websocket = { version = "0.26", default-features = false, features = ["sync"] }
