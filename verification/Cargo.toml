[package]
name = "resplice"
version = "0.1.0"
edition = "2021"
publish = false

[dependencies]
anyhow = "1"
clap = { version = "4", features = ["derive"] }
goblin = "0.10"
object = { version = "0.40", features = ["write"] }
quote = "1"
syn = { version = "2", features = ["full"] }
