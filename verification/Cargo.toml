[package]
name = "pros_command"
version = "0.1.0"
edition = "2021"
publish = false

[dependencies]
hashbrown = "=0.17.1"
pros = "=0.9.1"
snafu = { version = "=0.9.2", default-features = false }
