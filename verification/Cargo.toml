[package]
name = "brudb"
version = "0.1.0"
edition = "2021"
publish = false

[dependencies]
indexmap = "2"
chrono = "0.4"
cron = "0.12"
dialoguer = "0.11"
notify-rust = "4"
