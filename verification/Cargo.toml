[package]
name = "pane_dock"
version = "0.1.0"
edition = "2021"

[dependencies]
druid = { version = "0.8", features = ["im"] }
