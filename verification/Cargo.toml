[package]
name = "ferric_sort"
version = "0.1.0"
edition = "2021"

[dependencies]
clap = { version = "4", features = ["derive"] }

[dev-dependencies]
rand = "0.8"
