[package]
name = "quickselect"
version = "0.1.0"
edition = "2021"
publish = false

[dependencies]
rand = "0.8"
fake = { version = "2", features = ["derive"] }
arbitrary = { version = "1", features = ["derive"] }

[dev-dependencies]
quickcheck = { version = "1", default-features = false }
