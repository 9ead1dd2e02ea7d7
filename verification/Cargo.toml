[package]
name = "radicle-surf"
version = "0.1.0"
edition = "2021"
publish = false

[dependencies]
nonempty = "*"

[dev-dependencies]
quickcheck = { version = "*", default-features = false }
