[package]
name = "colorum"
version = "0.1.0"
edition = "2021"
publish = false

[dependencies]
iced = { version = "=0.13.1", default-features = false, features = ["tiny-skia", "canvas", "tokio"] }
once_cell = "=1.21.4"
inventory = "=0.3.25"
tracing-subscriber = { version = "=0.3.23", features = ["env-filter", "fmt"] }
