[package]
name = "axum_folder_router"
version = "0.4.1"
edition = "2021"
publish = false

[dependencies]
syn = { version = "2", features = ["full"] }
quote = "1"
proc-macro2 = "1"
toml = "0.8"
