[package]
name = "des_inspect"
version = "0.1.0"
edition = "2021"
publish = false

[dependencies]
des = "*"
fxhash = "*"
serde = { version = "*", features = ["derive"] }
serde_json = "*"
serde_yml = "*"
tracing = "*"
tracing-subscriber = "*"
valuable = "*"
