[package]
name = "ledgible"
version = "0.1.0"
edition = "2021"
publish = false

[dependencies]
diff = "0.1"
term = "*"
clap = { version = "4", features = ["cargo"] }
