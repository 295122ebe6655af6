[package]
name = "rvc"
version = "0.1.0"
edition = "2021"
publish = false

[dependencies]
chrono = "0.4"
clap = { version = "4", features = ["derive"] }
colored = "2"
diff = "0.1"
directories = "5"
regex = "1"
ron = "0.8"
serde = { version = "1", features = ["derive"] }
