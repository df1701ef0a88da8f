[package]
name = "admin_assist"
version = "0.1.0"
edition = "2021"
publish = false

[dependencies]
anyhow = "*"
chrono = "*"
clap = { version = "*", features = ["derive"] }
colored = "*"
directories = "*"
sysinfo = "*"
uuid = { version = "*", features = ["v4"] }
