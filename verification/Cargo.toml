[package]
name = "local_drive"
version = "0.1.0"
edition = "2021"
publish = false

[dependencies]
uuid = { version = "*", features = ["v4"] }
sysinfo = "*"
libc = "*"
argon2 = "*"
jsonwebtoken = "*"
chrono = "*"
serde = { version = "*", features = ["derive"] }
serde_json = "*"
clap = { version = "*", features = ["derive"] }
dotenv = "*"
anyhow = "*"
winapi = { version = "*", features = ["fileapi", "winnt", "minwindef"] }
