[package]
name = "iris"
version = "0.1.0"
edition = "2021"
publish = false

[dependencies]
uuid = { version = "=1.29.0", features = ["v4"] }
governor = "=0.10.4"
x509-parser = "=0.18.1"
argon2 = { version = "=0.5.3", features = ["std"] }
sha2 = "=0.10.9"
hex = "=0.4.3"
rcgen = { version = "=0.13.2", features = ["x509-parser"] }
time = "=0.3.55"
serde = { version = "=1.0.229", features = ["derive"] }
serde_json = "=1.0.154"
libc = "=0.2.191"
sysinfo = { version = "=0.40.1", default-features = false, features = ["system", "disk", "network"] }
jsonwebtoken = "=9.3.1"
