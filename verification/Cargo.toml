[package]
name = "rotonda"
version = "0.5.0"
edition = "2021"
publish = false

[dependencies]
arc-swap = "1"
axum = "0.8"
bytes = "=1.12.1"
chrono = "=0.4.45"
futures = "0.3"
inetnum = { version = "=0.1.1", features = ["serde"] }
libc = "0.2"
log = "0.4"
roto = "0.6"
rotonda-store = "=0.5.0"
routecore = { version = "=0.6.0", features = ["bgp", "bmp", "serde"] }
serde = { version = "1", features = ["derive"] }
serde_json = "1"
serde_with = "3"
smallvec = "=1.16.4"
tokio = { version = "1", features = ["full"] }
tokio-stream = "0.1"
uuid = { version = "1", features = ["v4"] }
