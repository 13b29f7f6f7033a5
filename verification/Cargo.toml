[package]
name = "tango_bridge"
version = "0.1.0"
edition = "2021"
publish = false

[dependencies]
auto-launch = "*"
axum = { version = "0.8", features = ["macros", "ws"] }
bytes = "1"
futures-util = { version = "0.3", features = ["sink"] }
http = "1"
image = { version = "0.25", default-features = false, features = ["png"] }
open = "5"
reqwest = { version = "0.12", default-features = false, features = ["json", "rustls-tls", "stream"] }
serde = { version = "1", features = ["derive"] }
single-instance = "*"
tokio = { version = "1", features = ["full"] }
tokio-util = "0.7"
tower-http = { version = "0.6", features = ["cors"] }
tracing = "0.1"
tracing-subscriber = "0.3"
webrtc = "0.13"
