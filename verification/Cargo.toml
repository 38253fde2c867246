[package]
name = "corpus"
version = "0.1.0"
edition = "2021"
publish = false

[dependencies]
anyhow = "1"
chrono = "0.4"
dirs = "*"
fastembed = { version = "5", default-features = false, features = ["ort-load-dynamic", "hf-hub-rustls-tls"] }
futures-executor = "0.3"
futures-util = "0.3"
image = { version = "0.25", default-features = false, features = ["png"] }
lopdf = "*"
pdf-extract = "*"
pdfium-render = "*"
rmcp = { version = "*", features = ["server", "transport-io", "macros"] }
serde = { version = "1", features = ["derive"] }
serde_json = "1"
sha2 = "0.10"
tokio = { version = "1", features = ["rt-multi-thread", "macros"] }
ureq = "3"
