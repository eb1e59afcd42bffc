[package]
name = "kelder_scherm_renderer"
version = "0.1.0"
edition = "2021"
publish = false

[dependencies]
rayon = "1"
thiserror = "1"
tokio = { version = "1", features = ["macros", "rt-multi-thread"] }
tokio-tungstenite = "0.21"
futures-util = { version = "0.3", features = ["sink"] }
