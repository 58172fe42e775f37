[package]
name = "dwindle_core"
version = "0.1.0"
edition = "2021"
publish = false

[dependencies]
slotmap = "1"
serde = { version = "1", features = ["derive"] }
serde_json = "1"
thiserror = "2"
tracing = "0.1"
tracing-subscriber = { version = "0.3", features = ["env-filter", "fmt"] }
tokio = { version = "1", features = ["macros", "rt-multi-thread", "signal"] }
zbus = { version = "5", default-features = false, features = ["tokio"] }
