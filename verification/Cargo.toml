[package]
name = "devenv_tasks"
version = "0.1.0"
edition = "2021"
publish = false

[dependencies]
console = "0.15"
tokio = { version = "1", features = ["macros", "rt", "rt-multi-thread", "sync", "time", "process", "io-util"] }
