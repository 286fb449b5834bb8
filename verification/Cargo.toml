[package]
name = "mitos-system-monitor"
version = "0.1.0"
edition = "2021"
publish = false

[dependencies]
egui = "0.29"
egui_plot = "0.29"
glob = "0.3"
sysinfo = { version = "0.31", default-features = false, features = ["system"] }
tokio = { version = "1", default-features = false, features = ["io-util", "macros", "net", "rt", "rt-multi-thread", "sync", "time"] }
