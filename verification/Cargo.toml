[package]
name = "aardvark_dns"
version = "0.1.0"
edition = "2021"
publish = false

[dependencies]
arc-swap = "*"
clap = { version = "*", features = ["derive"] }
flume = "*"
futures = "*"
inotify = "*"
libc = "*"
nix = { version = "*", features = ["fs", "net", "process", "signal", "poll", "term", "user"] }
tokio = { version = "*", features = ["full"] }
