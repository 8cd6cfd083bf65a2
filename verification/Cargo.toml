[package]
name = "turnhammer"
version = "0.3.0"
edition = "2021"
publish = false

[dependencies]
anyhow = "1"
argh = "0.1"
byteorder = "1"
futures = "0.3"
spin_sleep = "1"
stunclient = "*"
tokio = { version = "1", features = ["macros", "net", "rt", "sync", "time"] }
tokio-stream = { version = "0.1", features = ["time"] }
turnclient = "*"
unzip-n = "0.1"
