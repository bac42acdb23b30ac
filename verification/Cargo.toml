[package]
name = "l7dstat"
version = "0.1.0"
edition = "2021"
publish = false

[dependencies]
mio = { version = "1", features = ["net", "os-poll"] }
socket2 = "0.5"
libc = "0.2"
num_cpus = "1"
serde = { version = "1", features = ["derive"] }
serde_json = "1"
