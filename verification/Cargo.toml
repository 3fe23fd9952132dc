[package]
name = "liz"
version = "0.1.0"
edition = "2021"
publish = false

[dependencies]
regex = "=1.13.1"
rlua = "=0.19.8"
chrono = "=0.4.45"
once_cell = "=1.21.4"
serde_json = "=1.0.154"
num_cpus = "=1.17.0"
simple-error = "=0.3.3"
reqwest = { version = "=0.11.27", default-features = false, features = ["blocking", "rustls-tls"] }
