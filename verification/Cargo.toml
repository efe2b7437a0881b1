[package]
name = "rcluster"
version = "0.1.0"
edition = "2021"
publish = false

[dependencies]
rand = "0.8"
futures = "0.1"
tokio-io = "0.1"
log = "0.4"
derive-error = "*"
