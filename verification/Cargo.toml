[package]
name = "compute_controller"
version = "0.1.0"
edition = "2021"
publish = false

[dependencies]
timely = "0.12"
uuid = { version = "1", features = ["v4"] }
futures = "0.3"
tracing = "0.1"
thiserror = "1"
differential-dataflow = "0.12"
