[package]
name = "non_blocking_mutex"
version = "0.1.0"
edition = "2021"
publish = false

[dependencies]
sharded_queue = "*"
crossbeam-utils = "*"
