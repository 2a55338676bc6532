[package]
name = "time_priority_order"
version = "0.1.0"
edition = "2021"
publish = false

[dependencies]
sortedlist-rs = "*"
chrono = "*"
