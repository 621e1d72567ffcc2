[package]
name = "slot_heap"
version = "0.1.0"
edition = "2021"

[dev-dependencies]
attorand = "*"
