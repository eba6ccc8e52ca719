[package]
name = "composite_broker"
version = "0.1.0"
edition = "2021"
publish = false

[dependencies]
dashmap = "=6.2.1"
bytes = "=0.5.6"
mqtt-v5 = "=0.1.1"
mqtt-sn = "=0.2.2"
byte = "=0.2.7"
