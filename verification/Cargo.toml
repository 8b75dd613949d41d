[package]
name = "seq-agent"
version = "0.1.0"
edition = "2021"
publish = false

[dependencies]
pcap = "2"
