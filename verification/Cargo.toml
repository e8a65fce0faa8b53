[package]
name = "packet_factory"
version = "0.1.0"
edition = "2021"
publish = false

[dependencies]
regex = "*"
serde = { version = "*", features = ["derive"] }
etherparse = "*"
pcap-file = "*"
