[package]
name = "treedb"
version = "0.1.0"
edition = "2021"
publish = false

[dependencies]
sanakirja = "=1.4.3"
chrono = "=0.4.45"
interim = { version = "=0.2.1", features = ["chrono_0_4"] }
