[package]
name = "sbt_bridge"
version = "0.1.0"
edition = "2021"
publish = false

[dependencies]
ctrlc = "3"
log = "0.4"
serde = "1"
serde_derive = "1"
serde_json = "1"
syslog = "4"
url = "1.7"
