[package]
name = "autocitefetch"
version = "0.1.0"
edition = "2021"
publish = false

[dependencies]
clap = { version = "=4.6.7", features = ["derive"] }
fs4 = "=0.8.4"
hashbrown = "=0.17.1"
serde = "=1.0.229"
serde_json = { version = "=1.0.154", features = ["preserve_order"] }
serde_yaml_ng = "=0.10.0"
ureq = "=2.12.1"
xmlparser = "=0.13.6"
