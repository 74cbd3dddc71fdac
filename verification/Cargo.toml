[package]
name = "rbx_session"
version = "0.1.0"
edition = "2021"
publish = false

[dependencies]
csv = "=1.4.0"
rbx_binary = "=0.1.0"
rbx_tree = "=0.1.0"
rbx_xml = "=0.1.0"
regex = "=1.13.1"
serde_json = "=1.0.154"
