[package]
name = "reliable_sub"
version = "0.1.0"
edition = "2021"
publish = false

[dependencies]
zenoh-buffers = "0.11"
zenoh-codec = "0.11"
zenoh-protocol = "0.11"
zenoh-keyexpr = "0.11"
form_urlencoded = "1"
