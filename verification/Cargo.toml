[package]
name = "papyrus"
version = "0.1.0"
edition = "2021"
publish = false

[dependencies]
caseless = "0.2"
unicode-normalization = "0.1"
csv = "1"
iron = "0.6"
router = "0.6"
persistent = "0.4"
url = "1"
serde = "1"
serde_derive = "1"
serde_json = "1"
dotenv = "0.15"
