[package]
name = "cti_engine"
version = "0.1.0"
edition = "2021"
publish = false

[dependencies]
stop-words = "=0.10.1"
serde = { version = "=1.0.229", features = ["derive"] }
serde_json = "=1.0.151"
serde_yaml = "=0.9.34"
terraform-parser = "=0.1.0"
keyword_extraction = { version = "=1.5.0", features = ["yake"] }
clap = { version = "=4.6.7", features = ["derive"] }
