[package]
name = "modality_json"
version = "0.1.0"
edition = "2021"
publish = false

[dependencies]
regex = "*"
clap = { version = "*", features = ["derive", "env"] }
ctrlc = "*"
exitcode = "*"
serde = { version = "*", features = ["derive"] }
tokio = { version = "*", features = ["rt-multi-thread", "macros"] }
url = "*"
uuid = { version = "*", features = ["v4", "serde"] }
modality-api = "*"
modality-ingest-client = "*"
modality-ingest-protocol = "*"
modality-reflector-config = "*"
