[package]
name = "schemaform"
version = "0.1.0"
edition = "2021"
publish = false

[dependencies]
jsonptr = "*"
num-bigint = "*"
referencing = "*"
serde = { version = "1", features = ["derive"] }
serde_json = { version = "1", features = ["arbitrary_precision"] }
serde_path_to_error = "*"
sha2 = "*"
