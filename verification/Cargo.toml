[package]
name = "tree_ds"
version = "0.1.0"
edition = "2021"
publish = false

[dependencies]
sequential_gen = "*"
thiserror = "*"
serde = { version = "1", features = ["derive"] }

[dev-dependencies]
serde_json = { version = "1", features = ["preserve_order"] }
