[package]
name = "min_votes_to_change_result"
version = "0.1.0"
edition = "2021"
publish = false

[dependencies]
csv = "*"
json = "*"
serde = { version = "*", features = ["derive"] }
