[package]
name = "road_trip_planner"
version = "0.1.0"
edition = "2021"
publish = false

[dependencies]
anyhow = "1"
clap = "3"
csv = "1"
geo = "0.28"
itertools = "0.10"
serde = { version = "1", features = ["derive"] }
