[package]
name = "ros_madair"
version = "0.1.0"
edition = "2021"
publish = false

[dependencies]
serde = { version = "1", features = ["derive"] }
serde_json = "1"
rmp-serde = "1"
geojson = "0.24"
alizarin-core = "=0.2.1-alpha.86"
