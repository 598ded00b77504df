[package]
name = "vennbase"
version = "0.1.0"
edition = "2021"
publish = false

[dependencies]
base64 = "0.21"
chrono = "0.4"
uuid = { version = "1", features = ["v4"] }
image = "0.24"
fast_image_resize = "2"
logic-parser = "*"
