[package]
name = "steam_screenshot_organizer"
version = "0.1.0"
edition = "2021"
publish = false

[dependencies]
notify = "*"
reqwest = { version = "*", default-features = false, features = ["blocking", "json"] }
serde = { version = "*", features = ["derive"] }
serde-xml-rs = "*"
