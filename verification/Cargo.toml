[package]
name = "annotator"
version = "0.1.0"
edition = "2021"
publish = false

[dependencies]
image = { version = "=0.25.10", default-features = false, features = ["jpeg"] }
eframe = { version = "=0.29.1", default-features = false, features = ["glow", "x11", "default_fonts"] }
egui = { version = "=0.29.1", default-features = false }
egui_extras = { version = "=0.29.1", default-features = false }
env_logger = { version = "0.11", default-features = false }
serde = { version = "=1.0.229", features = ["derive"] }
serde_yaml = "=0.9.34"
tokio = { version = "=1.54.1", default-features = false, features = ["rt"] }
aws-config = { version = "=1.13.0", default-features = false, features = ["rt-tokio", "behavior-version-latest"] }
aws-sdk-textract = { version = "=1.117.0", default-features = false, features = ["rt-tokio"] }
