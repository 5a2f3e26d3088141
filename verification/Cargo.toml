[package]
name = "voidui"
version = "0.1.0"
edition = "2021"
publish = false

[dependencies]
ropey = { version = "=2.0.0-beta.1", features = ["metric_lines_unicode"] }
unicode-segmentation = "=1.13.3"
