[package]
name = "seed_outliner"
version = "0.1.0"
edition = "2021"
publish = false

[dependencies]
generational-indextree = "=1.1.4"
uuid = { version = "=1.29.0", features = ["v4", "serde"] }
unicode-segmentation = "=1.13.3"
serde = { version = "=1.0.229", features = ["derive"] }
serde_json = "=1.0.154"
seed = "=0.10.0"
web-sys = { version = "=0.3.77", features = ["HtmlElement", "Selection", "Range", "Document", "Node", "NodeList", "KeyboardEvent", "Event", "EventTarget", "Window"] }
