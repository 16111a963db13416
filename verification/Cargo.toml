[package]
name = "gst_bill"
version = "0.1.0"
edition = "2021"
publish = false

[dependencies]
anyhow = "1"
js-sys = "0.3"
leptos = { version = "0.8", features = ["csr"] }
serde = { version = "1", features = ["derive"] }
serde_json = "1"
wasm-bindgen = "0.2"
web-sys = { version = "0.3", features = ["console", "Document", "Element", "Event", "EventTarget", "HtmlAnchorElement", "HtmlElement", "HtmlInputElement", "HtmlTextAreaElement", "MouseEvent", "Node", "Storage", "Window"] }
