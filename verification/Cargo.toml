[package]
name = "face_crop_forge"
version = "0.1.0"
edition = "2021"
publish = false

[dependencies]
serde_json = "=1.0.154"
wasm-bindgen-futures = "0.4"
web-sys = { version = "=0.3.107", features = ["Window", "Document", "Element", "HtmlElement", "Storage", "Url", "HtmlCanvasElement", "CanvasRenderingContext2d", "HtmlVideoElement", "MediaStream", "MediaStreamTrack", "Navigator", "MediaDevices", "MediaDeviceInfo", "MediaStreamConstraints", "HtmlImageElement", "Blob", "File", "FilePropertyBag", "Location"] }
