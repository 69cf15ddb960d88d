[package]
name = "fps_unlocker"
version = "0.1.0"
edition = "2021"
publish = false

[dependencies]
mach2 = "0.4"
objc2 = "0.6"
objc2-app-kit = "0.3"
objc2-foundation = "0.3"
objc2-quartz-core = "0.3"
tauri = { version = "2", default-features = false, features = ["wry"] }
