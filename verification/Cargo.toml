[package]
name = "native_windows"
version = "0.1.0"
edition = "2021"
publish = false

[dependencies]
syn = { version = "2", features = ["full", "extra-traits"] }
quote = "1"
proc-macro2 = "1"
itertools = "*"
proc-macro-crate = "3"
taffy = "*"
winapi = { version = "0.3", features = ["winuser", "windef", "minwindef", "libloaderapi"] }
