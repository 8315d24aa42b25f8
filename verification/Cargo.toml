[package]
name = "termrender"
version = "0.1.0"
edition = "2021"
publish = false

[dependencies]
winapi = { version = "0.3", features = ["winuser", "handleapi", "processenv", "winbase", "winnt", "wingdi", "wincon", "windef"] }
