[package]
name = "lrgex_restore"
version = "1.5.3"
edition = "2021"
publish = false

[dependencies]
ed25519-dalek = "2"
hex = "0.4"
sha2 = "0.10"
serde = { version = "1", features = ["derive"] }
serde_json = "1"
chrono = "0.4"
rand = "0.8"
rayon = "1"
tar = "0.4"
zstd = "0.13"
ureq = { version = "2", features = ["json"] }
winreg = "0.52"
windows-sys = { version = "0.59", features = ["Win32_Foundation", "Win32_Storage_FileSystem", "Win32_System_Threading", "Win32_System_Console", "Win32_UI_Shell", "Win32_System_Com", "Win32_Security"] }
rfd = "0.15"
