[package]
name = "radar"
version = "0.1.0"
edition = "2021"
publish = false

[dependencies]
regex = "1"
chksum-hash-md5 = "*"
crc32-v2 = "*"
serde = { version = "1", features = ["derive"] }
serde_json = "1"
toml = "0.8"
axum = { version = "0.8", features = ["ws"] }
tokio = { version = "1", features = ["rt-multi-thread", "net", "sync", "macros"] }
tower-http = { version = "0.6", features = ["fs"] }
windows-sys = { version = "0.59", features = ["Win32_Foundation", "Win32_System_Diagnostics_ToolHelp", "Win32_System_LibraryLoader", "Win32_System_Memory", "Win32_System_ProcessStatus", "Win32_System_Threading", "Win32_UI_WindowsAndMessaging"] }
