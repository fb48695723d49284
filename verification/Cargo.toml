[package]
name = "memsnap"
version = "0.1.0"
edition = "2021"
publish = false

[dependencies]
anyhow = "1"
chrono = "0.4"
parking_lot = "0.12"
rusqlite = { version = "*", features = ["bundled"] }
serde = { version = "1", features = ["derive"] }
tauri = { version = "2", default-features = false }
winapi = { version = "0.3", features = ["minwindef", "ntdef", "tlhelp32", "winbase", "memoryapi", "processthreadsapi", "handleapi", "psapi", "winnt"] }
