[package]
name = "windowflow"
version = "1.2.0"
edition = "2021"
publish = false

[dependencies]
sha2 = "=0.10.9"
base64 = "=0.22.1"
getrandom = "=0.2.17"
serde = { version = "=1.0.229", features = ["derive"] }
serde_json = "=1.0.154"
chrono = "=0.4.45"
rusqlite = { version = "=0.31.0", features = ["bundled"] }
lazy_static = "=1.5.1"
log = "=0.4.35"
env_logger = "=0.11.11"
thiserror = "=1.0.69"
reqwest = { version = "0.12", features = ["json"] }
tokio = { version = "1", features = ["rt"] }
keyring = "3"
image = { version = "0.25", default-features = false, features = ["png"] }
windows = { version = "0.61", features = ["Win32_Foundation", "Win32_Graphics_Gdi", "Win32_UI_WindowsAndMessaging", "Win32_UI_HiDpi", "Win32_UI_Input_KeyboardAndMouse", "Win32_System_Threading", "Win32_UI_Accessibility", "Win32_System_Com", "Win32_System_LibraryLoader"] }
