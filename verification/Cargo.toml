[package]
name = "masqr"
version = "0.1.0"
edition = "2021"
publish = false

[dependencies]
base64 = "0.22"
bytes = "1"
chrono = "0.4"
h2 = "0.4"
hex = "0.4"
http = "1"
md-5 = "0.10"
p256 = { version = "0.13", features = ["pkcs8", "pem", "ecdsa"] }
quinn = { version = "0.11", default-features = false, features = ["runtime-tokio", "rustls-ring"] }
quinn-proto = { version = "0.11", default-features = false, features = ["rustls-ring"] }
rand = "0.8"
rcgen = { version = "0.13", default-features = false, features = ["ring", "pem"] }
reqwest = { version = "0.12", default-features = false, features = ["rustls-tls", "json", "http2"] }
rustls = { version = "0.23", default-features = false, features = ["ring", "std", "tls12", "logging"] }
serde = { version = "1", features = ["derive"] }
serde_json = "1"
thiserror = "2"
tokio = { version = "1", features = ["rt-multi-thread", "macros", "net", "io-util", "time", "sync", "signal"] }
tokio-rustls = { version = "0.26", default-features = false, features = ["ring", "tls12", "logging"] }
windows-sys = { version = "0.61", features = ["Win32_Foundation", "Win32_NetworkManagement_IpHelper", "Win32_NetworkManagement_Ndis", "Win32_Networking_WinSock", "Win32_Security", "Win32_Security_Authorization", "Win32_System_IO", "Win32_System_LibraryLoader", "Win32_System_Registry", "Win32_System_Threading"] }
x25519-dalek = { version = "2", features = ["static_secrets"] }
x509-cert = "0.2"
