[package]
name = "rime_user_dict_sync"
version = "0.1.0"
edition = "2021"
publish = false

[dependencies]
anyhow = "1"
base64 = "0.22"
chrono = "0.4"
eframe = { version = "0.31", default-features = false, features = ["default_fonts", "glow", "x11"] }
filetime = "0.2"
httpdate = "1"
image = { version = "0.25", default-features = false, features = ["ico"] }
percent-encoding = "2"
regex = "1"
reqwest = { version = "0.12", default-features = false, features = ["blocking", "rustls-tls"] }
roxmltree = "0.20"
time = "0.3"
url = "2"
walkdir = "2"
zip = { version = "2", default-features = false, features = ["deflate", "time"] }
