[package]
name = "matr_project_file_manager"
version = "0.1.0"
edition = "2021"
publish = false

[dependencies]
chrono = "=0.4.45"
rusqlite = { version = "=0.40.2", features = ["bundled"] }
rusqlite_migration = "=2.6.0"
crossbeam-channel = "=0.5.17"
walkdir = "=2.5.0"
dunce = "=1.0.5"
directories = "=6.0.0"
notify = "=8.2.1"
notify-debouncer-full = "=0.7.0"
thiserror = "=2.0.21"
open = "=5.4.5"
iced = { version = "=0.14.0", default-features = false, features = ["tiny-skia", "x11", "thread-pool", "image-without-codecs"] }
rfd = { version = "=0.17.2", default-features = false, features = ["xdg-portal"] }
image = { version = "=0.25.10", default-features = false, features = ["png", "jpeg", "bmp"] }
regex = "*"
