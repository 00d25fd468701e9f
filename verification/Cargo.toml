[package]
name = "spam_stats"
version = "0.1.0"
edition = "2021"
publish = false

[dependencies]
anyhow = "1"
chrono = "0.4"
clap = { version = "4", features = ["derive"] }
email = "*"
lettre = { version = "0.11", default-features = false, features = ["builder", "smtp-transport"] }
libc = "0.2"
mime = "0.3"
plotters = { version = "0.3", default-features = false, features = ["bitmap_backend", "chrono", "all_series", "all_elements", "full_palette"] }
png = "*"
regex = "1"
thiserror = "1"
