[package]
name = "exif_csv"
version = "0.1.0"
edition = "2021"
publish = false

[dependencies]
chrono = "=0.4.45"
csv = "=1.4.0"
rayon = "=1.12.0"
rexif = "=0.7.6"
