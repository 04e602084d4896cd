[package]
name = "sheet_cells"
version = "0.1.0"
edition = "2021"
publish = false

[dependencies]
anyhow = "1"
bigdecimal = "0.4"
calamine = "0.22"
chrono = { version = "0.4", default-features = false, features = ["std"] }
xlsxwriter = "0.6"
