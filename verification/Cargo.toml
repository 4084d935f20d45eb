[package]
name = "excel2csv"
version = "0.1.0"
edition = "2021"
publish = false

[dependencies]
chrono = "=0.4.45"
clap = { version = "=4.6.7", features = ["derive"] }
csv = "=1.4.0"
formualizer-workbook = { version = "=0.11.1", features = ["umya3"] }
thiserror = "=2.0.21"
umya-spreadsheet = "=2.3.3"
xlrd = "=0.1.1"
