[package]
name = "gridlook"
version = "0.1.0"
edition = "2021"
publish = false

[dependencies]
base64 = "0.22"
serde = { version = "1", features = ["derive"] }
serde_json = "1"
clap = { version = "4", features = ["derive"] }
thiserror = "2"
url = "2"
zarrs_metadata = "*"
tokio = { version = "1", features = ["rt", "macros"] }
object_store = { version = "*", features = ["aws", "gcp", "azure", "http"] }
futures-util = "0.3"
tempfile = "3"
memmap2 = "0.9"
gribberish = "*"
netcdf = "*"
netcdf-sys = "*"
