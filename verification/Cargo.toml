[package]
name = "caj2pdf"
version = "0.1.0"
edition = "2021"
publish = false

[dependencies]
encoding_rs = "=0.8.44"
flate2 = "=1.1.10"
lopdf = { version = "=0.46.0", default-features = false }
pdfluent-jbig2 = "=0.3.0"
thiserror = "=1.0.69"
clap = { version = "=4.6.7", features = ["derive"] }
anyhow = "=1.0.104"
tracing = "=0.1.44"
tracing-subscriber = { version = "=0.3.23", features = ["env-filter"] }
