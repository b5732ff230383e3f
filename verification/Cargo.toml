[package]
name = "pdf_pages"
version = "0.1.0"
edition = "2021"
publish = false

[dependencies]
lopdf = { version = "=0.45.0", default-features = false }
actix-web = "=4.15.0"
actix-multipart = "=0.8.5"
actix-files = "=0.7.0"
futures-util = "=0.3.34"
log = "=0.4.34"
env_logger = "=0.11.11"
