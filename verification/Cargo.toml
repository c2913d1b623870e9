[package]
name = "irzean"
version = "0.1.0"
edition = "2021"
publish = false

[dependencies]
async-walkdir = "*"
axum = { version = "0.8", features = ["macros"] }
blake3 = { version = "1", features = ["pure"] }
color-eyre = "*"
comrak = { version = "*", default-features = false }
dotenvy = "*"
facet = "*"
facet-yaml = "*"
futures-lite = "*"
git2 = { version = "*", default-features = false }
grass = { version = "*", default-features = false }
minijinja = "2"
rust-embed = "*"
serde = { version = "1", features = ["derive"] }
slug = "*"
tantivy = { version = "*", default-features = false }
time = { version = "0.3", features = ["formatting"] }
tokio = { version = "1", features = ["full"] }
tower-http = { version = "*", features = ["compression-gzip", "trace"] }
tracing = "*"
tracing-error = "*"
tracing-subscriber = { version = "*", features = ["env-filter", "fmt"] }
urlencoding = "*"
