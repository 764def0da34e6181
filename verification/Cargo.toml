[package]
name = "code_utils"
version = "0.1.0"
edition = "2021"
publish = false

[dependencies]
anyhow = "=1.0.104"
diffy = "=0.5.2"
git2 = { version = "=0.21.0", default-features = false }
grep = "=0.4.1"
rs-tree-sitter-languages = "=0.0.2"
rustler = "=0.33.0"
serde = { version = "=1.0.229", features = ["derive"] }
serde_json = "=1.0.154"
similar = "=3.2.0"
tantivy = "=0.22.1"
tree-sitter = "=0.22.6"

[dev-dependencies]
tempfile = "=3.27.0"
