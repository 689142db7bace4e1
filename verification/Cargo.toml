[package]
name = "block_alloc"
version = "0.1.0"
edition = "2021"
publish = false

[dependencies]
winapi = { version = "0.3", features = ["memoryapi", "winnt", "minwindef"] }
