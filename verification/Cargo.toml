[package]
name = "esp_alloc"
version = "0.1.0"
edition = "2021"
publish = false

[dependencies]
critical-section = { version = "1", features = ["std"] }

[dev-dependencies]
linked_list_allocator = { version = "0.10", default-features = false }
