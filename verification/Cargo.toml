[package]
name = "wild_screen_alloc"
version = "0.1.0"
edition = "2021"
publish = false

[dependencies]
linked_list_allocator = "*"
spin = "*"
