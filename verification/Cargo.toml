[package]
name = "new_tee_os"
version = "0.1.0"
edition = "2021"
publish = false

[dependencies]
bytes = "=1.12.1"
nix = "=0.20.2"
failure = "=0.1.8"
log = "=0.4.35"
linked_list_allocator = { version = "=0.9.1", default-features = false }
