[package]
name = "issho"
version = "0.1.0"
edition = "2021"
publish = false

[dependencies]
slotmap = "1"
smallvec = "1"
smol_str = "*"
hashbrown = "*"
raw-window-handle = "0.6"
