[package]
name = "kira_cdh_compat_lsh"
version = "0.1.0"
edition = "2021"
publish = false

[dependencies]
hashbrown = "*"
rustc-hash = "*"
thiserror = "*"
