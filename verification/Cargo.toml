[package]
name = "delta_tree"
version = "0.1.0"
edition = "2021"
publish = false

[dependencies]
anyhow = "=1.0.104"
bstr = "=1.13.1"
gix-hash = "=0.14.2"
gix-refspec = "0.23"
gix-validate = "=0.8.5"
thiserror = "=1.0.69"
