[package]
name = "shredder"
version = "0.1.0"
edition = "2021"
publish = false

[dependencies]
crossbeam = "=0.8.5"
once_cell = "=1.21.4"
parking_lot = "=0.12.5"
stable_deref_trait = "=1.2.1"
