[package]
name = "fhe_dsl"
version = "0.1.0"
edition = "2021"
publish = false

[dependencies]
bit-set = "=0.11.1"
enum-iterator = "=2.3.0"
la-arena = "=0.3.1"
prio-queue = "=0.1.1"
thin-vec = "=0.2.21"
