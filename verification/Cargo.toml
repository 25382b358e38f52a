[package]
name = "roadnet"
version = "0.1.0"
edition = "2021"
publish = false

[dependencies]
radix-heap = "=0.4.2"
pheap = "=0.3.0"
chrono = "=0.4.45"
rayon = "=1.12.0"
jni = "=0.21.1"
crossbeam = "=0.8.5"
