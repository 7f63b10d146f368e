[package]
name = "busperf"
version = "0.1.0"
edition = "2021"
publish = false

[dependencies]
itertools = "=0.15.0"
wellen = "=0.25.7"
yaml-rust2 = "=0.13.0"
tabled = "=0.22.0"
csv = "=1.4.0"
bpaf = "=0.9.28"
owo-colors = "=4.4.0"
flate2 = "=1.1.10"
bitcode = { version = "=0.6.9", features = ["derive"] }
blake3 = "=1.8.7"
hashbrown = "=0.17.1"
