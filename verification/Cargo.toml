[package]
name = "slant"
version = "0.1.0"
edition = "2021"
publish = false

[dependencies]
kiddo = "=6.3.0"
fixed = "=1.30.0"
rand = "=0.10.3"
rand_xoshiro = "=0.8.1"
linearize = "=0.1.8"
log = "=0.4.35"
env_logger = "=0.11.11"
num-traits = "=0.2.19"
rayon = "=1.12.0"
thread_local = "=1.1.10"
lazy_static = "=1.5.1"
az = "=1.3.0"
take_mut = "=0.2.2"
