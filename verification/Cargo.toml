[package]
name = "pseudodouble"
version = "0.1.0"
edition = "2021"
publish = false

[dependencies]
approx = "=0.5.1"
num-traits = "=0.2.19"
simba = "0.9"

[dev-dependencies]
libm = "=0.2.16"
rand = "=0.8.8"
