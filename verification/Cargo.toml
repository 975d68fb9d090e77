[package]
name = "newhope"
version = "0.1.0"
edition = "2021"
publish = false

[dependencies]
sha3 = "=0.10.9"
keccak = "=0.1.6"
rac = "=1.3.4"
generic-array = "=0.14.9"
hex = "=0.4.3"
num-bigint = "=0.4.8"
num-traits = "=0.2.19"
rand = "=0.8.8"
