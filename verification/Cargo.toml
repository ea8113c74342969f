[package]
name = "rgb_containers"
version = "0.1.0"
edition = "2021"
publish = false

[dependencies]
aluvm = "=0.11.0-beta.6"
amplify = "=4.6.2"
baid58 = "=0.4.4"
bp-core = "=0.11.0-beta.6"
commit_verify = "=0.11.0-beta.6"
rgb-core = "=0.11.0-beta.6"
strict_types = "=2.7.0-beta.4"
