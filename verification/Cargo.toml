[package]
name = "evm_asm"
version = "0.1.0"
edition = "2021"
publish = false

[dependencies]
fuel-etk-asm = "0.3.1-dev"
fuel-etk-ops = "0.3.1-dev"
fuel-ethabi = "18.0"
