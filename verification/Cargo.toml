[package]
name = "othello_core"
version = "0.1.0"
edition = "2021"
publish = false

[dependencies]
log = "0.4"
num-derive = "0.4"
num-traits = "0.2"
xous = "0.9"
xous-api-log = "0.1"
xous-api-names = "0.9"
xous-api-ticktimer = "0.9"
