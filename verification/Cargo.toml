[package]
name = "locatew"
version = "0.1.0"
edition = "2021"
publish = false

[dependencies]
globset = "0.4"
flume = "0.11"
walkdir = "2"
serde_json = "1"
clap = "4"
num-format = "0.4"
ctrlc = "3"
