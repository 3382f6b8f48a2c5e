[package]
name = "wordpiece_utils"
version = "0.1.0"
edition = "2021"
publish = false

[dependencies]
wordpieces = "*"
clap = "2"
conllu = "*"
conllx = "*"
stdinout = "*"
