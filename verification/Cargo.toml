[package]
name = "randbats_winrates"
version = "0.1.0"
edition = "2021"
publish = false

[dependencies]
indexmap = "*"
pikkr-annika = "*"
prettytable-rs = "*"
rayon = "*"
structopt = "*"
