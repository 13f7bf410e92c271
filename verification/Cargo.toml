[package]
name = "crawler"
version = "0.1.0"
edition = "2021"
publish = false

[dependencies]
url = "*"
queues = "*"
select = "*"
reqwest = { version = "*", default-features = false, features = ["blocking"] }
clap = "*"
