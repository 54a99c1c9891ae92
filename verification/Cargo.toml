[package]
name = "rocky"
version = "0.1.0"
edition = "2021"
publish = false

[dependencies]
actix-web = "*"
actix-web-prom = "*"
confy = "*"
log = "*"
num_cpus = "*"
rocksdb = "*"
serde = { version = "*", features = ["derive"] }
serde_json = "*"
simplelog = "*"
structopt = "*"
