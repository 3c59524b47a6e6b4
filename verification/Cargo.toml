[package]
name = "tsp"
version = "0.1.0"
edition = "2021"
publish = false

[dependencies]
itertools = "=0.15.0"
rand = "=0.5.6"
rayon = "=1.12.0"
serde = { version = "=1.0.229", features = ["derive"] }
csv = "=1.4.0"
structopt = "=0.3.26"
log = "=0.4.35"
loggerv = "=0.7.2"
travelling_salesman = "=1.1.22"
time = "=0.3.55"
snailquote = "=0.3.1"
chrono = { version = "=0.4.45", features = ["serde"] }
ndarray = "=0.15.6"
diesel = { version = "=2.3.14", default-features = false, features = ["postgres_backend", "chrono"] }
actix-web = "=4.18.1"
