[package]
name = "dope_tls"
version = "0.1.0"
edition = "2021"
publish = false

[dependencies]
dope = "=0.15.1"
o3 = "=0.16.3"
shin = "=0.17.0"
rustls = { version = "0.23", default-features = false, features = ["ring", "std", "tls12"] }
webpki-roots = "1"

[dev-dependencies]
ring = "0.17"
