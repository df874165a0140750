[package]
name = "emailclient"
version = "0.1.0"
edition = "2021"
publish = false

[dependencies]
base64 = "0.22"
imap = { version = "3.0.0-alpha.1", default-features = false }
imap-proto = "0.16"
lettre = { version = "0.11", default-features = false, features = ["builder"] }
quoted_printable = "0.5"
reqwest = { version = "0.12", default-features = false, features = ["blocking", "rustls-tls"] }
rustls = { version = "0.23", default-features = false, features = ["ring", "std", "tls12"] }
serde = { version = "1", features = ["derive"] }
serde_json = "1"
sicompass-pdk = "*"
sicompass-sdk = "*"
webpki-roots = "1"

[dev-dependencies]
tempfile = "3"
