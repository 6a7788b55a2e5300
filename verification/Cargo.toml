[package]
name = "davgit"
version = "0.1.0"
edition = "2021"
publish = false

[dependencies]
anyhow = "1"
bytes = "1"
clap = { version = "4", features = ["derive"] }
dav-server = { version = "*", default-features = false }
flate2 = "1"
futures-util = "0.3"
gix-actor = "*"
gix-hash = { version = "*", features = ["sha1"] }
gix-object = "*"
hex = "0.4"
http-body-util = "0.1"
hyper = { version = "1", features = ["server", "http1"] }
hyper-util = { version = "0.1", features = ["tokio"] }
russh = { version = "*", default-features = false, features = ["ring", "rsa"] }
sha1 = "0.10"
smallvec = "1"
tokio = { version = "1", features = ["full"] }
tracing = "0.1"
tracing-subscriber = { version = "0.3", features = ["env-filter"] }
