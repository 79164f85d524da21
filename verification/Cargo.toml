[package]
name = "upbit_notice"
version = "0.1.0"
edition = "2021"
publish = false

[dependencies]
reqwest = { version = "=0.12.28", default-features = false, features = ["blocking", "rustls-tls"] }
serde_json = "=1.0.154"
teloxide = { version = "=0.13.0", default-features = false, features = ["rustls"] }
tokio = { version = "=1.54.1", features = ["macros", "rt-multi-thread", "time"] }
# Not called by this crate: holds teloxide-core's own dependency takecell
# below 0.1.2, whose rust-version (1.96) the toolchain here (1.95) does not meet.
takecell = "<0.1.2"
