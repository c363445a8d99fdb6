[package]
name = "dotloy"
version = "0.1.0"
edition = "2021"
publish = false

[dependencies]
fs-err = "*"
symlink = "*"
uuid = { version = "*", features = ["v4"] }
clap = { version = "*", features = ["derive"] }
clap_complete = "*"
colored = "*"
directories = "*"
fern = "*"
log = "*"
notify = "*"
serde = { version = "*", features = ["derive"] }
serde_yaml = "*"

[dev-dependencies]
itertools = "*"
tempdir = "*"
