[package]
name = "ash"
version = "0.1.0"
edition = "2021"
publish = false

[dependencies]
chrono = "0.4"
clap = { version = "4", features = ["cargo"] }
configparser = "3"
csv = "1"
curl = "0.4"
libbtrfs = "*"
libbtrfsutil = "*"
nix = { version = "0.26", features = ["mount", "user"] }
partition-identity = "*"
proc-mounts = "*"
tempfile = "3"
time = { version = "0.3", features = ["formatting", "parsing"] }
users = "0.11"
walkdir = "2"
