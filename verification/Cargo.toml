[package]
name = "scotty"
version = "0.3.3"
edition = "2021"
publish = false

[dependencies]
anyhow = "1"
bincode = "1"
chrono = { version = "0.4", default-features = false, features = ["std"] }
clap = { version = "4", features = ["cargo"] }
directories = "5"
fst = "0.4"
fuzzy-matcher = "0.3"
log = "0.4"
pretty_env_logger = "0.5"
regex-automata = { version = "0.1", features = ["transducer"] }
serde = { version = "1", features = ["derive"] }
serde_json = "1"
sled = "0.34"
tabwriter = "1"

[dev-dependencies]
tempfile = "3"
