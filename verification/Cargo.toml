[package]
name = "fast_cjson"
version = "0.1.0"
edition = "2021"
publish = false

[dependencies]
argon2 = "=0.5.3"
async-trait = "=0.1.92"
base64 = "=0.22.1"
bon = "=3.10.3"
color-eyre = "=0.6.5"
diesel = { version = "=2.3.14", default-features = false, features = ["postgres_backend", "time", "uuid"] }
diesel-async = { version = "=0.9.2", features = ["postgres", "bb8", "async-connection-wrapper"] }
diesel_migrations = "=2.3.2"
eyre = "=0.6.14"
frunk = "=0.4.4"
frunk_core = "=0.4.4"
garde = { version = "=0.23.0", features = ["derive", "email", "pattern", "regex"] }
icu_normalizer = "=2.4.0"
leb128 = "=0.2.7"
memchr = "=2.8.3"
miette = "=7.6.0"
quick-error = "=2.0.1"
rand = "=0.8.8"
rayon = "=1.12.0"
regex = "=1.13.1"
ring = "=0.17.14"
serde = { version = "=1.0.229", features = ["derive"] }
serde_json = "=1.0.154"
time = "=0.3.55"
tokio = { version = "=1.54.1", features = ["macros", "rt-multi-thread", "sync"] }
tracing = "=0.1.44"
tracing-error = "=0.2.1"
tracing-subscriber = { version = "=0.3.23", features = ["env-filter"] }
uuid = { version = "=1.29.0", features = ["v7"] }
wasmparser = "=0.262.0"
