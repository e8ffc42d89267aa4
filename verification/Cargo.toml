[package]
name = "bridge"
version = "0.1.0"
edition = "2021"
publish = false

[dependencies]
anyhow = "1"
clap = { version = "4", features = ["derive"] }
constant_time_eq = "*"
hex = "0.4"
hmac = "*"
html-escape = "0.2"
http-body-util = "0.1"
hyper = { version = "1", features = ["client", "http1", "server"] }
hyper-tls = "0.6"
hyper-util = { version = "0.1", features = ["client-legacy", "http1", "tokio"] }
moka = { version = "0.12", features = ["sync"] }
pulldown-cmark = "*"
regex = "1"
reqwest = { version = "0.12", default-features = false, features = ["json", "multipart", "native-tls", "stream"] }
ruma = { version = "*", features = ["events"] }
serde = { version = "1", features = ["derive"] }
serde_json = "1"
serenity = { version = "0.12", default-features = false, features = ["cache", "client", "gateway", "model", "native_tls_backend"] }
sha2 = "*"
shlex = "1"
sqlx = { version = "0.8", default-features = false, features = ["derive", "macros", "runtime-tokio", "sqlite"] }
thiserror = "2"
tokio = { version = "1", features = ["macros", "net", "rt-multi-thread", "signal", "sync", "time"] }
tracing = "0.1"
tracing-subscriber = { version = "0.3", features = ["env-filter"] }
twox-hash = "*"
urlencoding = "2"
uuid = { version = "1", features = ["v4"] }
