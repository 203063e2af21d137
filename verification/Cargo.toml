[package]
name = "mvtr"
version = "0.1.0"
edition = "2021"
publish = false

[dependencies]
evmap = "=10.0.2"
regex = "=1.13.1"
deunicode = "=1.6.2"
s2 = "=0.2.0"
roaring = "=0.11.5"
mvt-reader = "=2.5.0"
geo = "=0.33.1"
geo-types = "=0.7.20"
polyline = "=0.11.0"
anyhow = "1"
tracing = "0.1"
tracing-subscriber = { version = "0.3", default-features = false, features = ["fmt"] }
serde = { version = "1", features = ["derive"] }
serde_json = "1"
clap = { version = "4", default-features = false, features = ["derive", "std", "help", "usage", "error-context"] }
rmp-serde = "1"
num_cpus = "1"
futures-util = "0.3"
tokio = { version = "1", features = ["rt-multi-thread", "macros"] }
wasm-bindgen = "0.2"
js-sys = "0.3"
web-sys = { version = "0.3", features = ["console"] }
serde-wasm-bindgen = "0.6"
geozero = { version = "=0.15.1", default-features = false, features = ["with-wkb", "with-geo", "with-postgis-sqlx", "with-gpkg"] }
tantivy = { version = "=0.27.0", default-features = false, features = ["stemmer", "lz4-compression"] }
sqlx = { version = "0.8", default-features = false, features = ["postgres", "sqlite", "runtime-tokio", "json", "derive"] }
tokenizers = { version = "=0.23.2", default-features = false, features = ["onig", "http"] }
