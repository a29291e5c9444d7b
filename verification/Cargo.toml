[package]
name = "raycoord"
version = "0.1.0"
edition = "2021"
publish = false

[dependencies]
anyhow = "1"
chrono = "0.4"
csv = "1"
dotenvy = "0.15"
gio = "0.15"
glib = "0.15"
gstreamer = "0.18"
gstreamer-app = "0.18"
gstreamer-video = "0.18"
hyper = { version = "0.14", features = ["server", "http1", "tcp"] }
log = "0.4"
ordered-float = "3"
pretty_env_logger = "0.4"
rand = "0.8"
serde = { version = "1", features = ["derive"] }
serde_json = "1"
signal-hook = "0.3"
structopt = "0.3"
tokio = { version = "1", features = ["macros", "rt-multi-thread"] }
tower = { version = "0.4", features = ["make"] }
tower-http = { version = "0.3", features = ["fs", "set-header"] }

[dev-dependencies]
postcard = { version = "1", features = ["alloc"] }
