[package]
name = "hoi25"
version = "0.1.0"
edition = "2021"
publish = false

[dependencies]
smallvec = "=1.16.4"
serde = { version = "=1.0.229", features = ["derive"] }
serde_json = "=1.0.154"
rand = "=0.10.3"
rand_distr = "=0.6.0"
image = { version = "=0.25.10", default-features = false, features = ["png"] }
bevy = { version = "=0.19.1", default-features = false }
bevy_replicon = "=0.44.3"
bevy_replicon_renet = "=0.20.0"
