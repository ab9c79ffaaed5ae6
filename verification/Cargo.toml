[package]
name = "iroh-webrtc"
version = "0.1.0"
edition = "2021"
publish = false

[dependencies]
bytes = "1"
iroh-base = { version = "*", features = ["key"] }
postcard = { version = "1", features = ["use-std"] }
str0m = { version = "*", default-features = false, features = ["rust-crypto"] }
tokio = { version = "1", features = ["sync", "net", "rt", "io-util", "time"] }
tracing = "0.1"
n0-future = "*"
n0-watcher = "*"
noq-udp = "*"
js-sys = "0.3"
wasm-bindgen = "0.2"
wasm-bindgen-futures = "0.4"
web-sys = { version = "0.3", features = ["EventTarget", "MessageEvent", "RtcConfiguration", "RtcDataChannel", "RtcDataChannelEvent", "RtcDataChannelInit", "RtcDataChannelType", "RtcIceCandidate", "RtcIceCandidateInit", "RtcIceConnectionState", "RtcPeerConnection", "RtcPeerConnectionIceEvent", "RtcSdpType", "RtcSessionDescriptionInit"] }
