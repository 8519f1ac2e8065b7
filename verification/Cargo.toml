[package]
name = "p2p_rtc"
version = "0.1.0"
edition = "2021"
publish = false

[dependencies]
wasm-bindgen = "0.2"
wasm-bindgen-futures = "0.4"
js-sys = "0.3"
web-sys = { version = "0.3", features = ["console", "Window", "Event", "MessageEvent", "WebSocket", "BinaryType", "RtcPeerConnection", "RtcConfiguration", "RtcDataChannel", "RtcDataChannelInit", "RtcDataChannelEvent", "RtcDataChannelType", "RtcDataChannelState", "RtcSessionDescription", "RtcSessionDescriptionInit", "RtcSdpType", "RtcPeerConnectionState", "RtcIceConnectionState", "RtcIceGatheringState"] }
