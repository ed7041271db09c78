//! Verified core of a LAN file-transfer app: mDNS wire format and peer
//! registry, the HTTP file-server request rules, the SSH receive rules,
//! pairing payloads, transfer bookkeeping and settings persistence formats.

pub mod text;
pub mod dns;
pub mod dns_roundtrip;
pub mod peers;
pub mod http;
pub mod client;
pub mod upload_gate;
pub mod transfer;
pub mod settings;
pub mod ssh;
pub mod pairing;
pub mod explorer;
pub mod devices;
