//! Verified building blocks of a family of tiny Unix tools and servers.

pub mod bytes;
pub mod text;
pub mod base32;
pub mod numfmt;
pub mod http;
pub mod hash;
pub mod cluster;
pub mod sql;
pub mod wasm;
pub mod smtp;
pub mod objstore;
pub mod broker;
pub mod pubsub;
pub mod kv;
pub mod blockchain;
pub mod sha256;
pub mod base64;
pub mod random;
pub mod wc;
pub mod cmdline;
pub mod xorpack;
pub mod bump;
pub mod x11;
pub mod portscan;
pub mod proxy;
pub mod sandbox;
pub mod udpecho;
pub mod demos;
pub mod tokenizer;
pub mod textgen;
