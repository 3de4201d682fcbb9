//! A small MQTT 3.1 broker core: a packet codec, a stream framer that
//! reassembles control packets from arbitrarily fragmented reads, a
//! topic-subscription trie that routes published payloads, and a session
//! dispatcher that maps incoming packets to responses and trie updates.

pub mod broker;
pub mod message;
pub mod server;
pub mod topic;
