//! A small publish/subscribe message broker.
//!
//! The broker tracks connected clients by network address, maps topic names
//! to 16-bit topic ids, keeps a subscription index from topic id to the
//! subscribed clients, and fans a published payload out to every current
//! subscriber.  A richer, hierarchical subscription index that understands
//! wildcard topic filters is provided as well.

pub mod broker;
pub mod dispatch;
pub mod msg_parser;
pub mod packet;
pub mod tree;
